use io_utils::frame::{receive, split};
use io_utils::imux::{aggregate, IMuxAsync, IMuxSync};

#[test]
fn channels_keep_their_order() {
    let mux = IMuxSync::new(vec![10u32, 20, 30]);
    assert_eq!(mux.channel_count(), 3);
    assert_eq!(mux.get_ref(), vec![&10u32, &20, &30]);
    assert_eq!(mux.into_inner(), vec![10u32, 20, 30]);
    let mux = IMuxAsync::new(vec!['a', 'b']);
    assert_eq!(mux.channel_count(), 2);
    assert_eq!(mux.get_ref(), vec![&'a', &'b']);
    assert_eq!(mux.into_inner(), vec!['a', 'b']);
}

#[test]
fn mutable_references_reach_each_channel() {
    let mut mux = IMuxSync::new(vec![1u32, 2, 3]);
    {
        let refs = mux.get_mut_ref();
        assert_eq!(refs.len(), 3);
        for (i, r) in refs.into_iter().enumerate() {
            assert_eq!(*r, i as u32 + 1);
            *r += 10 * (i as u32 + 1);
        }
    }
    assert_eq!(mux.into_inner(), vec![11u32, 22, 33]);
    let mut mux = IMuxAsync::new(vec![String::from("x"), String::from("y")]);
    for r in mux.get_mut_ref() {
        r.push('!');
    }
    assert_eq!(mux.into_inner(), vec![String::from("x!"), String::from("y!")]);
}

#[test]
fn the_multiplexer_plans_for_its_channels() {
    let mux = IMuxSync::new(vec![(); 16]);
    assert_eq!(mux.chunk_size(1 << 25), 2_097_152);
    assert_eq!(mux.chunk_size(100), 8192);
    assert_eq!(mux.chunk_range(1 << 25, 15), (15 * 2_097_152, 1 << 25));
    let mux = IMuxAsync::new(vec![(); 3]);
    assert_eq!(mux.chunk_size(100_000), 33_334);
    assert_eq!(mux.chunk_range(100_000, 2), (66_668, 100_000));
    assert_eq!(mux.chunk_range(10, 1), (10, 10));
}

#[test]
fn aggregate_of_successes_is_success() {
    assert_eq!(aggregate::<String>(vec![]), Ok(()));
    assert_eq!(aggregate::<String>(vec![Ok(()), Ok(()), Ok(())]), Ok(()));
}

#[test]
fn aggregate_reports_the_first_failure() {
    assert_eq!(aggregate(vec![Err("closed")]), Err("closed"));
    assert_eq!(aggregate(vec![Ok(()), Err("b"), Ok(()), Err("d")]), Err("b"));
    assert_eq!(aggregate(vec![Ok(()), Ok(()), Err(3u8)]), Err(3u8));
    assert_eq!(aggregate(vec![Err(1u8), Err(2u8)]), Err(1u8));
}

#[test]
fn any_one_failed_channel_fails_the_transfer() {
    for failed in 0..16usize {
        let outcomes: Vec<Result<(), usize>> = (0..16)
            .map(|i| if i == failed { Err(i) } else { Ok(()) })
            .collect();
        assert_eq!(aggregate(outcomes), Err(failed));
    }
}

#[test]
fn a_message_travels_through_two_multiplexers() {
    let msg: Vec<u8> = (0..50_000u32).map(|i| (i % 251) as u8).collect();
    let mut sender = IMuxSync::new(vec![Vec::<u8>::new(); 4]);
    let out = split(sender.channel_count(), &msg);
    for (channel, bytes) in sender.get_mut_ref().into_iter().zip(out) {
        channel.extend_from_slice(&bytes);
    }
    let receiver = IMuxAsync::new(sender.into_inner());
    let arrived: Vec<Vec<u8>> = receiver.get_ref().into_iter().cloned().collect();
    assert_eq!(receive(&arrived), Some(msg));
}
