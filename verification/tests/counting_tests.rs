use io_utils::counting::{checked_total, reset_all, total_count, CountingIO};
use io_utils::frame::split;
use io_utils::imux::{IMuxAsync, IMuxSync};

fn send_sync(mux: &mut IMuxSync<CountingIO<Vec<u8>>>, msg: &[u8]) {
    let out = split(mux.channel_count(), msg);
    for (channel, bytes) in mux.get_mut_ref().into_iter().zip(out) {
        channel.inner_mut().extend_from_slice(&bytes);
        channel.record(bytes.len());
    }
}

fn send_async(mux: &mut IMuxAsync<CountingIO<Vec<u8>>>, msg: &[u8]) {
    let out = split(mux.channel_count(), msg);
    for (channel, bytes) in mux.get_mut_ref().into_iter().zip(out) {
        channel.inner_mut().extend_from_slice(&bytes);
        channel.record(bytes.len());
    }
}

#[test]
fn a_new_counter_is_at_zero() {
    let io = CountingIO::new(vec![1u8, 2]);
    assert_eq!(io.count(), 0);
    assert_eq!(io.inner(), &vec![1u8, 2]);
    assert_eq!(io.into_inner(), vec![1u8, 2]);
}

#[test]
fn record_adds_up() {
    let mut io = CountingIO::new(());
    io.record(5);
    assert_eq!(io.count(), 5);
    io.record(0);
    assert_eq!(io.count(), 5);
    io.record(8192);
    assert_eq!(io.count(), 8197);
}

#[test]
fn reset_clears_the_counter_and_keeps_the_stream() {
    let mut io = CountingIO::new(String::from("stream"));
    io.record(12);
    io.reset();
    assert_eq!(io.count(), 0);
    assert_eq!(io.inner(), "stream");
    io.record(3);
    assert_eq!(io.count(), 3);
}

#[test]
fn inner_mut_reaches_the_stream_and_leaves_the_counter() {
    let mut io = CountingIO::new(Vec::<u8>::new());
    io.record(4);
    io.inner_mut().push(9);
    assert_eq!(io.inner(), &vec![9u8]);
    assert_eq!(io.count(), 4);
}

#[test]
fn total_count_sums_the_channels() {
    let mut channels = vec![CountingIO::new(0u8), CountingIO::new(1u8), CountingIO::new(2u8)];
    assert_eq!(total_count(&channels), 0);
    channels[0].record(10);
    channels[2].record(32);
    assert_eq!(total_count(&channels), 42);
    reset_all(&mut channels);
    assert_eq!(total_count(&channels), 0);
    assert_eq!(*channels[1].inner(), 1u8);
    assert_eq!(total_count(&Vec::<CountingIO<u8>>::new()), 0);
}

#[test]
fn one_write_counts_header_and_payload() {
    for &n in &[1usize, 2, 16] {
        for &len in &[0usize, 1, 8191, 8192, 100_000] {
            let channels: Vec<CountingIO<Vec<u8>>> =
                (0..n).map(|_| CountingIO::new(Vec::new())).collect();
            let mut mux = IMuxSync::new(channels);
            let msg = vec![0x5au8; len];
            send_sync(&mut mux, &msg);
            assert_eq!(mux.count(), 8 + len as u64);
        }
    }
}

#[test]
fn count_after_reset_does_not_depend_on_earlier_totals() {
    let channels: Vec<CountingIO<Vec<u8>>> = (0..4).map(|_| CountingIO::new(Vec::new())).collect();
    let mut mux = IMuxSync::new(channels);
    send_sync(&mut mux, &vec![1u8; 50_000]);
    send_sync(&mut mux, &vec![2u8; 7]);
    assert_eq!(mux.count(), 8 + 50_000 + 8 + 7);
    mux.reset();
    assert_eq!(mux.count(), 0);
    send_sync(&mut mux, &vec![3u8; 50_000]);
    assert_eq!(mux.count(), 8 + 50_000);
    mux.reset();
    send_sync(&mut mux, &vec![4u8; 50_000]);
    assert_eq!(mux.count(), 8 + 50_000);
}

#[test]
fn the_concurrent_form_counts_alike() {
    let channels: Vec<CountingIO<Vec<u8>>> = (0..3).map(|_| CountingIO::new(Vec::new())).collect();
    let mut mux = IMuxAsync::new(channels);
    send_async(&mut mux, &vec![1u8; 30_000]);
    assert_eq!(mux.count(), 8 + 30_000);
    mux.reset();
    assert_eq!(mux.count(), 0);
    send_async(&mut mux, &vec![1u8; 30_000]);
    assert_eq!(mux.count(), 8 + 30_000);
    let streams: Vec<Vec<u8>> = mux
        .into_inner()
        .into_iter()
        .map(|c| c.into_inner())
        .collect();
    assert_eq!(streams[0].len(), 2 * (8 + 10_000));
}

#[test]
fn checked_total_sums_through_references() {
    let mut a = CountingIO::new(());
    let mut b = CountingIO::new(());
    let c = CountingIO::new(());
    a.record(10);
    b.record(32);
    assert_eq!(checked_total(&vec![&a, &b, &c]), Some(42));
    assert_eq!(checked_total(&Vec::<&CountingIO<()>>::new()), Some(0));
    assert_eq!(checked_total(&vec![&b]), Some(32));
}

#[test]
fn checked_total_refuses_a_sum_over_the_top() {
    let mut a = CountingIO::new(());
    let mut b = CountingIO::new(());
    a.record(usize::MAX);
    b.record(1);
    assert_eq!(checked_total(&vec![&a]), Some(u64::MAX));
    assert_eq!(checked_total(&vec![&a, &b]), None);
    assert_eq!(checked_total(&vec![&b, &a]), None);
    let c = CountingIO::new(());
    assert_eq!(checked_total(&vec![&c, &a, &c]), Some(u64::MAX));
}

#[test]
fn checked_total_of_a_multiplexer_after_reset_and_write() {
    let channels: Vec<CountingIO<Vec<u8>>> = (0..16).map(|_| CountingIO::new(Vec::new())).collect();
    let mut mux = IMuxSync::new(channels);
    send_sync(&mut mux, &vec![9u8; 123_456]);
    mux.reset();
    send_sync(&mut mux, &vec![7u8; 200_000]);
    assert_eq!(checked_total(&mux.get_ref()), Some(8 + 200_000));
    assert_eq!(mux.count(), 8 + 200_000);
    assert_eq!(mux.count(), 8 + 200_000);
}
