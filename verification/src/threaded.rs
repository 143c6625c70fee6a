//! Sharing one multiplexed connection between worker threads.
//!
//! On the sending side every handle has an identity, and each logical message
//! travels as two messages: the identity, one byte, then the payload. On the
//! receiving side a single pump reads the messages in turn and routes each
//! payload to the inbox of the handle with that identity.

use vstd::prelude::*;

verus! {

/// Hands out the identities of the handles of one writer lineage.
///
/// The first handle has identity `0`. Every clone gets the next identity, up
/// to `255`; after that the counter is exhausted and issues none, so that no
/// identity is ever handed out twice.
pub struct IdentityCounter {
    next: u16,
}

impl IdentityCounter {
    /// The number of handles that the lineage has so far: the identity that
    /// the next clone gets, where one is left.
    pub closed spec fn next(&self) -> nat {
        self.next as nat
    }

    /// Every identity has been handed out.
    pub open spec fn exhausted(&self) -> bool {
        self.next() > 255
    }

    /// The counter of a new lineage, whose first handle has identity `0`.
    pub fn new() -> (counter: Self)
        ensures
            counter.next() == 1,
    {
        Self { next: 1 }
    }

    /// Issues the identity of a new clone: the next unused one, or `None`
    /// where all of `0` to `255` are in use. An exhausted counter stays as
    /// it is.
    pub fn issue(&mut self) -> (identity: Option<u8>)
        ensures
            issues(*old(self), identity, *final(self)),
    {
        if self.next <= 255 {
            let identity: u8 = self.next as u8;
            self.next = self.next + 1;
            Some(identity)
        } else {
            None
        }
    }
}

/// One clone: the counter `before` answers `identity` and becomes `after`.
pub open spec fn issues(
    before: IdentityCounter,
    identity: Option<u8>,
    after: IdentityCounter,
) -> bool {
    if before.exhausted() {
        identity is None && after == before
    } else {
        identity == Some(before.next() as u8) && after.next() == before.next() + 1
    }
}

/// The history of a lineage: `states[0]` is the counter of a new lineage, and
/// clone `k` took the counter from `states[k]` to `states[k + 1]` and was
/// answered `identities[k]`.
pub open spec fn lineage(states: Seq<IdentityCounter>, identities: Seq<Option<u8>>) -> bool {
    &&& states.len() == identities.len() + 1
    &&& states[0].next() == 1
    &&& forall|k: int|
        0 <= k < identities.len() ==> issues(states[k], #[trigger] identities[k], states[k + 1])
}

proof fn lemma_lineage_counts(
    states: Seq<IdentityCounter>,
    identities: Seq<Option<u8>>,
    k: int,
)
    requires
        lineage(states, identities),
        0 <= k < identities.len(),
    ensures
        k < 255 ==> states[k].next() == k + 1 && identities[k] == Some((k + 1) as u8),
        k >= 255 ==> states[k].next() == 256 && identities[k] is None,
    decreases k,
{
    if k > 0 {
        lemma_lineage_counts(states, identities, k - 1);
        assert(issues(states[k - 1], identities[k - 1], states[k]));
    }
    assert(issues(states[k], identities[k], states[k + 1]));
}

/// Identity uniqueness: beside the first handle with identity `0`, the
/// `k`-th clone of a lineage gets identity `k` as long as `k` is at most
/// `255`, and every later clone gets none. So the identities handed out are
/// distinct and strictly increasing from `0`, and none is ever reused.
pub proof fn lemma_identities_increase(
    states: Seq<IdentityCounter>,
    identities: Seq<Option<u8>>,
)
    requires
        lineage(states, identities),
    ensures
        forall|k: int|
            0 <= k < identities.len() && k < 255 ==> #[trigger] identities[k] == Some(
                (k + 1) as u8,
            ),
        forall|k: int| 0 <= k < identities.len() && k >= 255 ==> #[trigger] identities[k] is None,
        forall|j: int, k: int|
            0 <= j < k < identities.len() && identities[k] is Some ==> identities[j] is Some && 0
                < (#[trigger] identities[j])->0 < (#[trigger] identities[k])->0,
{
    assert forall|k: int| 0 <= k < identities.len() implies (k < 255 ==> #[trigger] identities[k]
        == Some((k + 1) as u8)) && (k >= 255 ==> identities[k] is None) by {
        lemma_lineage_counts(states, identities, k);
    }
}

/// Where every clone of a lineage was given an identity, the `k`-th clone
/// has identity `k`: the identities are distinct and strictly increasing
/// from the `0` of the first handle.
pub proof fn lemma_identities_of_clones(
    states: Seq<IdentityCounter>,
    identities: Seq<Option<u8>>,
)
    requires
        lineage(states, identities),
        forall|k: int| 0 <= k < identities.len() ==> (#[trigger] identities[k]) is Some,
    ensures
        identities.len() <= 255,
        forall|k: int| 0 <= k < identities.len() ==> (#[trigger] identities[k])->0 == k + 1,
        forall|j: int, k: int|
            0 <= j < k < identities.len() ==> 0 < (#[trigger] identities[j])->0 < (
            #[trigger] identities[k])->0,
{
    lemma_identities_increase(states, identities);
    if identities.len() > 255 {
        assert(identities[255] is Some);
    }
}

/// The two messages that a handle with `identity` sends for `payload`.
pub open spec fn tagged(identity: u8, payload: Seq<u8>) -> Seq<Seq<u8>> {
    seq![seq![identity], payload]
}

/// Makes the message that announces the sender of the next message.
pub fn identity_message(identity: u8) -> (message: Vec<u8>)
    ensures
        message@ == seq![identity],
{
    let mut message: Vec<u8> = Vec::new();
    message.push(identity);
    assert(message@ =~= seq![identity]);
    message
}

/// Where the pump stands between two reads.
#[derive(Clone, Copy, Debug, PartialEq, Eq)]
pub enum PumpState {
    /// The next message names a sender.
    AwaitIdentity,
    /// The next message is the payload from the sender named by the message
    /// before, whose first byte is `identity`; `None` where that message was
    /// empty.
    AwaitBody { identity: Option<u8> },
    /// The pump has ended.
    Stopped,
}

/// A payload that cannot be routed: there is no inbox for `identity`, or the
/// message that should name the sender was empty.
#[derive(Clone, Copy, Debug, PartialEq, Eq)]
pub struct RoutingError {
    /// The sender that the message named, if it named one.
    pub identity: Option<u8>,
    /// The number of inboxes registered when the payload arrived.
    pub inboxes: usize,
}

/// What the pump does next.
#[derive(Debug, PartialEq, Eq)]
pub enum PumpAction {
    /// Read the next message.
    Read,
    /// Put `body` into the inbox at index `inbox`, then read the next message.
    Deliver { inbox: usize, body: Vec<u8> },
    /// End: the stream is closed.
    Stop,
    /// End: the protocol is broken.
    Fail(RoutingError),
}

/// `PumpAction` with the payload as a sequence of bytes.
pub enum Routed {
    /// Read the next message.
    Read,
    /// Put `body` into the inbox at index `inbox`, then read the next message.
    Deliver { inbox: nat, body: Seq<u8> },
    /// End: the stream is closed.
    Stop,
    /// End: the protocol is broken.
    Fail(RoutingError),
}

impl View for PumpAction {
    type V = Routed;

    open spec fn view(&self) -> Routed {
        match *self {
            PumpAction::Read => Routed::Read,
            PumpAction::Deliver { inbox, body } => Routed::Deliver { inbox: inbox as nat, body: body@ },
            PumpAction::Stop => Routed::Stop,
            PumpAction::Fail(e) => Routed::Fail(e),
        }
    }
}

/// The first byte of a message that names a sender.
pub open spec fn named(message: Seq<u8>) -> Option<u8> {
    if message.len() >= 1 {
        Some(message[0])
    } else {
        None
    }
}

/// The pump's rule. `event` is the message just read, or `None` where the
/// read failed; `inboxes` is the number of inboxes registered at that moment.
///
/// A failed read ends the pump. A message that names a sender is remembered.
/// The payload that follows goes to the inbox of that sender, if there is
/// one; if not, the pump ends with a routing failure.
pub open spec fn step_spec(state: PumpState, event: Option<Seq<u8>>, inboxes: nat) -> (
    PumpState,
    Routed,
) {
    match (state, event) {
        (PumpState::Stopped, _) => (PumpState::Stopped, Routed::Stop),
        (_, None) => (PumpState::Stopped, Routed::Stop),
        (PumpState::AwaitIdentity, Some(message)) => (
            PumpState::AwaitBody { identity: named(message) },
            Routed::Read,
        ),
        (PumpState::AwaitBody { identity }, Some(body)) => {
            if identity is Some && identity->0 < inboxes {
                (PumpState::AwaitIdentity, Routed::Deliver { inbox: identity->0 as nat, body })
            } else {
                (
                    PumpState::Stopped,
                    Routed::Fail(RoutingError { identity, inboxes: inboxes as usize }),
                )
            }
        },
    }
}

impl PumpState {
    /// The state in which a pump starts.
    pub fn new() -> (state: Self)
        ensures
            state == PumpState::AwaitIdentity,
    {
        PumpState::AwaitIdentity
    }

    /// Decides what the pump does after a read: see `step_spec`.
    pub fn step(self, event: Option<Vec<u8>>, inboxes: usize) -> (next: (PumpState, PumpAction))
        ensures
            (next.0, next.1@) == step_spec(
                self,
                match event {
                    Some(message) => Some(message@),
                    None => None,
                },
                inboxes as nat,
            ),
    {
        match self {
            PumpState::Stopped => (PumpState::Stopped, PumpAction::Stop),
            PumpState::AwaitIdentity => match event {
                None => (PumpState::Stopped, PumpAction::Stop),
                Some(message) => {
                    let identity: Option<u8> = if message.len() >= 1 {
                        Some(message[0])
                    } else {
                        None
                    };
                    (PumpState::AwaitBody { identity }, PumpAction::Read)
                },
            },
            PumpState::AwaitBody { identity } => match event {
                None => (PumpState::Stopped, PumpAction::Stop),
                Some(body) => {
                    let target: Option<usize> = match identity {
                        Some(i) => if (i as usize) < inboxes {
                            Some(i as usize)
                        } else {
                            None
                        },
                        None => None,
                    };
                    match target {
                        Some(inbox) => (PumpState::AwaitIdentity, PumpAction::Deliver { inbox, body }),
                        None => (
                            PumpState::Stopped,
                            PumpAction::Fail(RoutingError { identity, inboxes }),
                        ),
                    }
                },
            },
        }
    }
}

/// The inboxes after the action of one step.
pub open spec fn deliver(inboxes: Seq<Seq<Seq<u8>>>, action: Routed) -> Seq<Seq<Seq<u8>>> {
    match action {
        Routed::Deliver { inbox, body } => inboxes.update(
            inbox as int,
            inboxes[inbox as int].push(body),
        ),
        _ => inboxes,
    }
}

/// The pump's state and the inboxes after `messages` were read in turn.
pub open spec fn pumped(state: PumpState, inboxes: Seq<Seq<Seq<u8>>>, messages: Seq<Seq<u8>>) -> (
    PumpState,
    Seq<Seq<Seq<u8>>>,
)
    decreases messages.len(),
{
    if messages.len() == 0 {
        (state, inboxes)
    } else {
        let (next, action) = step_spec(state, Some(messages[0]), inboxes.len());
        pumped(next, deliver(inboxes, action), messages.skip(1))
    }
}

/// The messages that travel for `sends`, a sequence of writes in the order
/// in which the writers got the lock, each an identity and a payload.
pub open spec fn stream_of(sends: Seq<(u8, Seq<u8>)>) -> Seq<Seq<u8>>
    decreases sends.len(),
{
    if sends.len() == 0 {
        Seq::empty()
    } else {
        tagged(sends[0].0, sends[0].1) + stream_of(sends.skip(1))
    }
}

/// The payloads among `sends` that the handle with `identity` wrote, in
/// order.
pub open spec fn sent_by(sends: Seq<(u8, Seq<u8>)>, identity: nat) -> Seq<Seq<u8>>
    decreases sends.len(),
{
    if sends.len() == 0 {
        Seq::empty()
    } else if sends[0].0 == identity {
        seq![sends[0].1] + sent_by(sends.skip(1), identity)
    } else {
        sent_by(sends.skip(1), identity)
    }
}

/// Demultiplexing: whatever the order in which the writers' messages got
/// onto the stream, the pump leaves in each inbox what was there before,
/// followed by exactly the payloads of the writer with that inbox's index, in
/// the order written, and is ready for the next message.
pub proof fn lemma_demultiplex(inboxes: Seq<Seq<Seq<u8>>>, sends: Seq<(u8, Seq<u8>)>)
    requires
        forall|k: int| 0 <= k < sends.len() ==> (#[trigger] sends[k]).0 < inboxes.len(),
    ensures
        pumped(PumpState::AwaitIdentity, inboxes, stream_of(sends)).0 == PumpState::AwaitIdentity,
        pumped(PumpState::AwaitIdentity, inboxes, stream_of(sends)).1.len() == inboxes.len(),
        forall|i: int|
            0 <= i < inboxes.len() ==> #[trigger] pumped(
                PumpState::AwaitIdentity,
                inboxes,
                stream_of(sends),
            ).1[i] == inboxes[i] + sent_by(sends, i as nat),
    decreases sends.len(),
{
    let stream = stream_of(sends);
    if sends.len() == 0 {
        assert forall|i: int| 0 <= i < inboxes.len() implies inboxes[i] == inboxes[i] + sent_by(
            sends,
            i as nat,
        ) by {
            assert(inboxes[i] + Seq::<Seq<u8>>::empty() =~= inboxes[i]);
        }
    } else {
        let identity = sends[0].0;
        let payload = sends[0].1;
        let rest = sends.skip(1);
        let after_tag = stream.skip(1);
        let grown = inboxes.update(identity as int, inboxes[identity as int].push(payload));
        assert(stream[0] == seq![identity]);
        assert(stream[1] == payload);
        assert(after_tag[0] == payload);
        assert(after_tag.skip(1) =~= stream_of(rest));
        assert(named(stream[0]) == Some(identity));
        assert(sends[0].0 < inboxes.len());
        assert(pumped(PumpState::AwaitIdentity, inboxes, stream) == pumped(
            PumpState::AwaitBody { identity: Some(identity) },
            inboxes,
            after_tag,
        ));
        assert(pumped(PumpState::AwaitBody { identity: Some(identity) }, inboxes, after_tag)
            == pumped(PumpState::AwaitIdentity, grown, stream_of(rest)));
        assert forall|k: int| 0 <= k < rest.len() implies (#[trigger] rest[k]).0 < grown.len() by {
            assert(rest[k] == sends[k + 1]);
        }
        lemma_demultiplex(grown, rest);
        assert forall|i: int| 0 <= i < inboxes.len() implies grown[i] + sent_by(rest, i as nat)
            == inboxes[i] + sent_by(sends, i as nat) by {
            if i == identity {
                assert(inboxes[i].push(payload) + sent_by(rest, i as nat) =~= inboxes[i] + (
                seq![payload] + sent_by(rest, i as nat)));
            }
        }
    }
}

} // verus!
