use tokio::sync::mpsc::{UnboundedReceiver, UnboundedSender};
use vstd::prelude::*;

verus! {

#[verifier::external_type_specification]
#[verifier::external_body]
#[verifier::reject_recursive_types(T)]
pub struct ExUnboundedSender<T>(UnboundedSender<T>);

#[verifier::external_type_specification]
#[verifier::external_body]
#[verifier::reject_recursive_types(T)]
pub struct ExUnboundedReceiver<T>(UnboundedReceiver<T>);

/// A sending half of a channel, with the channel it belongs to, every
/// message handed to it and, for each, whether the channel took it, as
/// ghost state.
#[verifier::reject_recursive_types(T)]
pub struct ChannelSender<T> {
    tx: UnboundedSender<T>,
    id: Ghost<int>,
    handed: Ghost<Seq<T>>,
    accepted: Ghost<Seq<bool>>,
}

/// The receiving half of a channel, with the channel it belongs to as ghost
/// state.
#[verifier::reject_recursive_types(T)]
pub struct ChannelReceiver<T> {
    rx: UnboundedReceiver<T>,
    id: Ghost<int>,
}

impl<T> ChannelSender<T> {
    /// The channel this half belongs to.
    pub closed spec fn id(&self) -> int {
        self.id@
    }

    /// Every message handed to this half for sending, in order, whether the
    /// channel took it or not.
    pub closed spec fn handed(&self) -> Seq<T> {
        self.handed@
    }

    /// For each message handed to this half, in order, whether the channel
    /// took it (`false`: the receiving half was closed and the message came
    /// back).
    pub closed spec fn accepted(&self) -> Seq<bool> {
        self.accepted@
    }
}

impl<T> ChannelReceiver<T> {
    /// The channel this half belongs to.
    pub closed spec fn id(&self) -> int {
        self.id@
    }

    /// The tokio receiver itself, for the consumer to drain.
    pub fn into_inner(self) -> UnboundedReceiver<T> {
        self.rx
    }
}

/// Relies on tokio::sync::mpsc::unbounded_channel: a new channel, whose two
/// halves belong to it; nothing has been sent yet.
#[verifier::external_body]
pub(crate) fn open_channel<T>() -> (r: (ChannelSender<T>, ChannelReceiver<T>))
    ensures
        r.0.id() == r.1.id(),
        r.0.handed() == Seq::<T>::empty(),
        r.0.accepted() == Seq::<bool>::empty(),
{
    let (tx, rx) = tokio::sync::mpsc::unbounded_channel();
    (
        ChannelSender { tx, id: Ghost(0), handed: Ghost(Seq::empty()), accepted: Ghost(Seq::empty()) },
        ChannelReceiver { rx, id: Ghost(0) },
    )
}

/// Relies on `Clone` for tokio's UnboundedSender: another sending half of
/// the same channel, to which nothing has been handed yet.
#[verifier::external_body]
pub(crate) fn share_sender<T>(tx: &ChannelSender<T>) -> (r: ChannelSender<T>)
    ensures
        r.id() == tx.id(),
        r.handed() == Seq::<T>::empty(),
        r.accepted() == Seq::<bool>::empty(),
{
    ChannelSender {
        tx: tx.tx.clone(),
        id: Ghost(tx.id@),
        handed: Ghost(Seq::empty()),
        accepted: Ghost(Seq::empty()),
    }
}

/// Relies on tokio's UnboundedSender::send, which never waits: it takes the
/// message, and queues it and returns `Ok`, or, when the receiving half is
/// closed, gives it back unchanged in its `SendError`. Which of the two came
/// is recorded.
#[verifier::external_body]
pub(crate) fn send_or_return<T>(tx: &mut ChannelSender<T>, message: T) -> (r: Result<(), T>)
    ensures
        final(tx).id() == old(tx).id(),
        final(tx).handed() == old(tx).handed().push(message),
        final(tx).accepted() == old(tx).accepted().push(r is Ok),
        r matches Err(m) ==> m == message,
{
    match tx.tx.send(message) {
        Ok(()) => Ok(()),
        Err(e) => Err(e.0),
    }
}

} // verus!
