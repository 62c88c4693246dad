//! The channels over which trees are handed out to be written.
//!
//! A tree is known by its place among the trees of its transaction, and the
//! channels carry these places. Both ends of a channel stay with the function that
//! made it, so that what waits in it is known.

use vstd::prelude::*;

verus! {

/// The sending end of a channel.
#[verifier::external_type_specification]
#[verifier::external_body]
#[verifier::reject_recursive_types(T)]
pub struct ExSender<T>(flume::Sender<T>);

/// The receiving end of a channel.
#[verifier::external_type_specification]
#[verifier::external_body]
#[verifier::reject_recursive_types(T)]
pub struct ExReceiver<T>(flume::Receiver<T>);

/// The error of a channel that no one receives from.
#[verifier::external_type_specification]
#[verifier::external_body]
#[verifier::reject_recursive_types(T)]
pub struct ExSendError<T>(flume::SendError<T>);

/// The error of a channel that no one sends to.
#[verifier::external_type_specification]
#[verifier::external_body]
pub struct ExRecvError(flume::RecvError);

/// The error of a channel in which nothing waits.
#[verifier::external_type_specification]
#[verifier::external_body]
pub struct ExTryRecvError(flume::TryRecvError);

/// The places that wait in a channel, the one that was sent first in front.
pub uninterp spec fn waiting(receiver: flume::Receiver<usize>) -> Seq<usize>;

/// What is sent by `sender` reaches `receiver`.
pub uninterp spec fn feeds(sender: flume::Sender<usize>, receiver: flume::Receiver<usize>) -> bool;

/// Makes a channel, by `flume::unbounded`. Nothing waits in it, and its two ends
/// belong together.
#[verifier::external_body]
pub(crate) fn unbounded() -> (ends: (flume::Sender<usize>, flume::Receiver<usize>))
    ensures
        feeds(ends.0, ends.1),
        waiting(ends.1) == Seq::<usize>::empty(),
{
    flume::unbounded()
}

/// Sends a place, by `flume::Sender::send`. It goes behind what waits already. An
/// unbounded channel is never full, and the receiving end, which is given along,
/// has not been dropped: so nothing fails.
#[verifier::external_body]
pub(crate) fn send(
    sender: &flume::Sender<usize>,
    receiver: &mut flume::Receiver<usize>,
    place: usize,
) -> (result: Result<(), flume::SendError<usize>>)
    requires
        feeds(*sender, *old(receiver)),
    ensures
        result is Ok,
        feeds(*sender, *final(receiver)),
        waiting(*final(receiver)) == waiting(*old(receiver)).push(place),
{
    sender.send(place)
}

/// Receives a place, by `flume::Receiver::recv`: the one that has waited longest.
/// Where nothing waits the call would block, so that is left out.
#[verifier::external_body]
pub(crate) fn recv(receiver: &mut flume::Receiver<usize>) -> (result: Result<
    usize,
    flume::RecvError,
>)
    requires
        waiting(*old(receiver)).len() > 0,
    ensures
        result == Ok::<usize, flume::RecvError>(waiting(*old(receiver))[0]),
        waiting(*final(receiver)) == waiting(*old(receiver)).drop_first(),
{
    receiver.recv()
}

/// Receives a place if one waits, by `flume::Receiver::try_recv`: the one that has
/// waited longest. Where nothing waits it fails, and the channel stays as it was.
#[verifier::external_body]
pub(crate) fn try_recv(receiver: &mut flume::Receiver<usize>) -> (result: Result<
    usize,
    flume::TryRecvError,
>)
    ensures
        waiting(*old(receiver)).len() == 0 ==> {
            &&& result is Err
            &&& waiting(*final(receiver)) == waiting(*old(receiver))
        },
        waiting(*old(receiver)).len() > 0 ==> {
            &&& result == Ok::<usize, flume::TryRecvError>(waiting(*old(receiver))[0])
            &&& waiting(*final(receiver)) == waiting(*old(receiver)).drop_first()
        },
{
    receiver.try_recv()
}

} // verus!
