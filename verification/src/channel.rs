//! The bounded queues of `async-channel`, as far as the solver and the
//! workers use them. What travels through a queue depends on the threads at
//! its other end, so nothing is claimed of what a call returns.
use vstd::prelude::*;
use async_channel::{Receiver, RecvError, SendError, Sender};

verus! {

/// `async_channel::Sender`, the sending end of a queue. Nothing is known
/// of what is inside.
#[verifier::external_type_specification]
#[verifier::external_body]
#[verifier::reject_recursive_types(T)]
pub struct ExSender<T>(Sender<T>);

/// `async_channel::Receiver`, the receiving end of a queue. Nothing is
/// known of what is inside.
#[verifier::external_type_specification]
#[verifier::external_body]
#[verifier::reject_recursive_types(T)]
pub struct ExReceiver<T>(Receiver<T>);

/// `async_channel::SendError`, which hands back the message that could
/// not be sent.
#[verifier::external_type_specification]
#[verifier::external_body]
#[verifier::reject_recursive_types(T)]
pub struct ExSendError<T>(SendError<T>);

/// `async_channel::RecvError`: the queue is closed and empty.
#[verifier::external_type_specification]
#[verifier::external_body]
pub struct ExRecvError(RecvError);

/// `async_channel::bounded`: a queue that holds at most `cap` messages. It
/// panics on a capacity of zero, which is left out here.
pub assume_specification<T>[ async_channel::bounded::<T> ](cap: usize) -> (ends: (
    Sender<T>,
    Receiver<T>,
))
    requires
        cap > 0,
;

/// `Sender::send_blocking`: waits for room and puts the message in, or
/// fails when the queue is closed.
pub assume_specification<T>[ Sender::<T>::send_blocking ](sender: &Sender<T>, msg: T) -> (sent:
    Result<(), SendError<T>>)
;

/// `Receiver::recv_blocking`: waits for a message and takes it out, or
/// fails when the queue is closed and empty.
pub assume_specification<T>[ Receiver::<T>::recv_blocking ](receiver: &Receiver<T>) -> (got: Result<
    T,
    RecvError,
>)
;

} // verus!
