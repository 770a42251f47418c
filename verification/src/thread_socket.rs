//! A bidirectional, blocking, point-to-point channel between two threads,
//! built from a pair of one-way queues.
//!
//! One endpoint's `send` is received by the other endpoint's `receive`, in
//! first-in first-out order.  The directory holds one endpoint per worker;
//! the worker's listener thread holds the other.  Endpoints may be shared
//! across threads, which the directory relies on.

use vstd::prelude::*;

verus! {

#[verifier::external_type_specification]
#[verifier::external_body]
#[verifier::reject_recursive_types(T)]
pub struct ExSender<T>(async_std::channel::Sender<T>);

#[verifier::external_type_specification]
#[verifier::external_body]
#[verifier::reject_recursive_types(T)]
pub struct ExReceiver<T>(async_std::channel::Receiver<T>);

pub assume_specification<T>[ async_std::channel::unbounded::<T> ]() -> (r: (
    async_std::channel::Sender<T>,
    async_std::channel::Receiver<T>,
));

/// One endpoint of a bidirectional channel.
#[verifier::reject_recursive_types(T)]
pub struct ThreadSocket<T> {
    sender: async_std::channel::Sender<T>,
    receiver: async_std::channel::Receiver<T>,
}

/// Build a connected pair of endpoints: what one sends, the other receives.
pub fn new_socket<T>() -> (ThreadSocket<T>, ThreadSocket<T>) {
    let (sender_a, receiver_b) = async_std::channel::unbounded();
    let (sender_b, receiver_a) = async_std::channel::unbounded();

    let socket_a: ThreadSocket<T> = ThreadSocket::new(sender_a, receiver_a);
    let socket_b: ThreadSocket<T> = ThreadSocket::new(sender_b, receiver_b);

    (socket_a, socket_b)
}

impl<T> ThreadSocket<T> {
    pub fn new(
        sender: async_std::channel::Sender<T>,
        receiver: async_std::channel::Receiver<T>,
    ) -> ThreadSocket<T> {
        ThreadSocket { sender, receiver }
    }

    /// Relies on async_std::channel::Receiver::recv_blocking: blocks until
    /// the peer endpoint sends a message and returns it, in FIFO order.
    /// Aborts the process if every peer sender was dropped, which no
    /// configuration of this library does: endpoints live as long as the
    /// directory.
    #[verifier::external_body]
    pub fn receive(&self) -> T {
        self.receiver.recv_blocking().unwrap()
    }

    /// Relies on async_std::channel::Sender::send_blocking: queues `data`
    /// for the peer endpoint; the queue is unbounded, so this does not
    /// block.  Aborts the process if the peer receiver was dropped, which
    /// no configuration of this library does.
    #[verifier::external_body]
    pub fn send(&self, data: T) {
        self.sender.send_blocking(data).unwrap();
    }
}

} // verus!
