//! Non-blocking sends on bounded channels, through `tokio::sync::mpsc`.

use tokio::sync::mpsc::error::TrySendError;
use tokio::sync::mpsc::Sender;
use vstd::prelude::*;

verus! {

/// `tokio::sync::mpsc::Sender`, the sending half of a bounded channel.
#[verifier::external_type_specification]
#[verifier::external_body]
#[verifier::reject_recursive_types(T)]
pub struct ExSender<T>(tokio::sync::mpsc::Sender<T>);

/// What became of a message that was offered to a channel.
#[derive(Debug)]
pub enum SendOutcome<T> {
    /// The channel took the message.
    Sent,
    /// The channel was full and handed the message back.
    Full(T),
    /// The receiver was gone and the message came back.
    Closed(T),
}

/// The sending end of a channel, with a record of what went through it.
#[verifier::reject_recursive_types(T)]
pub struct Outbox<T> {
    tx: Sender<T>,
    offered: Ghost<Seq<T>>,
    taken: Ghost<Seq<T>>,
}

impl<T> Outbox<T> {
    /// The messages that were offered to the channel, in order.
    pub closed spec fn offered(&self) -> Seq<T> {
        self.offered@
    }

    /// The messages that the channel took, in order.
    pub closed spec fn taken(&self) -> Seq<T> {
        self.taken@
    }

    /// An outbox that nothing went through yet.
    pub fn new(tx: Sender<T>) -> (outbox: Self)
        ensures
            outbox.offered() == Seq::<T>::empty(),
            outbox.taken() == Seq::<T>::empty(),
    {
        Outbox { tx, offered: Ghost(Seq::empty()), taken: Ghost(Seq::empty()) }
    }

    /// `Sender::try_send`: offers a message to the channel and never waits. The
    /// message goes on the record of what was offered, and on that of what was
    /// taken if the channel took it; a message that is not taken comes back as it
    /// was. Whether it is taken depends on the other ends of the channel, and
    /// nothing is claimed of that.
    #[verifier::external_body]
    pub(crate) fn offer(&mut self, message: T) -> (outcome: SendOutcome<T>)
        ensures
            final(self).offered() == old(self).offered().push(message),
            match outcome {
                SendOutcome::Sent => final(self).taken() == old(self).taken().push(message),
                SendOutcome::Full(back) => back == message && final(self).taken() == old(self).taken(),
                SendOutcome::Closed(back) => back == message && final(self).taken() == old(self).taken(),
            },
    {
        match self.tx.try_send(message) {
            Ok(()) => SendOutcome::Sent,
            Err(TrySendError::Full(back)) => SendOutcome::Full(back),
            Err(TrySendError::Closed(back)) => SendOutcome::Closed(back),
        }
    }
}

} // verus!
