//! The account of what was found where one answer is expected.

use vstd::prelude::*;

use crate::connection::managed::Received;

verus! {

/// What was found so far: the message, or that none will come. It exists for the sake of the account
/// alone.
pub struct Mailbox<T> {
    found: Ghost<Option<Received<T>>>,
}

impl<T> Mailbox<T> {
    /// What was found, once there was something.
    pub closed spec fn found(&self) -> Option<Received<T>> {
        self.found@
    }

    /// Nothing was found yet.
    pub fn new() -> (mailbox: Self)
        ensures
            mailbox.found() is None,
    {
        Mailbox { found: Ghost(None) }
    }

    /// Looks for the message, and takes note of what was found.
    pub fn look(&mut self, receiver: &oneshot::Receiver<T>) -> (received: Received<T>)
        ensures
            received is NotYet ==> *final(self) == *old(self),
            received !is NotYet ==> final(self).found() == Some(received),
    {
        let received = crate::connection::managed::try_recv(receiver);
        match received {
            Received::NotYet => {},
            _ => {
                self.found = Ghost(Some(received));
            },
        }
        received
    }
}

} // verus!
