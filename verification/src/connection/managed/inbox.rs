//! The account of what was found in a queue of batches: which messages there were, and which of them were
//! read.

use vstd::prelude::*;

use crate::connection::channels::ChannelInfo;

verus! {

/// A message that was found in the queue.
#[verifier::reject_recursive_types(S)]
pub struct Message<'a, S> {
    slot: thingbuf::mpsc::blocking::RecvRef<'a, ChannelInfo<S>>,
    number: Ghost<nat>,
}

impl<'a, S> Message<'a, S> {
    /// How many messages were found before this one.
    pub closed spec fn number(&self) -> nat {
        self.number@
    }
}

/// What was found in a queue so far. It exists for the sake of the account alone.
pub struct Inbox<S> {
    found: Ghost<nat>,
    read: Ghost<Seq<(nat, ChannelInfo<S>)>>,
    drained: Ghost<bool>,
}

impl<S> Inbox<S> {
    /// How many messages were found.
    pub closed spec fn found(&self) -> nat {
        self.found@
    }

    /// The messages that were read, in order, each with its number.
    pub closed spec fn read(&self) -> Seq<(nat, ChannelInfo<S>)> {
        self.read@
    }

    /// Whether the last look found nothing.
    pub closed spec fn is_drained(&self) -> bool {
        self.drained@
    }

    /// Nothing was looked for yet.
    pub fn new() -> (inbox: Self)
        ensures
            inbox.found() == 0,
            inbox.read() == Seq::<(nat, ChannelInfo<S>)>::empty(),
            !inbox.is_drained(),
    {
        Inbox { found: Ghost(0), read: Ghost(Seq::empty()), drained: Ghost(false) }
    }

    /// Looks for the next message, and takes note of whether there was one.
    pub fn look<'a, R>(
        &mut self,
        queue: &'a thingbuf::mpsc::blocking::Receiver<ChannelInfo<S>, R>,
    ) -> (message: Option<Message<'a, S>>)
        ensures
            final(self).read() == old(self).read(),
            final(self).is_drained() == (message is None),
            match message {
                Some(message) => {
                    &&& message.number() == old(self).found()
                    &&& final(self).found() == old(self).found() + 1
                },
                None => final(self).found() == old(self).found(),
            },
    {
        match crate::connection::managed::try_recv_ref(queue) {
            Some(slot) => {
                let number: Ghost<nat> = Ghost(self.found@);
                self.found = Ghost(self.found@ + 1);
                self.drained = Ghost(false);
                Some(Message { slot, number })
            },
            None => {
                self.drained = Ghost(true);
                None
            },
        }
    }

    /// Reads a message, and takes note of it.
    pub fn open<'m, 'a>(&mut self, message: &'m Message<'a, S>) -> (contents: &'m ChannelInfo<S>)
        ensures
            final(self).read() == old(self).read().push((message.number(), *contents)),
            final(self).found() == old(self).found(),
            final(self).is_drained() == old(self).is_drained(),
    {
        let contents = crate::connection::managed::received(&message.slot);
        self.read = Ghost(self.read@.push((message.number@, *contents)));
        contents
    }
}

} // verus!
