//! Connections to input devices, and the bookkeeping of the thread that owns their streams.

use vstd::prelude::*;

use crate::connection::buffer::{SampleBuffer, SampleBufferView};
use crate::connection::channels::ChannelInfo;
use crate::connection::SampleRate;
use crate::connection::managed::inbox::Inbox;
use crate::connection::managed::mailbox::Mailbox;
use crate::ui::lce::Loadable;

mod inbox;
mod mailbox;

verus! {

/// Errors when loading devices.
#[derive(Debug)]
pub enum LoadError {
    /// Getting devices from host
    DeviceEnumeration(String),
    /// Configuring input stream for device
    StreamConfig(String),
    /// Building the input stream for a device
    StreamBuild(String),
    /// Starting a stream
    Start(String),
    /// Manager was stopped before streams could be enumerated
    ManagerStopped,
}

impl LoadError {
    /// What is shown of the error: the message of what went wrong.
    pub open spec fn message(&self) -> Seq<char> {
        match self {
            LoadError::DeviceEnumeration(message) => message@,
            LoadError::StreamConfig(message) => message@,
            LoadError::StreamBuild(message) => message@,
            LoadError::Start(message) => message@,
            LoadError::ManagerStopped => "manager stopped before streams could be loaded"@,
        }
    }

    /// The message that is shown.
    pub fn to_string(&self) -> (message: String)
        ensures
            message@ == self.message(),
    {
        match self {
            LoadError::DeviceEnumeration(message) => message.clone(),
            LoadError::StreamConfig(message) => message.clone(),
            LoadError::StreamBuild(message) => message.clone(),
            LoadError::Start(message) => message.clone(),
            LoadError::ManagerStopped => {
                "manager stopped before streams could be loaded".to_owned()
            },
        }
    }
}

/// What is known of an input device before its samples come in.
pub struct DeviceInfo {
    /// The name, where the device gives one
    pub name: Option<String>,
    /// How many channels there are
    pub channels: u16,
    /// How many samples each of them delivers in a second
    pub sample_rate: SampleRate,
}

/// A connection to an input device: its samples, channel by channel.
pub struct ManagedConnection<S> {
    id: usize,
    name: String,
    buffers: Vec<SampleBuffer<S>>,
    inbox: Inbox<S>,
}

impl<S> ManagedConnection<S> {
    /// The number of the connection.
    pub closed spec fn number(&self) -> usize {
        self.id
    }

    /// The name of the device.
    pub closed spec fn title(&self) -> Seq<char> {
        self.name@
    }

    /// The buffers of the channels.
    pub closed spec fn contents(&self) -> Seq<SampleBuffer<S>> {
        self.buffers@
    }

    /// How many messages were found in the queue so far.
    pub closed spec fn found(&self) -> nat {
        self.inbox.found()
    }

    /// The messages that were read so far, in order, each with its number: how many messages were
    /// found before it.
    pub closed spec fn heard(&self) -> Seq<(nat, ChannelInfo<S>)> {
        self.inbox.read()
    }

    /// Whether the last look for a message found nothing.
    pub closed spec fn is_drained(&self) -> bool {
        self.inbox.is_drained()
    }

    /// What every connection keeps: its buffers are in order.
    pub open spec fn wf(&self) -> bool {
        forall|c: int| 0 <= c < self.contents().len() ==> (#[trigger] self.contents()[c]).wf()
    }

    /// Whether `batches` are the messages that were found between this state and `after`: all of
    /// them, each read once, in the order in which they came.
    pub open spec fn hears(&self, batches: Seq<ChannelInfo<S>>, after: Self) -> bool {
        &&& after.found() == self.found() + batches.len()
        &&& after.heard() == self.heard() + Seq::new(
            batches.len(),
            |i: int| ((self.found() + i) as nat, batches[i]),
        )
    }

    /// Whether this is a connection to `device`, and still without samples.
    pub open spec fn is_new(&self, device: DeviceInfo) -> bool {
        &&& self.wf()
        &&& self.found() == 0
        &&& self.heard() == Seq::<(nat, ChannelInfo<S>)>::empty()
        &&& self.title() == (match device.name {
            Some(name) => name@,
            None => "<unknown>"@,
        })
        &&& self.contents().len() == device.channels
        &&& forall|c: int|
            0 <= c < device.channels ==> (#[trigger] self.contents()[c])@ == (SampleBufferView::<
                S,
            > {
                back: Seq::empty(),
                pending: Seq::empty(),
                sample_rate: device.sample_rate.0,
                absolute_sample: 0,
            })
    }

    /// Whether `after` has the channels of this connection, and each of them has taken in its
    /// samples of `batches`.
    pub open spec fn takes_in(&self, batches: Seq<ChannelInfo<S>>, after: Self) -> bool where
        S: Clone,
     {
        &&& after.contents().len() == self.contents().len()
        &&& forall|b: int|
            0 <= b < batches.len() ==> (#[trigger] batches[b]).channels@.len()
                == self.contents().len()
        &&& forall|c: int|
            0 <= c < self.contents().len() ==> (#[trigger] self.contents()[c])@.ingests(
                channel_of(batches, c),
                after.contents()[c]@,
            )
    }

    /// A connection without samples, for the channels of a device.
    pub fn new(id: usize, device: DeviceInfo) -> (connection: Self)
        ensures
            connection.number() == id,
            connection.is_new(device),
    {
        let name = match device.name {
            Some(name) => name,
            None => "<unknown>".to_owned(),
        };
        let mut buffers: Vec<SampleBuffer<S>> = Vec::new();
        while buffers.len() < device.channels as usize
            invariant
                buffers@.len() <= device.channels,
                forall|c: int|
                    0 <= c < buffers@.len() ==> {
                        &&& (#[trigger] buffers@[c]).wf()
                        &&& buffers@[c]@ == (SampleBufferView::<S> {
                            back: Seq::empty(),
                            pending: Seq::empty(),
                            sample_rate: device.sample_rate.0,
                            absolute_sample: 0,
                        })
                    },
            decreases device.channels - buffers@.len(),
        {
            buffers.push(SampleBuffer::new(device.sample_rate));
        }
        ManagedConnection { id, name, buffers, inbox: Inbox::new() }
    }

    /// The number of the connection.
    pub fn id(&self) -> (id: usize)
        ensures
            id == self.number(),
    {
        self.id
    }

    /// The name of the device.
    pub fn name(&self) -> (name: &str)
        ensures
            name@ == self.title(),
    {
        self.name.as_str()
    }

    /// How many channels there are.
    pub fn channels(&self) -> (count: usize)
        ensures
            count == self.contents().len(),
    {
        self.buffers.len()
    }

    /// The buffers of the channels.
    pub fn buffers(&mut self) -> (buffers: &mut [SampleBuffer<S>])
        ensures
            buffers@ == old(self).contents(),
            final(buffers)@ == final(self).contents(),
            final(self).number() == old(self).number(),
            final(self).title() == old(self).title(),
            final(self).found() == old(self).found(),
            final(self).heard() == old(self).heard(),
            final(self).is_drained() == old(self).is_drained(),
    {
        self.buffers.as_mut_slice()
    }

    /// Takes in a batch that has the channels of the device.
    fn process_batch(&mut self, data: &ChannelInfo<S>) where S: Clone
        requires
            old(self).wf(),
            data.channels@.len() == old(self).contents().len(),
        ensures
            final(self).wf(),
            final(self).number() == old(self).number(),
            final(self).title() == old(self).title(),
            final(self).inbox == old(self).inbox,
            final(self).contents().len() == old(self).contents().len(),
            forall|c: int|
                0 <= c < old(self).contents().len() ==> (#[trigger] old(
                    self,
                ).contents()[c])@.ingests(data.channels@[c]@, final(self).contents()[c]@),
    {
        let mut idx: usize = 0;
        while idx < self.buffers.len()
            invariant
                idx <= self.buffers@.len(),
                self.buffers@.len() == old(self).buffers@.len(),
                self.buffers@.len() == data.channels@.len(),
                self.id == old(self).id,
                self.name == old(self).name,
                self.inbox == old(self).inbox,
                forall|c: int| 0 <= c < self.buffers@.len() ==> (#[trigger] self.buffers@[c]).wf(),
                forall|c: int|
                    0 <= c < idx ==> (#[trigger] old(self).buffers@[c])@.ingests(
                        data.channels@[c]@,
                        self.buffers@[c]@,
                    ),
                forall|c: int|
                    idx <= c < self.buffers@.len() ==> (#[trigger] self.buffers@[c]) == old(
                        self,
                    ).buffers@[c],
            decreases self.buffers@.len() - idx,
        {
            self.buffers[idx].ingest(data.channels[idx].as_slice());
            idx += 1;
        }
    }

    /// Takes in what was received: whether there was a batch. A batch that does not have the
    /// channels of the device is refused.
    pub fn take_in(&mut self, received: Option<&ChannelInfo<S>>) -> (result: Result<
        bool,
        ChannelMismatch,
    >) where S: Clone
        requires
            old(self).wf(),
        ensures
            final(self).wf(),
            final(self).number() == old(self).number(),
            final(self).title() == old(self).title(),
            final(self).found() == old(self).found(),
            final(self).heard() == old(self).heard(),
            final(self).is_drained() == old(self).is_drained(),
            match received {
                None => {
                    &&& result == Ok::<bool, ChannelMismatch>(false)
                    &&& *final(self) == *old(self)
                },
                Some(batch) => if batch.channels@.len() == old(self).contents().len() {
                    &&& result == Ok::<bool, ChannelMismatch>(true)
                    &&& final(self).contents().len() == old(self).contents().len()
                    &&& forall|c: int|
                        0 <= c < old(self).contents().len() ==> (#[trigger] old(
                            self,
                        ).contents()[c])@.ingests(
                            batch.channels@[c]@,
                            final(self).contents()[c]@,
                        )
                } else {
                    &&& *final(self) == *old(self)
                    &&& result matches Err(mismatch)
                    &&& mismatch.expected == old(self).contents().len()
                    &&& mismatch.found == batch.channels@.len()
                },
            },
    {
        match received {
            Some(batch) => {
                if batch.channels.len() != self.buffers.len() {
                    return Err(
                        ChannelMismatch {
                            expected: self.buffers.len(),
                            found: batch.channels.len(),
                        },
                    );
                }
                self.process_batch(batch);
                Ok(true)
            },
            None => Ok(false),
        }
    }

    /// Takes in the batches that have arrived, one after the other, until there is none left. It
    /// ends early with a batch that does not have the channels of the device. What becomes of each
    /// of them is up to [`ManagedConnection::take_in`].
    pub fn process<R>(
        &mut self,
        ingest: &thingbuf::mpsc::blocking::Receiver<ChannelInfo<S>, R>,
    ) -> (result: Result<(), ChannelMismatch>) where S: Clone
        requires
            old(self).wf(),
        ensures
            final(self).wf(),
            final(self).number() == old(self).number(),
            final(self).title() == old(self).title(),
            exists|batches: Seq<ChannelInfo<S>>| #[trigger]
                old(self).takes_in(batches, *final(self)),
            result matches Err(mismatch) ==> {
                &&& mismatch.expected == old(self).contents().len()
                &&& mismatch.found != mismatch.expected
            },
            match result {
                Ok(()) => exists|batches: Seq<ChannelInfo<S>>|
                    {
                        &&& #[trigger] old(self).hears(batches, *final(self))
                        &&& old(self).takes_in(batches, *final(self))
                        &&& final(self).is_drained() || batches.len() == usize::MAX
                    },
                Err(mismatch) => exists|batches: Seq<ChannelInfo<S>>|
                    {
                        &&& #[trigger] old(self).hears(batches, *final(self))
                        &&& batches.len() > 0
                        &&& batches.last().channels@.len() == mismatch.found
                        &&& old(self).takes_in(batches.drop_last(), *final(self))
                    },
            },
    {
        let ghost mut batches: Seq<ChannelInfo<S>> = Seq::empty();
        let mut count: usize = 0;
        proof {
            assert forall|c: int| 0 <= c < self.contents().len() implies (
            #[trigger] self.contents()[c])@.ingests(channel_of(batches, c), self.contents()[c]@) by {
                self.contents()[c]@.lemma_ingests_none();
            }
            assert(self.hears(batches, *self));
        }
        while count < usize::MAX
            invariant
                self.wf(),
                self.number() == old(self).number(),
                self.title() == old(self).title(),
                old(self).takes_in(batches, *self),
                old(self).hears(batches, *self),
                batches.len() == count,
            decreases usize::MAX - count,
        {
            let message = self.inbox.look(ingest);
            let received = match &message {
                Some(message) => Some(self.inbox.open(message)),
                None => None,
            };
            let ghost before = *self;
            let outcome = self.take_in(received);
            let ghost batch = *received->Some_0;
            let ghost more = batches.push(batch);
            proof {
                if received is Some {
                    assert(more.drop_last() =~= batches);
                    assert(self.heard() =~= old(self).heard() + Seq::new(
                        more.len(),
                        |i: int| ((old(self).found() + i) as nat, more[i]),
                    ));
                    assert(old(self).hears(more, *self));
                } else {
                    assert(old(self).hears(batches, *self));
                }
                if outcome != Ok::<bool, ChannelMismatch>(true) {
                    assert(old(self).takes_in(batches, *self));
                }
            }
            match outcome {
                Ok(true) => {},
                Ok(false) => {
                    return Ok(());
                },
                Err(mismatch) => {
                    return Err(mismatch);
                },
            }
            proof {
                assert forall|c: int| 0 <= c < old(self).contents().len() implies (#[trigger] old(
                    self,
                ).contents()[c])@.ingests(channel_of(more, c), self.contents()[c]@) by {
                    assert(before.contents()[c]@.ingests(
                        batch.channels@[c]@,
                        self.contents()[c]@,
                    ));
                    old(self).contents()[c]@.lemma_ingests_more(
                        channel_of(batches, c),
                        before.contents()[c]@,
                        batch.channels@[c]@,
                        self.contents()[c]@,
                    );
                }
                batches = more;
            }
            count += 1;
        }
        Ok(())
    }
}

/// A batch that does not have the channels of the device.
#[derive(Debug, Clone, Copy, PartialEq, Eq, Structural)]
pub struct ChannelMismatch {
    /// How many channels the device has
    pub expected: usize,
    /// How many channels the batch has
    pub found: usize,
}

/// The samples that `batches` hold for one channel, in order.
pub open spec fn channel_of<S>(batches: Seq<ChannelInfo<S>>, channel: int) -> Seq<S>
    decreases batches.len(),
{
    if batches.len() == 0 {
        Seq::empty()
    } else {
        channel_of(batches.drop_last(), channel) + batches.last().channels@[channel]@
    }
}

/// The receiving half of a channel whose messages stay in their slots.
#[verifier::external_type_specification]
#[verifier::external_body]
#[verifier::reject_recursive_types(T)]
#[verifier::reject_recursive_types(R)]
pub struct ExBatchReceiver<T, R>(thingbuf::mpsc::blocking::Receiver<T, R>);

/// A message in its slot. The slot is free again once this is dropped.
#[verifier::external_type_specification]
#[verifier::external_body]
#[verifier::reject_recursive_types(T)]
pub struct ExRecvRef<'a, T>(thingbuf::mpsc::blocking::RecvRef<'a, T>);

/// Calls [`thingbuf::mpsc::blocking::Receiver::try_recv_ref`], which looks for the next message
/// without waiting. Whether there is one is up to the thread at the other end, so nothing is
/// claimed of the result: `None` stands for either error, that there is none yet or that none will
/// ever come.
#[verifier::external_body]
fn try_recv_ref<'a, T, R>(receiver: &'a thingbuf::mpsc::blocking::Receiver<T, R>) -> (message:
    Option<thingbuf::mpsc::blocking::RecvRef<'a, T>>) {
    receiver.try_recv_ref().ok()
}

/// Calls the `deref` of [`thingbuf::mpsc::blocking::RecvRef`], which gives access to the message
/// in the slot. What the message holds is up to the sender, so nothing is claimed of it.
#[verifier::external_body]
fn received<'a, T>(message: &'a thingbuf::mpsc::blocking::RecvRef<'_, T>) -> (contents: &'a T) {
    &**message
}

/// The receiving half of a channel that carries one message.
#[verifier::external_type_specification]
#[verifier::external_body]
#[verifier::reject_recursive_types(T)]
pub struct ExReceiver<T>(oneshot::Receiver<T>);

/// The error that a receiver, used as a future, ends with when there is no message to come.
#[verifier::external_type_specification]
#[verifier::external_body]
pub struct ExRecvError(oneshot::RecvError);

/// What a look for a message finds.
pub enum Received<T> {
    /// The message
    Message(T),
    /// No message yet
    NotYet,
    /// No message, and none will ever come
    Never,
}

/// Calls [`oneshot::Receiver::try_recv`], which looks for the message without waiting. Whether it
/// is there, is still to come or will never come is up to the thread at the other end, so nothing
/// is claimed of the result.
#[verifier::external_body]
fn try_recv<T>(receiver: &oneshot::Receiver<T>) -> (received: Received<T>) {
    match receiver.try_recv() {
        Ok(message) => Received::Message(message),
        Err(oneshot::TryRecvError::Empty) => Received::NotYet,
        Err(oneshot::TryRecvError::Disconnected) => Received::Never,
    }
}

/// Devices that were asked for: the answer comes from another thread, at some time.
#[verifier::reject_recursive_types(C)]
pub struct LoadingDevices<C> {
    delegate: Option<oneshot::Receiver<Result<C, LoadError>>>,
    data: Option<Result<C, LoadError>>,
    mailbox: Mailbox<Result<C, LoadError>>,
}

/// The answer that a look for a message leads to: one from a manager that ended without an answer
/// is that it was stopped.
pub open spec fn answer_to<C>(received: Received<Result<C, LoadError>>) -> Option<
    Result<C, LoadError>,
> {
    match received {
        Received::Message(answer) => Some(answer),
        Received::NotYet => None,
        Received::Never => Some(Err(LoadError::ManagerStopped)),
    }
}

impl<C> LoadingDevices<C> {
    #[verifier::type_invariant]
    spec fn waits_or_knows(self) -> bool {
        self.data is Some ==> self.delegate is None
    }

    /// Whether the answer is still to come.
    pub closed spec fn awaits(&self) -> bool {
        self.delegate is Some
    }

    /// The answer, once it has come, until it is taken.
    pub closed spec fn answer(&self) -> Option<Result<C, LoadError>> {
        self.data
    }

    /// What the other thread was found to have sent, once it was found.
    pub closed spec fn found(&self) -> Option<Received<Result<C, LoadError>>> {
        self.mailbox.found()
    }

    /// Whether `after` is what a look for the answer leaves, where `received` is what there is to
    /// be found: nothing changes where the answer is there already, where none is expected, or
    /// where it has not arrived; one that has ends the waiting.
    pub open spec fn finds(&self, received: Received<Result<C, LoadError>>, after: Self) -> bool {
        if self.answer() is None && self.awaits() && received !is NotYet {
            &&& after.answer() == answer_to(received)
            &&& !after.awaits()
        } else {
            after == *self
        }
    }

    /// Whether `after` is what a look for the answer leaves, whatever there is to be found.
    pub open spec fn looks(&self, after: Self) -> bool {
        exists|received: Received<Result<C, LoadError>>| #[trigger] self.finds(received, after)
    }

    /// Whether `after` is what is left when `result`, which is there, is taken: nothing more is
    /// expected.
    pub open spec fn gives(&self, result: Result<C, LoadError>, after: Self) -> bool {
        &&& self.answer() == Some(result)
        &&& after.answer() is None
        &&& !after.awaits()
    }

    /// Waits for the answer to a request that was sent. One that could not be sent is answered at
    /// once: the manager is gone.
    pub fn requested(sent: bool, receiver: oneshot::Receiver<Result<C, LoadError>>) -> (loading:
        Self)
        ensures
            loading.awaits() == sent,
            loading.found() is None,
            loading.answer() == (if sent {
                None
            } else {
                Some(Err::<C, LoadError>(LoadError::ManagerStopped))
            }),
    {
        if sent {
            LoadingDevices { delegate: Some(receiver), data: None, mailbox: Mailbox::new() }
        } else {
            LoadingDevices {
                delegate: None,
                data: Some(Err(LoadError::ManagerStopped)),
                mailbox: Mailbox::new(),
            }
        }
    }

    /// Takes note of what was received. Once there is an answer, nothing more is expected; where
    /// none will ever come, the manager was stopped.
    pub fn settle(&mut self, received: Received<Result<C, LoadError>>) -> (there: bool)
        requires
            old(self).awaits(),
            old(self).answer() is None,
        ensures
            there == (received !is NotYet),
            final(self).found() == old(self).found(),
            old(self).finds(received, *final(self)),
            match received {
                Received::Message(answer) => {
                    &&& final(self).answer() == Some(answer)
                    &&& !final(self).awaits()
                },
                Received::NotYet => *final(self) == *old(self),
                Received::Never => {
                    &&& final(self).answer() == Some(
                        Err::<C, LoadError>(LoadError::ManagerStopped),
                    )
                    &&& !final(self).awaits()
                },
            },
    {
        match received {
            Received::Message(data) => {
                self.delegate = None;
                self.data = Some(data);
                true
            },
            Received::NotYet => false,
            Received::Never => {
                self.delegate = None;
                self.data = Some(Err(LoadError::ManagerStopped));
                true
            },
        }
    }

    /// Looks for the answer, unless it is there already or none is expected.
    fn try_recv(&mut self) -> (there: bool)
        ensures
            there == (final(self).answer() is Some),
            old(self).looks(*final(self)),
            there ==> !final(self).awaits(),
            there && old(self).answer() is None ==> {
                &&& final(self).found() matches Some(received)
                &&& final(self).answer() == answer_to(received)
            },
    {
        proof {
            use_type_invariant(&*self);
            assert(self.finds(Received::NotYet, *self));
        }
        if self.data.is_some() {
            return true;
        }
        match &self.delegate {
            Some(delegate) => {
                let mut mailbox: Mailbox<Result<C, LoadError>> = Mailbox::new();
                std::mem::swap(&mut mailbox, &mut self.mailbox);
                let received = mailbox.look(delegate);
                self.mailbox = mailbox;
                let ghost found = received;
                let there: bool = self.settle(received);
                assert(old(self).finds(found, *self));
                there
            },
            None => false,
        }
    }

    /// Whether the answer is there. One that is there stays until it is taken; where none is
    /// expected, none comes.
    pub fn ready(&mut self) -> (there: bool)
        ensures
            there == (final(self).answer() is Some),
            old(self).looks(*final(self)),
            there ==> !final(self).awaits(),
            there && old(self).answer() is None ==> {
                &&& final(self).found() matches Some(received)
                &&& final(self).answer() == answer_to(received)
            },
    {
        proof {
            use_type_invariant(&*self);
            assert(self.finds(Received::NotYet, *self));
        }
        self.data.is_some() || self.try_recv()
    }

    /// The answer, which is there.
    pub fn get(self) -> (result: Result<C, LoadError>)
        requires
            self.answer() is Some,
        ensures
            self.answer() == Some(result),
    {
        let mut this = self;
        this.take()
    }

    /// Takes the answer, which is there.
    pub fn take(&mut self) -> (result: Result<C, LoadError>)
        requires
            old(self).answer() is Some,
        ensures
            old(self).gives(result, *final(self)),
            final(self).found() == old(self).found(),
    {
        let there: bool = self.try_recv();
        let mut taken: LoadingDevices<C> = LoadingDevices {
            delegate: None,
            data: None,
            mailbox: Mailbox::new(),
        };
        std::mem::swap(self, &mut taken);
        self.mailbox = taken.mailbox;
        taken.data.unwrap()
    }

    /// Whether an attempt to take the answer ends with `result` and leaves `after`, where `received`
    /// is what there is to be found: it is looked for first, and taken if it is there.
    pub open spec fn tries(
        &self,
        received: Received<Result<C, LoadError>>,
        result: Option<Result<C, LoadError>>,
        after: Self,
    ) -> bool {
        exists|looked: Self|
            {
                &&& #[trigger] self.finds(received, looked)
                &&& result == looked.answer()
                &&& match result {
                    Some(answer) => looked.gives(answer, after),
                    None => after == looked,
                }
            }
    }

    /// Takes the answer if it is there.
    pub fn try_take(&mut self) -> (result: Option<Result<C, LoadError>>)
        ensures
            exists|received: Received<Result<C, LoadError>>| #[trigger]
                old(self).tries(received, result, *final(self)),
            old(self).answer() is Some ==> result == old(self).answer(),
            old(self).answer() is None && !old(self).awaits() ==> result is None,
            final(self).answer() is None,
            result is None ==> *final(self) == *old(self),
            result is Some ==> !final(self).awaits(),
            result is Some && old(self).answer() is None ==> {
                &&& final(self).found() matches Some(received)
                &&& result == answer_to(received)
            },
    {
        let there: bool = self.ready();
        let ghost looked = *self;
        let ghost received = choose|received: Received<Result<C, LoadError>>| #[trigger]
            old(self).finds(received, looked);
        let result = if there {
            Some(self.take())
        } else {
            None
        };
        assert(old(self).tries(received, result, *self));
        result
    }
}

/// An answer that is there stays there, however often it is looked for, and comes out unchanged.
/// Once it is taken there is none any more, however often it is looked for.
pub proof fn law_answer_is_taken_once<C>(
    looked: Seq<LoadingDevices<C>>,
    result: Result<C, LoadError>,
    later: Seq<LoadingDevices<C>>,
)
    requires
        looked.len() > 0,
        later.len() > 0,
        looked[0].answer() is Some,
        forall|i: int, j: int|
            0 <= i && j == i + 1 && j < looked.len() ==> (#[trigger] looked[i]).looks(
                #[trigger] looked[j],
            ),
        looked.last().gives(result, later[0]),
        forall|i: int, j: int|
            0 <= i && j == i + 1 && j < later.len() ==> (#[trigger] later[i]).looks(
                #[trigger] later[j],
            ),
    ensures
        looked[0].answer() == Some(result),
        forall|i: int| 0 <= i < looked.len() ==> (#[trigger] looked[i]).answer() == Some(result),
        forall|i: int|
            0 <= i < later.len() ==> (#[trigger] later[i]).answer() is None && !later[i].awaits(),
{
    lemma_looks_change_nothing(looked);
    lemma_looks_change_nothing(later);
}

/// Looking again changes nothing where the answer is there or none is expected.
proof fn lemma_looks_change_nothing<C>(states: Seq<LoadingDevices<C>>)
    requires
        states.len() > 0,
        states[0].answer() is Some || !states[0].awaits(),
        forall|i: int, j: int|
            0 <= i && j == i + 1 && j < states.len() ==> (#[trigger] states[i]).looks(
                #[trigger] states[j],
            ),
    ensures
        forall|i: int| 0 <= i < states.len() ==> #[trigger] states[i] == states[0],
    decreases states.len(),
{
    if states.len() > 1 {
        let rest = states.drop_last();
        let k = rest.len() as int;
        assert forall|i: int, j: int| 0 <= i && j == i + 1 && j < rest.len() implies (
        #[trigger] rest[i]).looks(#[trigger] rest[j]) by {
            assert(states[i].looks(states[j]));
        }
        lemma_looks_change_nothing(rest);
        assert(rest[k - 1] == states[k - 1]);
        assert(states[k - 1].looks(states[k]));
        assert forall|i: int| 0 <= i < states.len() implies #[trigger] states[i] == states[0] by {
            if i < k {
                assert(rest[i] == states[i]);
            }
        }
    }
}

/// A reply that has arrived comes out unchanged, whether or not it was looked for before it is
/// taken.
pub proof fn law_reply_comes_out_unchanged<C>(
    loading: LoadingDevices<C>,
    reply: Result<C, LoadError>,
    looked: LoadingDevices<C>,
    result: Result<C, LoadError>,
    taken: LoadingDevices<C>,
    tried: Option<Result<C, LoadError>>,
    after: LoadingDevices<C>,
)
    requires
        loading.awaits() && loading.answer() is None,
        loading.finds(Received::Message(reply), looked),
        looked.gives(result, taken),
        loading.tries(Received::Message(reply), tried, after),
    ensures
        result == reply,
        tried == Some(reply),
        taken.answer() is None && !taken.awaits(),
        after.answer() is None && !after.awaits(),
{
}

impl<C> Loadable<C, LoadError> for LoadingDevices<C> {
    open spec fn valid(&self) -> bool {
        true
    }

    open spec fn is_ready(&self) -> bool {
        self.answer() is Some
    }

    open spec fn yields(&self, result: Result<C, LoadError>) -> bool {
        match self.answer() {
            Some(answer) => result == answer,
            None => self.awaits(),
        }
    }

    fn ready(&mut self) -> (there: bool) {
        LoadingDevices::ready(self)
    }

    fn take(&mut self) -> (result: Result<C, LoadError>) {
        LoadingDevices::take(self)
    }
}

/// What the manager holds of a connection: the device and its stream, whatever stands for them.
pub struct ConnectionDelegate<D> {
    /// The number of the connection
    pub id: usize,
    /// The device and its stream
    pub device: D,
}

/// Whether one of the delegates is for the connection `id`.
pub open spec fn has_id<D>(open: Seq<ConnectionDelegate<D>>, id: usize) -> bool {
    exists|i: int| 0 <= i < open.len() && (#[trigger] open[i]).id == id
}

/// Where the first delegate for the connection `id` stands.
pub open spec fn position<D>(open: Seq<ConnectionDelegate<D>>, id: usize) -> int {
    choose|i: int|
        {
            &&& 0 <= i < open.len()
            &&& (#[trigger] open[i]).id == id
            &&& forall|j: int| 0 <= j < i ==> (#[trigger] open[j]).id != id
        }
}

/// What is left of the delegates when the one for the connection `id` goes: the last one takes its
/// place.
pub open spec fn without<D>(
    open: Seq<ConnectionDelegate<D>>,
    id: usize,
) -> Seq<ConnectionDelegate<D>> {
    if has_id(open, id) {
        open.update(position(open, id), open.last()).drop_last()
    } else {
        open
    }
}

/// What is left of the delegates when those for the connections `ids` go, one after the other.
pub open spec fn without_all<D>(
    open: Seq<ConnectionDelegate<D>>,
    ids: Seq<usize>,
) -> Seq<ConnectionDelegate<D>>
    decreases ids.len(),
{
    if ids.len() == 0 {
        open
    } else {
        without(without_all(open, ids.drop_last()), ids.last())
    }
}

/// The delegates that go, in the order of `ids`.
pub open spec fn picked<D>(
    open: Seq<ConnectionDelegate<D>>,
    ids: Seq<usize>,
) -> Seq<ConnectionDelegate<D>>
    decreases ids.len(),
{
    if ids.len() == 0 {
        Seq::empty()
    } else {
        let left = without_all(open, ids.drop_last());
        if has_id(left, ids.last()) {
            picked(open, ids.drop_last()).push(left[position(left, ids.last())])
        } else {
            picked(open, ids.drop_last())
        }
    }
}

/// The numbers of the delegates, in order.
pub open spec fn ids_of<D>(open: Seq<ConnectionDelegate<D>>) -> Seq<usize> {
    Seq::new(open.len(), |i: int| open[i].id)
}

/// Whether no two delegates have the same number, and none has one that is still to be given out.
pub open spec fn numbered<D>(open: Seq<ConnectionDelegate<D>>, next_id: usize) -> bool {
    &&& forall|i: int, j: int|
        0 <= i < j < open.len() ==> (#[trigger] open[i]).id != (#[trigger] open[j]).id
    &&& forall|i: int| 0 <= i < open.len() ==> (#[trigger] open[i]).id < next_id
}

/// Whether `built` are the first of `devices`, each of them built and started.
pub open spec fn are_started<Dev, D, B, P>(
    devices: Seq<Dev>,
    built: Seq<(DeviceInfo, D)>,
    build: B,
    play: P,
) -> bool where
    B: FnMut(Dev) -> Result<(DeviceInfo, D), LoadError>,
    P: FnMut(&D) -> Result<(), LoadError>,
 {
    &&& built.len() <= devices.len()
    &&& forall|i: int|
        0 <= i < built.len() ==> {
            &&& call_ensures(build, (devices[i],), Ok(#[trigger] built[i]))
            &&& starts(built[i].1, play)
        }
}

/// Whether the stream of `device` can be started.
pub open spec fn starts<D, P>(device: D, play: P) -> bool where
    P: FnMut(&D) -> Result<(), LoadError>,
 {
    exists|outcome: Result<(), LoadError>| #[trigger]
        call_ensures(play, (&device,), outcome) && outcome is Ok
}

/// Whether `device` can be built but, with this error, not started.
pub open spec fn fails_to_start<Dev, D, B, P>(
    device: Dev,
    build: B,
    play: P,
    error: LoadError,
) -> bool where
    B: FnMut(Dev) -> Result<(DeviceInfo, D), LoadError>,
    P: FnMut(&D) -> Result<(), LoadError>,
 {
    exists|stream: (DeviceInfo, D)|
        {
            &&& #[trigger] call_ensures(build, (device,), Ok(stream))
            &&& call_ensures(play, (&stream.1,), Err(error))
        }
}

/// The delegates of streams that were built one after the other, numbered from `first` on.
pub open spec fn delegates_of<D>(
    built: Seq<(DeviceInfo, D)>,
    first: usize,
) -> Seq<ConnectionDelegate<D>> {
    Seq::new(
        built.len(),
        |i: int| ConnectionDelegate { id: (first + i) as usize, device: built[i].1 },
    )
}

/// Whether `connections` are those of streams that were built one after the other, numbered from
/// `first` on, and still without samples.
pub open spec fn are_connections<S, D>(
    connections: Seq<ManagedConnection<S>>,
    built: Seq<(DeviceInfo, D)>,
    first: usize,
) -> bool {
    &&& connections.len() == built.len()
    &&& forall|i: int|
        0 <= i < built.len() ==> {
            &&& (#[trigger] connections[i]).number() == first + i
            &&& connections[i].is_new(built[i].0)
        }
}

/// The bookkeeping of the thread that owns the streams.
pub struct ManagerData<D> {
    delegates: Vec<ConnectionDelegate<D>>,
    next_id: usize,
}

impl<D> ManagerData<D> {
    /// The delegates of the connections that are open.
    pub closed spec fn open(&self) -> Seq<ConnectionDelegate<D>> {
        self.delegates@
    }

    /// The number of the next connection.
    pub closed spec fn upcoming(&self) -> usize {
        self.next_id
    }

    /// What the bookkeeping keeps: the numbers of the connections are all different.
    pub open spec fn wf(&self) -> bool {
        numbered(self.open(), self.upcoming())
    }

    /// No connection is open, and none was.
    pub fn new() -> (data: Self)
        ensures
            data.wf(),
            data.open().len() == 0,
            data.upcoming() == 0,
    {
        ManagerData { delegates: Vec::new(), next_id: 0 }
    }

    /// The number that is given out next.
    pub fn next_id(&self) -> (id: usize)
        ensures
            id == self.upcoming(),
    {
        self.next_id
    }

    /// Gives out a number that was not given out before.
    pub fn mint_id(&mut self) -> (id: usize)
        requires
            old(self).upcoming() < usize::MAX,
        ensures
            id == old(self).upcoming(),
            final(self).upcoming() == old(self).upcoming() + 1,
            final(self).open() == old(self).open(),
            old(self).wf() ==> final(self).wf() && !has_id(old(self).open(), id),
    {
        let out: usize = self.next_id;
        self.next_id += 1;
        out
    }

    /// Numbers a device whose stream was built: its connection, and the delegate that the manager
    /// is to hold while the stream runs.
    pub fn build_split_connection<S>(&mut self, info: DeviceInfo, device: D) -> (split: (
        ManagedConnection<S>,
        ConnectionDelegate<D>,
    ))
        requires
            old(self).upcoming() < usize::MAX,
        ensures
            final(self).upcoming() == old(self).upcoming() + 1,
            final(self).open() == old(self).open(),
            old(self).wf() ==> final(self).wf(),
            split.0.number() == old(self).upcoming(),
            split.0.is_new(info),
            split.1.id == old(self).upcoming(),
            split.1.device == device,
    {
        let id: usize = self.mint_id();
        (ManagedConnection::new(id, info), ConnectionDelegate { id, device })
    }

    /// Opens the streams of the listed devices: `build` builds the stream of a device, and `play`
    /// starts it. The connections are handed out in the order of the devices. The first failure
    /// ends it; the streams that were started before stay open.
    pub fn handle_load_streams<S, Dev, B, P>(
        &mut self,
        devices: Result<Vec<Dev>, LoadError>,
        build: B,
        play: P,
    ) -> (result: Result<Vec<ManagedConnection<S>>, LoadError>) where
        B: FnMut(Dev) -> Result<(DeviceInfo, D), LoadError>,
        P: FnMut(&D) -> Result<(), LoadError>,

        requires
            old(self).wf(),
            devices matches Ok(list) ==> old(self).upcoming() + list@.len() <= usize::MAX,
            forall|device: Dev| #[trigger] call_requires(build, (device,)),
            forall|device: &D| #[trigger] call_requires(play, (device,)),
        ensures
            final(self).wf(),
            match devices {
                Err(error) => {
                    &&& result == Err::<Vec<ManagedConnection<S>>, LoadError>(error)
                    &&& *final(self) == *old(self)
                },
                Ok(list) => exists|built: Seq<(DeviceInfo, D)>|
                    {
                        let first = old(self).upcoming();
                        let count = built.len() as int;
                        &&& #[trigger] are_started(list@, built, build, play)
                        &&& final(self).open() == old(self).open() + delegates_of(built, first)
                        &&& match result {
                            Ok(connections) => {
                                &&& count == list@.len()
                                &&& final(self).upcoming() == first + count
                                &&& are_connections(connections@, built, first)
                            },
                            Err(error) => {
                                &&& count < list@.len()
                                &&& if final(self).upcoming() == first + count {
                                    call_ensures(build, (list@[count],), Err(error))
                                } else {
                                    &&& final(self).upcoming() == first + count + 1
                                    &&& fails_to_start(list@[count], build, play, error)
                                }
                            },
                        }
                    },
            },
    {
        let mut open = build;
        let mut start = play;
        let list = match devices {
            Ok(list) => list,
            Err(error) => {
                return Err(error);
            },
        };
        let ghost all = list@;
        let ghost first = self.upcoming();
        let ghost before = self.open();
        let ghost mut built: Seq<(DeviceInfo, D)> = Seq::empty();
        let mut out: Vec<ManagedConnection<S>> = Vec::new();
        assert(before + delegates_of(built, first) =~= before);
        for device in it: list
            invariant
                it.seq() == all,
                built.len() == it.index(),
                first + all.len() <= usize::MAX,
                self.wf(),
                self.upcoming() == first + built.len(),
                self.open() == before + delegates_of(built, first),
                devices matches Ok(list) && list@ == all,
                before == old(self).open(),
                first == old(self).upcoming(),
                are_started(all, built, build, play),
                are_connections(out@, built, first),
                open == build,
                start == play,
                forall|device: Dev| #[trigger] call_requires(build, (device,)),
                forall|device: &D| #[trigger] call_requires(play, (device,)),
        {
            let (info, handle) = match open(device) {
                Ok(stream) => stream,
                Err(error) => {
                    return Err(error);
                },
            };
            let ghost stream = (info, handle);
            let (connection, delegate) = self.build_split_connection(info, handle);
            let started = start(&delegate.device);
            if let Err(error) = started {
                assert(fails_to_start(all[built.len() as int], build, play, error));
                return Err(error);
            }
            assert(starts(delegate.device, play));
            out.push(connection);
            self.delegates.push(delegate);
            proof {
                assert(call_ensures(build, (all[built.len() as int],), Ok(stream)));
                built = built.push(stream);
                assert(self.open() =~= before + delegates_of(built, first));
            }
        }
        Ok(out)
    }

    /// Gives up the delegate for the connection `id`, if there is one.
    pub fn remove_delegate_id(&mut self, id: usize) -> (removed: Option<ConnectionDelegate<D>>)
        ensures
            final(self).open() == without(old(self).open(), id),
            final(self).upcoming() == old(self).upcoming(),
            old(self).wf() ==> final(self).wf(),
            removed == (if has_id(old(self).open(), id) {
                Some(old(self).open()[position(old(self).open(), id)])
            } else {
                None
            }),
    {
        let mut index: usize = 0;
        while index < self.delegates.len()
            invariant
                index <= self.delegates@.len(),
                *self == *old(self),
                forall|j: int| 0 <= j < index ==> (#[trigger] self.delegates@[j]).id != id,
            decreases self.delegates@.len() - index,
        {
            if self.delegates[index].id == id {
                proof {
                    let at = position(self.delegates@, id);
                    assert(self.delegates@[index as int].id == id);
                    assert(has_id(self.delegates@, id));
                    assert(at == index);
                    if self.wf() {
                        lemma_without(self.delegates@, id, self.next_id);
                    }
                }
                return Some(self.delegates.swap_remove(index));
            }
            index += 1;
        }
        None
    }

    /// Gives up the delegates for the connections `ids`, as far as there are any.
    pub fn handle_drop_multiple(&mut self, ids: &[usize]) -> (dropped: Vec<ConnectionDelegate<D>>)
        ensures
            final(self).open() == without_all(old(self).open(), ids@),
            final(self).upcoming() == old(self).upcoming(),
            old(self).wf() ==> final(self).wf(),
            dropped@ == picked(old(self).open(), ids@),
    {
        let mut to_drop: Vec<ConnectionDelegate<D>> = Vec::with_capacity(ids.len());
        let mut idx: usize = 0;
        while idx < ids.len()
            invariant
                idx <= ids@.len(),
                self.open() == without_all(old(self).open(), ids@.take(idx as int)),
                self.upcoming() == old(self).upcoming(),
                old(self).wf() ==> self.wf(),
                to_drop@ == picked(old(self).open(), ids@.take(idx as int)),
            decreases ids@.len() - idx,
        {
            proof {
                assert(ids@.take(idx + 1).drop_last() =~= ids@.take(idx as int));
            }
            if let Some(delegate) = self.remove_delegate_id(ids[idx]) {
                to_drop.push(delegate);
            }
            idx += 1;
        }
        assert(ids@.take(ids@.len() as int) =~= ids@);
        to_drop
    }

    /// What is to be done about an event.
    pub fn handle_event(&mut self, event: ManagerEvent) -> (action: ManagerAction<D>)
        requires
            old(self).wf(),
        ensures
            final(self).wf(),
            final(self).upcoming() == old(self).upcoming(),
            action.notify == (event is Delivered),
            action.exit == (event is Disconnected),
            match event {
                ManagerEvent::Delivered => {
                    &&& final(self).open() == old(self).open()
                    &&& action.stop@.len() == 0
                },
                ManagerEvent::Undelivered(Ok(ids)) => {
                    &&& final(self).open() == without_all(old(self).open(), ids@)
                    &&& action.stop@ == picked(old(self).open(), ids@)
                },
                ManagerEvent::Undelivered(Err(_)) => {
                    &&& final(self).open() == old(self).open()
                    &&& action.stop@.len() == 0
                },
                ManagerEvent::Close { id } => {
                    &&& final(self).open() == without(old(self).open(), id)
                    &&& action.stop@ == (if has_id(old(self).open(), id) {
                        seq![old(self).open()[position(old(self).open(), id)]]
                    } else {
                        Seq::empty()
                    })
                },
                ManagerEvent::Disconnected => {
                    &&& final(self).open().len() == 0
                    &&& action.stop@ == old(self).open()
                },
            },
    {
        match event {
            ManagerEvent::Delivered => ManagerAction {
                stop: Vec::new(),
                notify: true,
                exit: false,
            },
            ManagerEvent::Undelivered(Ok(ids)) => ManagerAction {
                stop: self.handle_drop_multiple(ids.as_slice()),
                notify: false,
                exit: false,
            },
            ManagerEvent::Undelivered(Err(_)) => ManagerAction {
                stop: Vec::new(),
                notify: false,
                exit: false,
            },
            ManagerEvent::Close { id } => {
                let mut stop: Vec<ConnectionDelegate<D>> = Vec::new();
                if let Some(delegate) = self.remove_delegate_id(id) {
                    stop.push(delegate);
                }
                ManagerAction { stop, notify: false, exit: false }
            },
            ManagerEvent::Disconnected => {
                let mut ids: Vec<usize> = Vec::with_capacity(self.delegates.len());
                while ids.len() < self.delegates.len()
                    invariant
                        ids@.len() <= self.delegates@.len(),
                        *self == *old(self),
                        forall|i: int| 0 <= i < ids@.len() ==> ids@[i] == self.delegates@[i].id,
                    decreases self.delegates@.len() - ids@.len(),
                {
                    ids.push(self.delegates[ids.len()].id);
                }
                proof {
                    assert(ids@ =~= ids_of(self.delegates@));
                    law_dropping_all_leaves_none(self.delegates@, self.next_id);
                }
                ManagerAction {
                    stop: self.handle_drop_multiple(ids.as_slice()),
                    notify: false,
                    exit: true,
                }
            },
        }
    }
}

/// What happens to the manager.
pub enum ManagerEvent {
    /// The connections that were asked for were handed over, or the reason why there are none
    Delivered,
    /// Nobody was there to take the connections with these numbers, or the reason why there are
    /// none
    Undelivered(Result<Vec<usize>, LoadError>),
    /// The connection with this number is not used any more
    Close { id: usize },
    /// Nobody is left who could ask for anything
    Disconnected,
}

/// What the manager does.
pub struct ManagerAction<D> {
    /// The delegates whose streams are to be stopped, in order
    pub stop: Vec<ConnectionDelegate<D>>,
    /// Whether the owner of the manager is to be notified
    pub notify: bool,
    /// Whether the manager has nothing more to do
    pub exit: bool,
}

/// Closing connections closes these and no others: afterwards there is no delegate for any of
/// `ids`, and those for other connections are all there. What goes and what stays are, together,
/// what there was.
pub proof fn law_dropping_is_selective<D>(
    open: Seq<ConnectionDelegate<D>>,
    ids: Seq<usize>,
    next_id: usize,
)
    requires
        numbered(open, next_id),
    ensures
        numbered(without_all(open, ids), next_id),
        forall|d: ConnectionDelegate<D>|
            #[trigger] without_all(open, ids).contains(d) <==> open.contains(d) && !ids.contains(
                d.id,
            ),
        forall|d: ConnectionDelegate<D>|
            #[trigger] picked(open, ids).contains(d) <==> open.contains(d) && ids.contains(d.id),
    decreases ids.len(),
{
    if ids.len() > 0 {
        let rest = ids.drop_last();
        let id = ids.last();
        law_dropping_is_selective(open, rest, next_id);
        let left = without_all(open, rest);
        lemma_without(left, id, next_id);
        assert forall|x: usize| #[trigger] ids.contains(x) <==> rest.contains(x) || x == id by {
            if ids.contains(x) {
                let i = choose|i: int| 0 <= i < ids.len() && ids[i] == x;
                if i < ids.len() - 1 {
                    assert(rest[i] == x);
                }
            }
            if rest.contains(x) {
                let i = choose|i: int| 0 <= i < rest.len() && rest[i] == x;
                assert(ids[i] == x);
            }
            if x == id {
                assert(ids[ids.len() - 1] == x);
            }
        }
        let before = picked(open, rest);
        let after = picked(open, ids);
        assert forall|d: ConnectionDelegate<D>| #[trigger] after.contains(d) <==> open.contains(d)
            && ids.contains(d.id) by {
            if has_id(left, id) {
                let at = choose|i: int| 0 <= i < left.len() && (#[trigger] left[i]).id == id;
                lemma_position(left, id, next_id, at);
                assert(after == before.push(left[at]));
                assert(left.contains(left[at]));
                if after.contains(d) {
                    let i = choose|i: int| 0 <= i < after.len() && after[i] == d;
                    if i < before.len() {
                        assert(before[i] == d);
                        assert(before.contains(d));
                    }
                }
                if before.contains(d) {
                    let i = choose|i: int| 0 <= i < before.len() && before[i] == d;
                    assert(after[i] == d);
                }
                if open.contains(d) && d.id == id && !rest.contains(id) {
                    assert(left.contains(d));
                    let i = choose|i: int| 0 <= i < left.len() && left[i] == d;
                    lemma_position(left, id, next_id, i);
                    assert(after[before.len() as int] == d);
                }
            } else if open.contains(d) && d.id == id && !rest.contains(id) {
                assert(left.contains(d));
                let i = choose|i: int| 0 <= i < left.len() && left[i] == d;
                assert(left[i].id == id);
            }
        }
    }
}

/// Closing all connections leaves none, and gives up the delegates in the order in which they
/// stand.
pub proof fn law_dropping_all_leaves_none<D>(open: Seq<ConnectionDelegate<D>>, next_id: usize)
    requires
        numbered(open, next_id),
    ensures
        without_all(open, ids_of(open)).len() == 0,
        picked(open, ids_of(open)) == open,
{
    lemma_dropping_first(open, next_id, open.len() as int);
    let ids = ids_of(open);
    assert(ids.take(open.len() as int) =~= ids);
    assert(open.take(open.len() as int) =~= open);
    law_dropping_is_selective(open, ids, next_id);
    let left = without_all(open, ids);
    if left.len() > 0 {
        let d = left[0];
        assert(left.contains(d));
        let i = choose|i: int| 0 <= i < open.len() && open[i] == d;
        assert(ids[i] == d.id);
    }
}

proof fn lemma_dropping_first<D>(open: Seq<ConnectionDelegate<D>>, next_id: usize, count: int)
    requires
        numbered(open, next_id),
        0 <= count <= open.len(),
    ensures
        picked(open, ids_of(open).take(count)) == open.take(count),
    decreases count,
{
    let ids = ids_of(open);
    if count == 0 {
        assert(ids.take(0) =~= Seq::empty());
        assert(open.take(0) =~= Seq::empty());
    } else {
        let rest = ids.take(count - 1);
        lemma_dropping_first(open, next_id, count - 1);
        assert(ids.take(count).drop_last() =~= rest);
        law_dropping_is_selective(open, rest, next_id);
        let d = open[count - 1];
        assert(open.contains(d));
        if rest.contains(d.id) {
            let i = choose|i: int| 0 <= i < rest.len() && rest[i] == d.id;
            assert(open[i].id != open[count - 1].id);
        }
        let left = without_all(open, rest);
        assert(left.contains(d));
        let at = choose|i: int| 0 <= i < left.len() && left[i] == d;
        lemma_position(left, d.id, next_id, at);
        assert(open.take(count) =~= open.take(count - 1).push(d));
    }
}

/// The place of a delegate among delegates with different numbers.
proof fn lemma_position<D>(open: Seq<ConnectionDelegate<D>>, id: usize, next_id: usize, at: int)
    requires
        numbered(open, next_id),
        0 <= at < open.len(),
        open[at].id == id,
    ensures
        has_id(open, id),
        position(open, id) == at,
{
    assert forall|j: int| 0 <= j < at implies (#[trigger] open[j]).id != id by {
        assert(open[j].id != open[at].id);
    }
}

/// The delegate of one connection goes, and no other.
proof fn lemma_without<D>(open: Seq<ConnectionDelegate<D>>, id: usize, next_id: usize)
    requires
        numbered(open, next_id),
    ensures
        numbered(without(open, id), next_id),
        !has_id(without(open, id), id),
        forall|d: ConnectionDelegate<D>|
            #[trigger] without(open, id).contains(d) <==> open.contains(d) && d.id != id,
{
    let left = without(open, id);
    if has_id(open, id) {
        let at = choose|i: int| 0 <= i < open.len() && (#[trigger] open[i]).id == id;
        lemma_position(open, id, next_id, at);
        assert forall|d: ConnectionDelegate<D>| #[trigger] left.contains(d) <==> open.contains(d)
            && d.id != id by {
            if left.contains(d) {
                let i = choose|i: int| 0 <= i < left.len() && left[i] == d;
                if i == at {
                    assert(open[open.len() - 1] == d);
                } else {
                    assert(open[i] == d);
                }
            }
            if open.contains(d) && d.id != id {
                let i = choose|i: int| 0 <= i < open.len() && open[i] == d;
                if i == open.len() - 1 {
                    assert(left[at] == d);
                } else {
                    assert(left[i] == d);
                }
            }
        }
    } else {
        assert forall|d: ConnectionDelegate<D>| open.contains(d) implies d.id != id by {
            let i = choose|i: int| 0 <= i < open.len() && open[i] == d;
            assert(open[i].id == d.id);
        }
    }
    if has_id(left, id) {
        let i = choose|i: int| 0 <= i < left.len() && (#[trigger] left[i]).id == id;
        assert(left.contains(left[i]));
    }
}

/// A new connection has the name of its device, or says that it is unknown, and as many channels as
/// the device; each has the rate of the device and no samples. Nothing was received for it.
pub proof fn law_new_connection_is_silent<S>(
    connection: ManagedConnection<S>,
    device: DeviceInfo,
    channel: int,
)
    requires
        connection.is_new(device),
    ensures
        device.name matches Some(name) ==> connection.title() == name@,
        device.name is None ==> connection.title() == "<unknown>"@,
        connection.contents().len() == device.channels,
        0 <= channel < device.channels ==> {
            let buffer = connection.contents()[channel]@;
            &&& connection.contents()[channel].wf()
            &&& buffer.sample_rate == device.sample_rate.0
            &&& buffer.back.len() == 0 && buffer.pending.len() == 0
            &&& buffer.absolute_sample == 0
        },
        connection.found() == 0 && connection.heard().len() == 0,
{
}

/// Every message that was found was read, once and in the order in which they came: message `at` of
/// `batches` is the one with that number since.
pub proof fn law_every_message_is_read<S>(
    before: ManagedConnection<S>,
    batches: Seq<ChannelInfo<S>>,
    after: ManagedConnection<S>,
    at: int,
)
    requires
        before.hears(batches, after),
    ensures
        after.found() - before.found() == batches.len(),
        after.heard().len() - before.heard().len() == batches.len(),
        after.heard().take(before.heard().len() as int) == before.heard(),
        0 <= at < batches.len() ==> after.heard()[before.heard().len() + at] == (
            (before.found() + at) as nat,
            batches[at],
        ),
{
    assert(after.heard().take(before.heard().len() as int) =~= before.heard());
}

/// The samples of batches that follow each other follow each other, and each of them is there: sample
/// `index` of batch `at` comes after all those of the batches before.
pub proof fn law_batches_follow_each_other<S>(
    batches: Seq<ChannelInfo<S>>,
    channel: int,
    at: int,
    index: int,
)
    requires
        0 <= at < batches.len(),
        0 <= index < batches[at].channels@[channel]@.len(),
    ensures
        channel_of(batches.take(0), channel).len() == 0,
        channel_of(batches.take(at + 1), channel).len() == channel_of(
            batches.take(at),
            channel,
        ).len() + batches[at].channels@[channel]@.len(),
        channel_of(batches.take(at), channel).len() + index < channel_of(batches, channel).len(),
        channel_of(batches, channel)[channel_of(batches.take(at), channel).len() + index]
            == batches[at].channels@[channel]@[index],
    decreases batches.len(),
{
    let rest = batches.drop_last();
    assert(batches.take(at + 1).drop_last() =~= batches.take(at));
    assert(batches.take(at + 1).last() == batches[at]);
    if at < rest.len() {
        law_batches_follow_each_other(rest, channel, at, index);
        assert(rest.take(at) =~= batches.take(at));
        assert(rest[at] == batches[at]);
    } else {
        assert(rest =~= batches.take(at));
    }
}

/// Every sample of every batch is taken in, at its place: behind the samples that waited before, and
/// behind those of the batches before it. No other sample is, and nothing else changes.
pub proof fn law_every_sample_is_taken_in<S: Clone>(
    before: ManagedConnection<S>,
    batches: Seq<ChannelInfo<S>>,
    after: ManagedConnection<S>,
    channel: int,
    at: int,
    index: int,
)
    requires
        before.takes_in(batches, after),
        0 <= channel < before.contents().len(),
    ensures
        after.contents().len() == before.contents().len(),
        ({
            let old_view = before.contents()[channel]@;
            let new_view = after.contents()[channel]@;
            &&& new_view.pending.len() == old_view.pending.len() + channel_of(
                batches,
                channel,
            ).len()
            &&& new_view.pending.take(old_view.pending.len() as int) == old_view.pending
            &&& new_view.back == old_view.back
            &&& new_view.absolute_sample == old_view.absolute_sample
            &&& new_view.sample_rate == old_view.sample_rate
            &&& 0 <= at < batches.len() ==> batches[at].channels@.len() == before.contents().len()
            &&& 0 <= at < batches.len() && 0 <= index < batches[at].channels@[channel]@.len()
                ==> cloned(
                batches[at].channels@[channel]@[index],
                new_view.pending[old_view.pending.len() + channel_of(
                    batches.take(at),
                    channel,
                ).len() + index],
            )
        }),
{
    let old_view = before.contents()[channel]@;
    let new_view = after.contents()[channel]@;
    let samples = channel_of(batches, channel);
    crate::connection::buffer::law_ingest_appends(old_view, samples, new_view);
    assert(new_view.pending.take(old_view.pending.len() as int) =~= old_view.pending);
    if 0 <= at < batches.len() && 0 <= index < batches[at].channels@[channel]@.len() {
        law_batches_follow_each_other(batches, channel, at, index);
        let place = channel_of(batches.take(at), channel).len() + index;
        assert(cloned(samples[place], new_view.pending[old_view.pending.len() + place]));
    }
}

/// Streams that are opened are numbered one after the other, and each connection is the one to its
/// device and has the number of its delegate.
pub proof fn law_streams_are_numbered_in_order<S, D>(
    connections: Seq<ManagedConnection<S>>,
    built: Seq<(DeviceInfo, D)>,
    first: usize,
    at: int,
)
    requires
        are_connections(connections, built, first),
        first + built.len() <= usize::MAX,
    ensures
        connections.len() == built.len(),
        delegates_of(built, first).len() == built.len(),
        0 <= at < built.len() ==> {
            &&& connections[at].number() == first + at
            &&& connections[at].is_new(built[at].0)
            &&& delegates_of(built, first)[at].id == first + at
            &&& delegates_of(built, first)[at].device == built[at].1
        },
{
}

/// Streams that were opened are those of the first devices, in order: each was built, and was
/// started.
pub proof fn law_opened_streams_were_started<Dev, D, B, P>(
    devices: Seq<Dev>,
    built: Seq<(DeviceInfo, D)>,
    build: B,
    play: P,
    at: int,
) where
    B: FnMut(Dev) -> Result<(DeviceInfo, D), LoadError>,
    P: FnMut(&D) -> Result<(), LoadError>,

    requires
        are_started(devices, built, build, play),
    ensures
        built.len() <= devices.len(),
        0 <= at < built.len() ==> {
            &&& call_ensures(build, (devices[at],), Ok(built[at]))
            &&& exists|outcome: Result<(), LoadError>| #[trigger]
                call_ensures(play, (&built[at].1,), outcome) && outcome is Ok
        },
{
    if 0 <= at < built.len() {
        assert(starts(built[at].1, play));
    }
}

/// A stream that fails to start was built, and the error is the one with which it did not start.
pub proof fn law_failed_start_is_reported<Dev, D, B, P>(
    device: Dev,
    build: B,
    play: P,
    error: LoadError,
) where
    B: FnMut(Dev) -> Result<(DeviceInfo, D), LoadError>,
    P: FnMut(&D) -> Result<(), LoadError>,

    requires
        fails_to_start(device, build, play, error),
    ensures
        exists|stream: (DeviceInfo, D)|
            {
                &&& #[trigger] call_ensures(build, (device,), Ok(stream))
                &&& call_ensures(play, (&stream.1,), Err(error))
            },
{
}

/// A delegate that is there is found where it stands, and goes; the last one takes its place, and
/// all others stay where they are. Where there is none for a connection, nothing goes.
pub proof fn law_delegate_is_found_where_it_stands<D>(
    open: Seq<ConnectionDelegate<D>>,
    id: usize,
    next_id: usize,
    at: int,
)
    requires
        numbered(open, next_id),
    ensures
        0 <= at < open.len() && open[at].id == id ==> {
            &&& has_id(open, id)
            &&& position(open, id) == at
            &&& without(open, id) == open.update(at, open.last()).drop_last()
        },
        (forall|i: int| 0 <= i < open.len() ==> (#[trigger] open[i]).id != id) ==> !has_id(
            open,
            id,
        ) && without(open, id) == open,
{
    if 0 <= at < open.len() && open[at].id == id {
        lemma_position(open, id, next_id, at);
    }
}

/// Delegates have different numbers, all of them given out before.
pub proof fn law_numbers_differ<D>(
    open: Seq<ConnectionDelegate<D>>,
    next_id: usize,
    at: int,
    other: int,
)
    requires
        numbered(open, next_id),
        0 <= at < open.len(),
        0 <= other < open.len(),
    ensures
        open[at].id < next_id,
        at != other ==> open[at].id != open[other].id,
{
    if at < other {
        assert(open[at].id != open[other].id);
    } else if other < at {
        assert(open[other].id != open[at].id);
    }
}

/// Connections that are all open and different are given up in the order in which they are asked
/// for, each with its own delegate.
pub proof fn law_delegates_go_in_order<D>(
    open: Seq<ConnectionDelegate<D>>,
    ids: Seq<usize>,
    next_id: usize,
)
    requires
        numbered(open, next_id),
        forall|i: int| 0 <= i < ids.len() ==> has_id(open, #[trigger] ids[i]),
        forall|i: int, j: int| 0 <= i < j < ids.len() ==> #[trigger] ids[i] != #[trigger] ids[j],
    ensures
        picked(open, ids).len() == ids.len(),
        forall|i: int| 0 <= i < ids.len() ==> (#[trigger] picked(open, ids)[i]).id == ids[i],
        forall|i: int| 0 <= i < ids.len() ==> open.contains(#[trigger] picked(open, ids)[i]),
        without_all(open, ids).len() == open.len() - ids.len(),
    decreases ids.len(),
{
    if ids.len() > 0 {
        let rest = ids.drop_last();
        let id = ids.last();
        assert forall|i: int| 0 <= i < rest.len() implies has_id(open, #[trigger] rest[i]) by {
            assert(has_id(open, ids[i]));
        }
        assert forall|i: int, j: int| 0 <= i < j < rest.len() implies #[trigger] rest[i]
            != #[trigger] rest[j] by {
            assert(ids[i] != ids[j]);
        }
        law_delegates_go_in_order(open, rest, next_id);
        law_dropping_is_selective(open, rest, next_id);
        let left = without_all(open, rest);
        assert(has_id(open, ids[ids.len() - 1]));
        let stands = choose|i: int| 0 <= i < open.len() && (#[trigger] open[i]).id == id;
        let d = open[stands];
        assert(open.contains(d));
        if rest.contains(id) {
            let i = choose|i: int| 0 <= i < rest.len() && rest[i] == id;
            assert(ids[i] != ids[ids.len() - 1]);
        }
        assert(left.contains(d));
        let at = choose|i: int| 0 <= i < left.len() && left[i] == d;
        lemma_position(left, id, next_id, at);
        let before = picked(open, rest);
        let after = picked(open, ids);
        assert(after == before.push(d));
        assert forall|i: int| 0 <= i < ids.len() implies (#[trigger] after[i]).id == ids[i]
            && open.contains(after[i]) by {
            if i < rest.len() {
                assert(before[i].id == rest[i]);
                assert(open.contains(before[i]));
            }
        }
    }
}

/// An answer is the message as it came; where none will ever come, the manager was stopped; as long
/// as one may come, there is none.
pub proof fn law_answer_is_the_message<C>(answer: Result<C, LoadError>)
    ensures
        answer_to(Received::Message(answer)) == Some(answer),
        answer_to::<C>(Received::NotYet) is None,
        answer_to::<C>(Received::Never) == Some(Err::<C, LoadError>(LoadError::ManagerStopped)),
{
}

/// What is shown of an error is the message of what went wrong, as it is.
pub proof fn law_message_is_shown_as_it_is(text: String)
    ensures
        LoadError::DeviceEnumeration(text).message() == text@,
        LoadError::StreamConfig(text).message() == text@,
        LoadError::StreamBuild(text).message() == text@,
        LoadError::Start(text).message() == text@,
        LoadError::ManagerStopped.message() == "manager stopped before streams could be loaded"@,
{
}

} // verus!
