use std::cell::RefCell;

use voicemeter::connection::buffer::SampleIter;
use voicemeter::connection::channels::{ChannelInfo, ChannelInfoRecycler};
use voicemeter::connection::managed::{
    ChannelMismatch, ConnectionDelegate, DeviceInfo, LoadError, LoadingDevices, ManagedConnection, ManagerData,
    ManagerEvent, Received,
};
use voicemeter::connection::{converted, SampleRate};
use voicemeter::ui::Loadable;
use voicemeter::Hz;

fn collect(iter: SampleIter<'_, i32>) -> Vec<i32> {
    let mut iter = iter;
    let mut out = Vec::new();
    while let Some(item) = iter.next() {
        out.push(*item);
    }
    out
}

fn info(name: Option<&str>, channels: u16) -> DeviceInfo {
    DeviceInfo {
        name: name.map(|it| it.to_string()),
        channels,
        sample_rate: SampleRate(44_100),
    }
}

fn ids(delegates: &[ConnectionDelegate<&'static str>]) -> Vec<usize> {
    delegates.iter().map(|it| it.id).collect()
}

type Loaded = Result<Vec<ManagedConnection<i32>>, LoadError>;

fn load(data: &mut ManagerData<&'static str>, names: &[&'static str]) -> Loaded {
    data.handle_load_streams(
        Ok(names.to_vec()),
        |name: &'static str| {
            if name == "unbuildable" {
                Err(LoadError::StreamBuild("cannot build".to_string()))
            } else {
                Ok((info(Some(name), 2), name))
            }
        },
        |name: &&'static str| {
            if *name == "silent" {
                Err(LoadError::Start("cannot start".to_string()))
            } else {
                Ok(())
            }
        },
    )
}

fn numbers(loaded: &Loaded) -> Vec<usize> {
    match loaded {
        Ok(connections) => connections.iter().map(|it| it.id()).collect(),
        Err(error) => panic!("{}", error.to_string()),
    }
}

#[test]
fn error_messages() {
    assert_eq!(LoadError::DeviceEnumeration("a".to_string()).to_string(), "a");
    assert_eq!(LoadError::StreamConfig("b".to_string()).to_string(), "b");
    assert_eq!(LoadError::StreamBuild("c".to_string()).to_string(), "c");
    assert_eq!(LoadError::Start("d".to_string()).to_string(), "d");
    assert_eq!(
        LoadError::ManagerStopped.to_string(),
        "manager stopped before streams could be loaded"
    );
}

#[test]
fn new_connection() {
    let mut connection: ManagedConnection<i32> = ManagedConnection::new(7, info(Some("mic"), 3));
    assert_eq!(connection.id(), 7);
    assert_eq!(connection.name(), "mic");
    assert_eq!(connection.channels(), 3);
    for buffer in connection.buffers() {
        assert_eq!(buffer.buffer_len(), 0);
        assert_eq!(buffer.backbuffer_len(), 0);
        assert_eq!(buffer.sample_rate(), Hz(44_100));
    }
    let nameless: ManagedConnection<i32> = ManagedConnection::new(8, info(None, 0));
    assert_eq!(nameless.name(), "<unknown>");
    assert_eq!(nameless.channels(), 0);
}

#[test]
fn batches_go_to_their_channels() {
    let mut connection: ManagedConnection<i32> = ManagedConnection::new(0, info(None, 2));
    let first = ChannelInfo {
        channels: vec![vec![1, 2], vec![3]],
    };
    let second = ChannelInfo {
        channels: vec![vec![], vec![4]],
    };
    assert_eq!(connection.take_in(Some(&first)), Ok(true));
    assert_eq!(connection.take_in(Some(&second)), Ok(true));
    assert_eq!(connection.take_in(None), Ok(false));
    assert_eq!(collect(connection.buffers()[0].take(9)), vec![1, 2]);
    assert_eq!(collect(connection.buffers()[1].take(9)), vec![3, 4]);
}

#[test]
fn batch_with_another_number_of_channels_is_refused() {
    let mut connection: ManagedConnection<i32> = ManagedConnection::new(0, info(None, 2));
    let batch = ChannelInfo {
        channels: vec![vec![1]],
    };
    assert_eq!(
        connection.take_in(Some(&batch)),
        Err(ChannelMismatch {
            expected: 2,
            found: 1,
        })
    );
    assert_eq!(connection.buffers()[0].buffer_len(), 0);
}

struct Recycler(ChannelInfoRecycler);

impl thingbuf::Recycle<ChannelInfo<i32>> for Recycler {
    fn new_element(&self) -> ChannelInfo<i32> {
        self.0.new_element()
    }

    fn recycle(&self, element: &mut ChannelInfo<i32>) {
        self.0.recycle(element)
    }
}

fn recycler(channels: usize) -> Recycler {
    Recycler(ChannelInfoRecycler {
        channels,
        default_sample_count: 16,
    })
}

#[test]
fn batches_arrive_from_another_thread() {
    let (sender, receiver) = thingbuf::mpsc::blocking::with_recycle(4, recycler(2));
    let mut connection: ManagedConnection<i32> = ManagedConnection::new(0, info(None, 2));
    assert_eq!(connection.process(&receiver), Ok(()));
    assert_eq!(connection.buffers()[0].buffer_len(), 0);

    for turn in 0..3 {
        sender
            .try_send_ref()
            .unwrap()
            .extend_from_interleaved(vec![turn, 10 + turn]);
    }
    assert_eq!(connection.process(&receiver), Ok(()));
    assert_eq!(collect(connection.buffers()[0].take(9)), vec![0, 1, 2]);
    assert_eq!(collect(connection.buffers()[1].take(9)), vec![10, 11, 12]);

    // The slots are used again, and are empty again.
    for turn in 3..7 {
        sender
            .try_send_ref()
            .unwrap()
            .extend_from_interleaved(vec![turn]);
    }
    drop(sender);
    assert_eq!(connection.process(&receiver), Ok(()));
    assert_eq!(collect(connection.buffers()[0].take(9)), vec![3, 4, 5, 6]);
    assert_eq!(connection.buffers()[1].buffer_len(), 0);
    assert_eq!(connection.process(&receiver), Ok(()));
}

#[test]
fn batches_of_other_channels_are_not_taken_in() {
    let (sender, receiver) = thingbuf::mpsc::blocking::with_recycle(4, recycler(3));
    let mut connection: ManagedConnection<i32> = ManagedConnection::new(0, info(None, 2));
    sender
        .try_send_ref()
        .unwrap()
        .extend_from_interleaved(vec![1, 2, 3]);
    assert_eq!(
        connection.process(&receiver),
        Err(ChannelMismatch {
            expected: 2,
            found: 3,
        })
    );
    assert_eq!(connection.buffers()[0].buffer_len(), 0);
}

#[test]
fn samples_are_converted_in_order() {
    let out: Vec<i32> = converted(&[1i16, -2, 3], |it| it as i32 * 65_536);
    assert_eq!(out, vec![65_536, -131_072, 196_608]);
    let none: Vec<i32> = converted(&[], |it: i16| it as i32);
    assert_eq!(none, vec![]);
}

#[test]
fn loading_waits_for_the_answer() {
    let (sender, receiver) = oneshot::channel();
    let mut loading: LoadingDevices<u32> = LoadingDevices::requested(true, receiver);
    assert!(!loading.ready());
    assert!(loading.try_take().is_none());
    assert!(sender.send(Ok(5)).is_ok());
    assert!(loading.ready());
    assert!(loading.ready());
    assert_eq!(loading.take().unwrap(), 5);
    assert!(!loading.ready());
}

#[test]
fn loading_gives_the_error() {
    let (sender, receiver) = oneshot::channel();
    let mut loading: LoadingDevices<u32> = LoadingDevices::requested(true, receiver);
    assert!(sender
        .send(Err(LoadError::StreamConfig("no format".to_string())))
        .is_ok());
    assert!(loading.ready());
    assert_eq!(loading.get().unwrap_err().to_string(), "no format");
}

#[test]
fn loading_from_a_stopped_manager() {
    let (_sender, receiver) = oneshot::channel();
    let mut loading: LoadingDevices<u32> = LoadingDevices::requested(false, receiver);
    assert!(loading.ready());
    assert_eq!(
        loading.take().unwrap_err().to_string(),
        "manager stopped before streams could be loaded"
    );
    assert!(!loading.ready());
}

#[test]
fn manager_that_ends_without_an_answer_was_stopped() {
    let (sender, receiver) = oneshot::channel();
    let mut loading: LoadingDevices<u32> = LoadingDevices::requested(true, receiver);
    assert!(!loading.ready());
    drop(sender);
    assert!(loading.ready());
    assert!(matches!(loading.take(), Err(LoadError::ManagerStopped)));
    assert!(!loading.ready());
    assert!(!loading.ready());
}

#[test]
fn answer_can_be_taken_without_asking_first() {
    let (sender, receiver) = oneshot::channel();
    let mut loading: LoadingDevices<u32> = LoadingDevices::requested(true, receiver);
    assert!(sender.send(Ok(9)).is_ok());
    assert!(matches!(loading.try_take(), Some(Ok(9))));
    assert!(loading.try_take().is_none());
    assert!(!loading.ready());
}

#[test]
fn received_answers_are_noted() {
    let (_sender, receiver) = oneshot::channel();
    let mut loading: LoadingDevices<u32> = LoadingDevices::requested(true, receiver);
    assert!(!loading.settle(Received::NotYet));
    assert!(loading.settle(Received::Message(Ok(3))));
    assert!(Loadable::ready(&mut loading));
    assert_eq!(Loadable::take(&mut loading).unwrap(), 3);

    let (_sender, receiver) = oneshot::channel();
    let mut loading: LoadingDevices<u32> = LoadingDevices::requested(true, receiver);
    assert!(loading.settle(Received::Never));
    assert!(matches!(loading.get(), Err(LoadError::ManagerStopped)));
}

#[test]
fn numbers_are_given_out_once() {
    let mut data: ManagerData<&'static str> = ManagerData::new();
    assert_eq!(data.mint_id(), 0);
    assert_eq!(data.mint_id(), 1);
    let (connection, delegate): (ManagedConnection<i32>, _) =
        data.build_split_connection(info(Some("mic"), 2), "device");
    assert_eq!(connection.id(), 2);
    assert_eq!(connection.name(), "mic");
    assert_eq!(connection.channels(), 2);
    assert_eq!(delegate.id, 2);
    assert_eq!(delegate.device, "device");
    assert_eq!(data.mint_id(), 3);
}

#[test]
fn streams_are_opened_in_order() {
    let mut data = ManagerData::new();
    let first = load(&mut data, &["a", "b"]);
    assert_eq!(numbers(&first), vec![0, 1]);
    assert_eq!(first.unwrap()[1].name(), "b");
    let second = load(&mut data, &["a"]);
    assert_eq!(numbers(&second), vec![2]);
    let action = data.handle_event(ManagerEvent::Disconnected);
    assert_eq!(ids(&action.stop), vec![0, 1, 2]);
    assert_eq!(action.stop[2].device, "a");
}

#[test]
fn enumeration_can_fail() {
    let mut data: ManagerData<&'static str> = ManagerData::new();
    let loaded: Loaded = data.handle_load_streams(
        Err::<Vec<&'static str>, _>(LoadError::DeviceEnumeration("no host".to_string())),
        |name| Ok((info(Some(name), 2), name)),
        |_| Ok(()),
    );
    assert!(matches!(loaded, Err(LoadError::DeviceEnumeration(message)) if message == "no host"));
    assert_eq!(data.mint_id(), 0);
}

#[test]
fn building_can_fail() {
    let mut data = ManagerData::new();
    let loaded = load(&mut data, &["a", "unbuildable", "c"]);
    assert!(matches!(loaded, Err(LoadError::StreamBuild(message)) if message == "cannot build"));
    // The number was not used up, and the first stream stays open.
    assert_eq!(data.mint_id(), 1);
    assert_eq!(data.remove_delegate_id(0).map(|it| it.device), Some("a"));
}

#[test]
fn starting_can_fail() {
    let mut data = ManagerData::new();
    let loaded = load(&mut data, &["a", "silent", "c"]);
    assert!(matches!(loaded, Err(LoadError::Start(message)) if message == "cannot start"));
    assert_eq!(data.mint_id(), 2);
    assert!(data.remove_delegate_id(1).is_none());
    assert!(data.remove_delegate_id(0).is_some());
}

#[test]
fn nothing_is_opened_after_a_failure() {
    let mut data: ManagerData<&'static str> = ManagerData::new();
    let built = RefCell::new(Vec::new());
    let loaded: Loaded = data.handle_load_streams(
        Ok(vec!["a", "b", "c"]),
        |name: &'static str| {
            built.borrow_mut().push(name);
            if name == "b" {
                Err(LoadError::StreamConfig("no format".to_string()))
            } else {
                Ok((info(None, 1), name))
            }
        },
        |_| Ok(()),
    );
    assert!(loaded.is_err());
    assert_eq!(built.into_inner(), vec!["a", "b"]);
}

#[test]
fn removing_one_delegate() {
    let mut data = ManagerData::new();
    load(&mut data, &["a", "b", "c"]).unwrap();
    assert_eq!(data.remove_delegate_id(0).map(|it| it.device), Some("a"));
    assert!(data.remove_delegate_id(0).is_none());
    assert!(data.remove_delegate_id(9).is_none());
    // The last delegate took the place of the one that went.
    let action = data.handle_event(ManagerEvent::Disconnected);
    assert_eq!(ids(&action.stop), vec![2, 1]);
}

#[test]
fn dropping_is_selective() {
    let mut data = ManagerData::new();
    load(&mut data, &["a", "b", "c", "d"]).unwrap();
    let dropped = data.handle_drop_multiple(&[3, 9, 1, 3]);
    assert_eq!(ids(&dropped), vec![3, 1]);
    assert!(data.remove_delegate_id(3).is_none());
    assert!(data.remove_delegate_id(1).is_none());
    assert!(data.remove_delegate_id(0).is_some());
    assert!(data.remove_delegate_id(2).is_some());
}

#[test]
fn delivered_connections_notify() {
    let mut data = ManagerData::new();
    load(&mut data, &["a"]).unwrap();
    let action = data.handle_event(ManagerEvent::Delivered);
    assert!(action.notify);
    assert!(!action.exit);
    assert!(action.stop.is_empty());
    assert!(data.remove_delegate_id(0).is_some());
}

#[test]
fn undelivered_connections_are_closed() {
    let mut data = ManagerData::new();
    load(&mut data, &["a", "b", "c"]).unwrap();
    let action = data.handle_event(ManagerEvent::Undelivered(Ok(vec![1, 2])));
    assert!(!action.notify);
    assert!(!action.exit);
    assert_eq!(ids(&action.stop), vec![1, 2]);
    let action = data.handle_event(ManagerEvent::Undelivered(Err(LoadError::ManagerStopped)));
    assert!(!action.notify);
    assert!(action.stop.is_empty());
    assert!(data.remove_delegate_id(0).is_some());
}

#[test]
fn closed_connections_stop() {
    let mut data = ManagerData::new();
    load(&mut data, &["a", "b"]).unwrap();
    let action = data.handle_event(ManagerEvent::Close { id: 1 });
    assert_eq!(ids(&action.stop), vec![1]);
    assert!(!action.notify);
    assert!(!action.exit);
    let action = data.handle_event(ManagerEvent::Close { id: 1 });
    assert!(action.stop.is_empty());
}

#[test]
fn dropping_all_leaves_none() {
    let mut data = ManagerData::new();
    load(&mut data, &["a", "b", "c"]).unwrap();
    let action = data.handle_event(ManagerEvent::Disconnected);
    assert!(action.exit);
    assert!(!action.notify);
    assert_eq!(ids(&action.stop), vec![0, 1, 2]);
    let action = data.handle_event(ManagerEvent::Disconnected);
    assert!(action.stop.is_empty());
}
