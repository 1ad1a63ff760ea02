use voicemeter::circular_buffer::{CircularBuffer, SegmentsIter};

fn collect(iter: SegmentsIter<'_, i32>) -> Vec<i32> {
    let mut iter = iter;
    let mut out = Vec::new();
    while let Some(item) = iter.next() {
        out.push(*item);
    }
    out
}

#[test]
fn can_fill() {
    let mut buffer = CircularBuffer::new(16);

    for i in 0..16 {
        buffer.push(i);
    }

    let expected = (0..16).collect::<Vec<_>>();
    assert_eq!(buffer.storage(), expected.as_slice());
    assert_eq!(buffer.segments(), [expected.as_slice(), &[]]);
}

#[test]
fn overfilled() {
    let mut buffer = CircularBuffer::new(16);

    for i in 0..32 {
        buffer.push(i);
    }

    let expected = (16..32).collect::<Vec<_>>();
    assert_eq!(buffer.storage(), expected.as_slice());
    assert_eq!(buffer.segments(), [expected.as_slice(), &[]]);
}

#[test]
fn starts_empty() {
    let buffer: CircularBuffer<i32> = CircularBuffer::new(3);
    assert_eq!(buffer.capacity(), 3);
    assert_eq!(buffer.storage().len(), 0);
    assert_eq!(buffer.segments(), [[].as_slice(), &[]]);
    assert_eq!(buffer.iter().len(), 0);
    assert_eq!(buffer.iter().next(), None);
}

#[test]
fn no_slots_at_all() {
    let buffer: CircularBuffer<i32> = CircularBuffer::new(0);
    assert_eq!(buffer.capacity(), 0);
    assert_eq!(buffer.storage().len(), 0);
}

#[test]
fn only_pushed_values_are_valid() {
    let mut buffer: CircularBuffer<i32> = CircularBuffer::new(4);
    buffer.push(7);
    assert_eq!(buffer.storage(), [7].as_slice());
    assert_eq!(buffer.segments(), [[7].as_slice(), &[]]);
    buffer.push(8);
    assert_eq!(buffer.segments(), [[7, 8].as_slice(), &[]]);
    assert_eq!(collect(buffer.iter()), vec![7, 8]);
    assert_eq!(collect(buffer.iter().last(1)), vec![8]);
    buffer.extend_from(&[9, 10]);
    assert_eq!(buffer.segments(), [[7, 8, 9, 10].as_slice(), &[]]);
    buffer.push(11);
    assert_eq!(buffer.segments(), [[11].as_slice(), [8, 9, 10].as_slice()]);
    assert_eq!(buffer.capacity(), 4);
}

#[test]
fn values_without_a_size_take_no_room() {
    let mut buffer: CircularBuffer<()> = CircularBuffer::new(4);
    assert_eq!(buffer.capacity(), usize::MAX);
    buffer.push(());
    buffer.push(());
    assert_eq!(buffer.storage().len(), 2);
    assert_eq!(buffer.iter().len(), 2);
    assert_eq!(CircularBuffer::<u8>::new(4).capacity(), 4);
}

#[test]
fn wrapped_values_come_in_the_order_of_the_slots() {
    let mut buffer: CircularBuffer<i32> = CircularBuffer::new(4);
    buffer.extend_from(&[1, 2, 3, 4, 5, 6]);
    assert_eq!(buffer.storage(), [5, 6, 3, 4].as_slice());
    assert_eq!(buffer.segments(), [[5, 6].as_slice(), [3, 4].as_slice()]);
    assert_eq!(collect(buffer.iter()), vec![5, 6, 3, 4]);
}

#[test]
fn one_slot_holds_the_last_value() {
    let mut buffer: CircularBuffer<i32> = CircularBuffer::new(1);
    buffer.push(1);
    buffer.push(2);
    assert_eq!(buffer.segments(), [[2].as_slice(), &[]]);
}

#[test]
fn pushes_compose() {
    let mut apart: CircularBuffer<i32> = CircularBuffer::new(5);
    apart.extend_from(&[1, 2, 3]);
    apart.extend_from(&[4, 5, 6, 7]);
    let mut at_once: CircularBuffer<i32> = CircularBuffer::new(5);
    at_once.extend_from(&[1, 2, 3, 4, 5, 6, 7]);
    assert_eq!(apart.storage(), at_once.storage());
    assert_eq!(apart.segments(), at_once.segments());
}

#[test]
fn newest_values_are_held() {
    let mut used: CircularBuffer<i32> = CircularBuffer::new(3);
    used.extend_from(&[9, 9, 9]);
    used.extend_from(&[1, 2, 3]);
    let mut fresh: CircularBuffer<i32> = CircularBuffer::new(3);
    fresh.extend_from(&[1, 2, 3]);
    assert_eq!(used.storage(), fresh.storage());
}

#[test]
fn slots_are_a_rotation() {
    let mut buffer: CircularBuffer<i32> = CircularBuffer::new(4);
    buffer.extend_from(&[1, 2, 3, 4, 5]);
    let slots = buffer.storage();
    assert_eq!([&slots[1..], &slots[..1]].concat(), vec![2, 3, 4, 5]);
}

#[test]
fn iter_counts_down() {
    let mut buffer: CircularBuffer<i32> = CircularBuffer::new(3);
    buffer.extend_from(&[1, 2, 3, 4]);
    let mut iter = buffer.iter();
    assert_eq!(iter.len(), 3);
    assert_eq!(iter.next(), Some(&4));
    assert_eq!(iter.len(), 2);
    assert_eq!(iter.next(), Some(&2));
    assert_eq!(iter.next(), Some(&3));
    assert_eq!(iter.next(), None);
    assert_eq!(iter.next(), None);
    assert_eq!(iter.len(), 0);
}

#[test]
fn last_keeps_the_end() {
    let mut buffer: CircularBuffer<i32> = CircularBuffer::new(4);
    buffer.extend_from(&[1, 2, 3, 4, 5, 6]);
    assert_eq!(collect(buffer.iter().last(0)), Vec::<i32>::new());
    assert_eq!(collect(buffer.iter().last(1)), vec![4]);
    assert_eq!(collect(buffer.iter().last(2)), vec![3, 4]);
    assert_eq!(collect(buffer.iter().last(3)), vec![6, 3, 4]);
    assert_eq!(collect(buffer.iter().last(4)), vec![5, 6, 3, 4]);
    assert_eq!(collect(buffer.iter().last(9)), vec![5, 6, 3, 4]);
}

#[test]
fn clone_goes_its_own_way() {
    let mut buffer: CircularBuffer<i32> = CircularBuffer::new(2);
    buffer.push(1);
    let mut copy = buffer.clone();
    copy.push(2);
    buffer.push(3);
    assert_eq!(copy.storage(), [1, 2].as_slice());
    assert_eq!(buffer.storage(), [1, 3].as_slice());
}
