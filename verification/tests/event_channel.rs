use tb_ecs::event_channel::EventChannel;
use tb_ecs::ring_vec::RingVec;

#[test]
fn drop_works() {
    let mut channel: EventChannel<()> = EventChannel::new();
    let reader = channel.register();
    channel.push(());

    channel.unregister(reader);

    channel.push(());
    drop(channel);
}

#[test]
fn read_twice_second_empty() {
    let mut channel: EventChannel<i32> = EventChannel::new();
    let reader = channel.register();
    channel.push(1);
    channel.push(2);
    let first = channel.read(&reader);
    assert_eq!(first, vec![1, 2]);
    let second = channel.read(&reader);
    assert_eq!(second, Vec::<i32>::new());
}

#[test]
fn ring_compaction_after_drain() {
    let mut channel: EventChannel<i32> = EventChannel::new();
    let reader = channel.register();
    for i in 0..5 {
        channel.push(i);
    }
    assert_eq!(channel.retained_len(), 5);
    let drained = channel.read(&reader);
    assert_eq!(drained, vec![0, 1, 2, 3, 4]);
    for i in 5..10 {
        channel.push(i);
    }
    // The first push after the drain compacted the five read events away.
    assert_eq!(channel.retained_len(), 5);
    let drained = channel.read(&reader);
    assert_eq!(drained, vec![5, 6, 7, 8, 9]);
    // One more push shows the retained count fell back to the new event
    // alone: everything drained was dropped.
    channel.push(10);
    assert_eq!(channel.retained_len(), 1);
}

#[test]
fn events_without_reader_are_discarded() {
    let mut channel: EventChannel<i32> = EventChannel::new();
    channel.push(1);
    assert_eq!(channel.retained_len(), 0);
    let reader = channel.register();
    channel.push(2);
    assert_eq!(channel.read(&reader), vec![2]);
}

#[test]
fn late_reader_sees_only_later_events() {
    let mut channel: EventChannel<i32> = EventChannel::new();
    let early = channel.register();
    channel.push(1);
    let late = channel.register();
    channel.push(2);
    assert_eq!(channel.read(&late), vec![2]);
    assert_eq!(channel.read(&early), vec![1, 2]);
}

#[test]
fn ring_cursor_positions() {
    let mut ring: RingVec<i32> = RingVec::new();
    let start = ring.end_cursor();
    ring.push_back(10);
    ring.push_back(20);
    assert_eq!(ring.len(), 2);
    assert_eq!(ring.get_by_cursor(start), Some(&10));
    assert_eq!(ring.pop_front(), Some(10));
    // The cursor of a popped element no longer resolves.
    assert_eq!(ring.get_by_cursor(start), None);
    let second = ring.end_cursor();
    assert_eq!(ring.pop_front(), Some(20));
    assert_eq!(ring.pop_front(), None);
    assert_eq!(ring.iter_from_cursor(second), Some(Vec::new()));
    assert_eq!(ring.iter_from_cursor(start), None);
}

#[test]
fn ring_iter_from_cursor() {
    let mut ring: RingVec<i32> = RingVec::new();
    ring.push_back(1);
    let mid = ring.end_cursor();
    ring.push_back(2);
    ring.push_back(3);
    assert_eq!(ring.iter_from_cursor(mid), Some(vec![2, 3]));
    ring.remove_to_cursor(mid);
    assert_eq!(ring.len(), 2);
    assert_eq!(ring.iter_from_cursor(mid), Some(vec![2, 3]));
    ring.clear();
    assert_eq!(ring.len(), 0);
}

#[test]
fn unregistered_slot_is_reused() {
    let mut channel: EventChannel<i32> = EventChannel::new();
    let first = channel.register();
    channel.unregister(first);
    // The freed slot is handed to the next reader instead of growing the
    // slot table; the new reader starts at the head as usual.
    let second = channel.register();
    channel.push(5);
    assert_eq!(channel.read(&second), vec![5]);
    assert_eq!(channel.read(&second), Vec::<i32>::new());
}
