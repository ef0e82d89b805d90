use engine::triple_buffer::{consumed_state, published_state, write_index_of, TripleBuffer, INITIAL_STATE};

#[test]
fn initial_state_no_new_frame() {
    let mut buf = TripleBuffer::<u32>::new();
    let mut render_idx = 2;
    assert!(!buf.consume(&mut render_idx));
    assert_eq!(render_idx, 2);
}

#[test]
fn new_fills_every_slot_with_the_default() {
    let buf = TripleBuffer::<u32>::new();
    for i in 0..3 {
        assert_eq!(*buf.render_slot(i), 0);
    }
    let strings = TripleBuffer::<String>::new();
    for i in 0..3 {
        assert!(strings.render_slot(i).is_empty());
    }
}

#[test]
fn write_publish_consume() {
    let mut buf = TripleBuffer::<u32>::new();
    let mut render_idx = 2usize;

    *buf.write_slot() = 42;
    buf.publish();

    assert!(buf.consume(&mut render_idx));
    assert_eq!(*buf.render_slot(render_idx), 42);
}

#[test]
fn double_publish_consumer_gets_latest() {
    let mut buf = TripleBuffer::<u32>::new();
    let mut render_idx = 2usize;

    *buf.write_slot() = 1;
    buf.publish();

    *buf.write_slot() = 2;
    buf.publish();

    assert!(buf.consume(&mut render_idx));
    assert_eq!(*buf.render_slot(render_idx), 2);

    assert!(!buf.consume(&mut render_idx));
}

#[test]
fn slots_never_alias() {
    let mut buf = TripleBuffer::<u32>::new();
    let mut render_idx = 2usize;

    for val in 0u32..16 {
        let write = buf.write_index();
        let ready = buf.ready_index();

        assert_ne!(write, ready);
        assert_ne!(write, render_idx);
        assert_ne!(ready, render_idx);

        *buf.write_slot() = val;
        buf.publish();
        buf.consume(&mut render_idx);
    }
}

#[test]
fn new_with_starts_with_given_slots() {
    let mut buf = TripleBuffer::new_with(10u32, 20, 30);
    assert_eq!(buf.write_index(), 0);
    assert_eq!(buf.ready_index(), 1);
    assert!(!buf.has_new_frame());
    assert_eq!(*buf.render_slot(2), 30);
    assert_eq!(*buf.write_slot(), 10);
}

#[test]
fn publish_swaps_write_and_ready() {
    let mut buf = TripleBuffer::<u32>::new();
    buf.publish();
    assert_eq!(buf.write_index(), 1);
    assert_eq!(buf.ready_index(), 0);
    assert!(buf.has_new_frame());
}

#[test]
fn consume_takes_ready_and_returns_render_slot() {
    let mut buf = TripleBuffer::<u32>::new();
    let mut render_idx = 2usize;
    buf.publish();
    assert!(buf.consume(&mut render_idx));
    assert_eq!(render_idx, 0);
    assert_eq!(buf.ready_index(), 2);
    assert_eq!(buf.write_index(), 1);
    assert!(!buf.has_new_frame());
}

#[test]
fn write_without_publish_is_not_delivered() {
    let mut buf = TripleBuffer::<u32>::new();
    let mut render_idx = 2usize;
    *buf.write_slot() = 7;
    assert!(!buf.consume(&mut render_idx));
    assert_eq!(render_idx, 2);
    assert_eq!(*buf.render_slot(render_idx), 0);
}

#[test]
fn state_byte_transitions() {
    assert_eq!(INITIAL_STATE, 0b0001_0000);
    assert_eq!(write_index_of(INITIAL_STATE), 0);
    let published = published_state(INITIAL_STATE);
    assert_eq!(published, 0b1000_0100);
    assert_eq!(write_index_of(published), 1);
    assert_eq!(consumed_state(INITIAL_STATE, 2), None);
    assert_eq!(consumed_state(published, 2), Some((0b0010_0100, 0)));
    // A second publish before the consume swaps the roles back.
    assert_eq!(published_state(published), 0b1001_0000);
}
