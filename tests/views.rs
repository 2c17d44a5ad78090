use zerocopy_kv::buffer::PacketBuffer;
use zerocopy_kv::view::{KeyValueView, Segment, ViewError, FNV_OFFSET};

fn numbered(n: u8) -> PacketBuffer {
    PacketBuffer::from_raw((0..n).collect())
}

fn one_segment(buf: &PacketBuffer, offset: usize, len: usize) -> KeyValueView {
    KeyValueView::build(vec![Segment::new(buf.duplicate(), offset, len)]).unwrap()
}

#[test]
fn single_segment_reads_its_range() {
    let a = numbered(32);
    let v = one_segment(&a, 10, 10);
    assert_eq!(v.len(), 10);
    assert_eq!(v.to_vec(), (10u8..20).collect::<Vec<u8>>());
    assert_eq!(v.byte_at(0), 10);
    assert_eq!(v.byte_at(9), 19);
}

#[test]
fn two_segments_concatenate() {
    let a = PacketBuffer::from_raw(vec![1, 2, 3, 4, 5, 6, 7]);
    let b = PacketBuffer::from_raw(vec![11, 12, 13, 14, 15]);
    let v = KeyValueView::build(vec![
        Segment::new(a.duplicate(), 0, 5),
        Segment::new(b.duplicate(), 0, 5),
    ])
    .unwrap();
    assert_eq!(v.len(), 10);
    assert_eq!(v.to_vec(), vec![1, 2, 3, 4, 5, 11, 12, 13, 14, 15]);
    assert_eq!(v.byte_at(4), 5);
    assert_eq!(v.byte_at(5), 11);
}

#[test]
fn empty_view_has_no_bytes() {
    let v = KeyValueView::build(Vec::new()).unwrap();
    assert_eq!(v.len(), 0);
    assert!(v.to_vec().is_empty());
    assert_eq!(v.hash_key(FNV_OFFSET), FNV_OFFSET);
}

#[test]
fn segment_past_buffer_end_is_refused() {
    let a = numbered(8);
    let b = numbered(4);
    let r = KeyValueView::build(vec![
        Segment::new(a.duplicate(), 0, 8),
        Segment::new(b.duplicate(), 2, 3),
        Segment::new(a.duplicate(), 9, 0),
    ]);
    assert_eq!(r.err(), Some(ViewError::OutOfBounds { segment: 1 }));
    let r = KeyValueView::build(vec![Segment::new(a.duplicate(), 9, 0)]);
    assert_eq!(r.err(), Some(ViewError::OutOfBounds { segment: 0 }));
    let r = KeyValueView::build(vec![Segment::new(a.duplicate(), 8, 0)]);
    assert!(r.is_ok());
}

#[test]
fn fnv_hash_of_known_input() {
    let buf = PacketBuffer::from_raw(b"xa".to_vec());
    let v = one_segment(&buf, 1, 1);
    assert_eq!(v.hash_key(FNV_OFFSET), 0xaf63dc4c8601ec8c);
    let buf = PacketBuffer::from_raw(b"foobar".to_vec());
    let v = one_segment(&buf, 0, 6);
    assert_eq!(v.hash_key(FNV_OFFSET), 0x85944171f73967e8);
}

#[test]
fn equal_bytes_in_different_buffers_are_equal_keys() {
    let a = PacketBuffer::from_raw(b"hello world".to_vec());
    let b = PacketBuffer::from_raw(b"he".to_vec());
    let c = PacketBuffer::from_raw(b"__llo".to_vec());
    let x = one_segment(&a, 0, 5);
    let y = KeyValueView::build(vec![
        Segment::new(b.duplicate(), 0, 2),
        Segment::new(c.duplicate(), 2, 3),
    ])
    .unwrap();
    assert!(x == y);
    assert!(x.content_eq(&y));
    assert_eq!(x.hash_key(7), y.hash_key(7));
    let z = one_segment(&a, 6, 5);
    assert!(x != z);
    assert!(!x.content_eq(&z));
}

#[test]
fn view_keeps_buffer_alive() {
    let v = {
        let a = PacketBuffer::from_raw(vec![9, 8, 7]);
        one_segment(&a, 1, 2)
    };
    assert_eq!(v.to_vec(), vec![8, 7]);
}
