use zerocopy_kv::bucket::{find_entry, with_entry, without_key};
use zerocopy_kv::buffer::PacketBuffer;
use zerocopy_kv::entry::Entry;
use zerocopy_kv::table::{lookup_in, ConcurrentTable};
use zerocopy_kv::view::{KeyValueView, Segment, FNV_OFFSET};
use std::sync::Arc;

fn view_of(bytes: &[u8]) -> KeyValueView {
    let buf = PacketBuffer::from_raw(bytes.to_vec());
    KeyValueView::build(vec![Segment::new(buf, 0, bytes.len())]).unwrap()
}

fn entries_for(table: &ConcurrentTable, key: &KeyValueView) -> usize {
    let snap = table.snapshot(table.bucket_of(key));
    snap.iter().filter(|e| e.key_matches(key)).count()
}

#[test]
fn second_insert_wins() {
    let t = ConcurrentTable::new(8, FNV_OFFSET);
    t.insert(view_of(b"k"), view_of(b"first"));
    t.insert(view_of(b"k"), view_of(b"second"));
    let h = t.lookup(&view_of(b"k")).unwrap();
    assert_eq!(h.to_vec(), b"second".to_vec());
    assert_eq!(h.key().to_vec(), b"k".to_vec());
    assert_eq!(h.len(), 6);
    assert_eq!(h.byte_at(0), b's');
    assert_eq!(entries_for(&t, &view_of(b"k")), 1);
}

#[test]
fn remove_then_lookup_is_absent() {
    let t = ConcurrentTable::new(4, FNV_OFFSET);
    t.insert(view_of(b"gone"), view_of(b"v"));
    t.insert(view_of(b"kept"), view_of(b"w"));
    let removed = t.remove(&view_of(b"gone")).unwrap();
    assert_eq!(removed.to_vec(), b"v".to_vec());
    assert!(t.lookup(&view_of(b"gone")).is_none());
    assert_eq!(t.lookup(&view_of(b"kept")).unwrap().to_vec(), b"w".to_vec());
}

#[test]
fn remove_of_absent_key_changes_nothing() {
    let t = ConcurrentTable::new(1, FNV_OFFSET);
    t.insert(view_of(b"a"), view_of(b"1"));
    t.insert(view_of(b"b"), view_of(b"2"));
    let before = t.snapshot(0);
    assert!(t.lookup(&view_of(b"zz")).is_none());
    assert!(t.remove(&view_of(b"zz")).is_none());
    let after = t.snapshot(0);
    assert!(Arc::ptr_eq(&before, &after));
    assert_eq!(after.len(), 2);
}

#[test]
fn handle_outlives_removal_and_replacement() {
    let t = ConcurrentTable::new(16, 99);
    t.insert(view_of(b"key"), view_of(b"old bytes"));
    let h = t.lookup(&view_of(b"key")).unwrap();
    t.insert(view_of(b"key"), view_of(b"new bytes"));
    assert_eq!(h.to_vec(), b"old bytes".to_vec());
    let h2 = t.lookup(&view_of(b"key")).unwrap();
    t.remove(&view_of(b"key"));
    assert_eq!(h.to_vec(), b"old bytes".to_vec());
    assert_eq!(h2.value().to_vec(), b"new bytes".to_vec());
    assert!(t.lookup(&view_of(b"key")).is_none());
}

#[test]
fn key_from_other_buffer_finds_entry() {
    let t = ConcurrentTable::new(32, FNV_OFFSET);
    let packet = PacketBuffer::from_raw(b"SET user:1 alice".to_vec());
    let key = KeyValueView::build(vec![Segment::new(packet.duplicate(), 4, 6)]).unwrap();
    let value = KeyValueView::build(vec![Segment::new(packet.duplicate(), 11, 5)]).unwrap();
    t.insert(key, value);
    drop(packet);
    let probe = view_of(b"user:1");
    assert_eq!(t.lookup(&probe).unwrap().to_vec(), b"alice".to_vec());
}

#[test]
fn many_keys_in_few_buckets() {
    let t = ConcurrentTable::new(3, FNV_OFFSET);
    assert_eq!(t.bucket_count(), 3);
    for i in 0u8..40 {
        t.insert(view_of(&[b'k', i]), view_of(&[i, i]));
    }
    for i in 0u8..40 {
        let k = view_of(&[b'k', i]);
        assert!(t.bucket_of(&k) < 3);
        assert_eq!(t.lookup(&k).unwrap().to_vec(), vec![i, i]);
        assert_eq!(entries_for(&t, &k), 1);
    }
    let total: usize = (0..3).map(|b| t.snapshot(b).len()).sum();
    assert_eq!(total, 40);
}

#[test]
fn bucket_sequences_are_built_anew() {
    let e1 = Arc::new(Entry::new(view_of(b"a"), view_of(b"1")));
    let e2 = Arc::new(Entry::new(view_of(b"b"), view_of(b"2")));
    let e3 = Arc::new(Entry::new(view_of(b"a"), view_of(b"3")));
    let s1 = with_entry(&Vec::new(), e1);
    let s2 = with_entry(&s1, e2);
    let s3 = with_entry(&s2, e3);
    assert_eq!(s2.len(), 2);
    assert_eq!(s3.len(), 2);
    assert_eq!(s3[0].key_ref().to_vec(), b"b".to_vec());
    assert_eq!(s3[1].value_ref().to_vec(), b"3".to_vec());
    let found = find_entry(&s2, &view_of(b"a")).unwrap();
    assert_eq!(found.value_ref().to_vec(), b"1".to_vec());
    let s4 = without_key(&s3, &view_of(b"b"));
    assert_eq!(s4.len(), 1);
    assert!(find_entry(&s4, &view_of(b"b")).is_none());
    assert_eq!(without_key(&s4, &view_of(b"q")).len(), 1);
}

#[test]
fn entry_gives_up_its_value() {
    let e = Entry::new(view_of(b"k"), view_of(b"payload"));
    assert!(e.key_matches(&view_of(b"k")));
    assert!(!e.key_matches(&view_of(b"K")));
    let v = e.value();
    assert_eq!(v.to_vec(), b"payload".to_vec());
}

fn shareable<T: Send + Sync>() {}

#[test]
fn table_and_handles_cross_threads() {
    shareable::<ConcurrentTable>();
    shareable::<zerocopy_kv::entry::ValueHolder>();
    shareable::<PacketBuffer>();
}

#[test]
fn lookup_on_one_published_sequence() {
    let e1 = Arc::new(Entry::new(view_of(b"x"), view_of(b"10")));
    let e2 = Arc::new(Entry::new(view_of(b"y"), view_of(b"20")));
    let seq = with_entry(&with_entry(&Vec::new(), e1), e2);
    let h = lookup_in(&seq, &view_of(b"y")).unwrap();
    assert_eq!(h.to_vec(), b"20".to_vec());
    assert_eq!(h.key().to_vec(), b"y".to_vec());
    assert!(lookup_in(&seq, &view_of(b"z")).is_none());
    assert!(lookup_in(&Vec::new(), &view_of(b"x")).is_none());
}
