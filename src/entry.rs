//! Immutable entries and the read handles that keep them alive.
use crate::view::KeyValueView;
use std::sync::Arc;
use vstd::prelude::*;

verus! {

/// An immutable (key, value) pair. An update of a key builds a new entry;
/// no entry is changed after it is built.
pub struct Entry {
    key: KeyValueView,
    value: KeyValueView,
}

impl View for Entry {
    type V = (Seq<u8>, Seq<u8>);

    closed spec fn view(&self) -> (Seq<u8>, Seq<u8>) {
        (self.key@, self.value@)
    }
}

impl Entry {
    pub fn new(key: KeyValueView, value: KeyValueView) -> (r: Entry)
        ensures
            r@ == (key@, value@),
    {
        Entry { key, value }
    }

    /// Whether this entry's key holds the same bytes as `key`.
    pub fn key_matches(&self, key: &KeyValueView) -> (r: bool)
        ensures
            r == (self@.0 == key@),
    {
        self.key.content_eq(key)
    }

    pub fn key_ref(&self) -> (r: &KeyValueView)
        ensures
            r@ == self@.0,
    {
        &self.key
    }

    pub fn value_ref(&self) -> (r: &KeyValueView)
        ensures
            r@ == self@.1,
    {
        &self.value
    }

    /// Consumes the entry and hands its value over to the caller.
    pub fn value(self) -> (r: KeyValueView)
        ensures
            r@ == self@.1,
    {
        self.value
    }
}

/// A reader's share of one entry. Its bytes stay readable and unchanged for
/// as long as the handle lives, whatever later happens to the table.
pub struct ValueHolder {
    bucket: Arc<Entry>,
}

impl View for ValueHolder {
    type V = (Seq<u8>, Seq<u8>);

    closed spec fn view(&self) -> (Seq<u8>, Seq<u8>) {
        self.bucket@
    }
}

impl ValueHolder {
    pub(crate) fn new(entry: Arc<Entry>) -> (r: ValueHolder)
        ensures
            r@ == entry@,
    {
        ValueHolder { bucket: entry }
    }

    /// The value, read in place.
    pub fn value(&self) -> (r: &KeyValueView)
        ensures
            r@ == self@.1,
    {
        self.bucket.value_ref()
    }

    /// The key the value was stored under.
    pub fn key(&self) -> (r: &KeyValueView)
        ensures
            r@ == self@.0,
    {
        self.bucket.key_ref()
    }

    /// A copy of the value's bytes.
    pub fn to_vec(&self) -> (r: Vec<u8>)
        ensures
            r@ == self@.1,
    {
        self.bucket.value_ref().to_vec()
    }
}

impl std::ops::Deref for ValueHolder {
    type Target = KeyValueView;

    /// The value, read in place.
    fn deref(&self) -> (r: &KeyValueView)
        ensures
            r@ == self@.1,
    {
        self.bucket.value_ref()
    }
}

} // verus!
