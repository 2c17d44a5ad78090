//! A shared handle on one pooled packet buffer.
use std::sync::Arc;
use vstd::prelude::*;

verus! {

/// One share of a packet buffer. Every handle holds one count of the
/// buffer's shared reference count; `duplicate` adds a count and dropping a
/// handle releases its count. The bytes are reclaimed exactly once, when the
/// last handle is released.
pub struct PacketBuffer {
    bytes: Arc<Vec<u8>>,
}

impl View for PacketBuffer {
    type V = Seq<u8>;

    closed spec fn view(&self) -> Seq<u8> {
        self.bytes@
    }
}

/// Relies on `Arc::strong_count`: the number of live handles that share the
/// allocation.
#[verifier::external_body]
fn shared_count(a: &Arc<Vec<u8>>) -> (r: usize) {
    Arc::strong_count(a)
}

impl PacketBuffer {
    /// Takes ownership of a freshly received buffer, whose count starts at one.
    pub fn from_raw(bytes: Vec<u8>) -> (r: PacketBuffer)
        ensures
            r@ == bytes@,
    {
        PacketBuffer { bytes: Arc::new(bytes) }
    }

    /// A new handle on the same buffer; the shared count goes up by one.
    pub fn duplicate(&self) -> (r: PacketBuffer)
        ensures
            r@ == self@,
    {
        PacketBuffer { bytes: self.bytes.clone() }
    }

    /// Number of bytes the buffer holds.
    pub fn capacity(&self) -> (r: usize)
        ensures
            r == self@.len(),
    {
        self.bytes.len()
    }

    /// The byte at position `i`.
    pub fn byte_at(&self, i: usize) -> (r: u8)
        requires
            i < self@.len(),
        ensures
            r == self@[i as int],
    {
        self.bytes[i]
    }

    /// The buffer's bytes, read in place.
    pub fn as_slice(&self) -> (r: &[u8])
        ensures
            r@ == self@,
    {
        self.bytes.as_slice()
    }

    /// How many handles currently share this buffer.
    pub fn handle_count(&self) -> usize {
        shared_count(&self.bytes)
    }
}

/// A step in the life of one buffer: a duplication (`true`) or a release
/// (`false`) of some live handle.
pub open spec fn shares_after(ops: Seq<bool>) -> int
    decreases ops.len(),
{
    if ops.len() == 0 {
        1
    } else {
        shares_after(ops.drop_last()) + if ops.last() { 1int } else { -1int }
    }
}

/// Every step of `ops` acts on a handle that is still alive: before each
/// duplication or release at least one share remains.
pub open spec fn acts_on_live(ops: Seq<bool>) -> bool {
    forall|i: int| 0 <= i < ops.len() ==> shares_after(#[trigger] ops.take(i)) >= 1
}

/// Number of duplications in `ops`.
pub open spec fn duplications(ops: Seq<bool>) -> nat
    decreases ops.len(),
{
    if ops.len() == 0 {
        0
    } else {
        duplications(ops.drop_last()) + if ops.last() { 1nat } else { 0nat }
    }
}

proof fn lemma_shares_count(ops: Seq<bool>)
    ensures
        shares_after(ops) == 1 + 2 * duplications(ops) - ops.len(),
    decreases ops.len(),
{
    if ops.len() > 0 {
        lemma_shares_count(ops.drop_last());
    }
}

/// A buffer that starts with one handle, is duplicated `n` times and whose
/// `n + 1` handles are then all released, in any order that only releases
/// live handles, reaches zero shares exactly once: after the very last
/// release, and at no earlier step.
pub proof fn lemma_reclaimed_once_after_last_release(ops: Seq<bool>, n: nat)
    requires
        duplications(ops) == n,
        ops.len() == 2 * n + 1,
        acts_on_live(ops),
    ensures
        shares_after(ops) == 0,
        forall|i: int| 0 <= i < ops.len() ==> shares_after(#[trigger] ops.take(i)) > 0,
{
    lemma_shares_count(ops);
}

} // verus!
