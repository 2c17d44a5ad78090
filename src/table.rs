//! A concurrent hash table with a fixed number of buckets. Each bucket
//! publishes an immutable sequence of entries; readers take the current
//! sequence in one step, and writers build a new sequence and swap it in
//! with a compare-and-swap on the bucket's version.
//!
//! A bucket's published reference sits behind a reader-writer lock that is
//! held only for the load of the reference or for the compare-and-swap
//! itself, never while a sequence is searched or built. After a bounded
//! number of lost races a writer builds its sequence while holding the
//! write side, so that every write ends.
use crate::bucket::{
    all_keys, find, find_entry, lemma_remove_then_lookup, lemma_strip_unique, lemma_upsert,
    lemma_upsert_all_keys, unique_keys, views, with_entry, without_key,
};
use crate::entry::{Entry, ValueHolder};
use crate::view::{hash_of, KeyValueView};
use std::sync::Arc;
use vstd::prelude::*;
use vstd::rwlock::{RwLock, RwLockPredicate};

verus! {

/// How many times a writer retries its compare-and-swap before it builds
/// its sequence while holding the bucket's write side.
pub const OPTIMISTIC_ATTEMPTS: usize = 64;

/// The keys that belong in bucket `index` of a table of `n` buckets.
pub open spec fn placed_at(seed: u64, n: nat, index: int) -> spec_fn(Seq<u8>) -> bool {
    |k: Seq<u8>| (hash_of(seed, k) as int) % (n as int) == index
}

/// What every sequence that bucket `index` publishes satisfies: at most one
/// entry per key, and only keys that hash to this bucket.
pub open spec fn published_ok(entries: Seq<Arc<Entry>>, seed: u64, n: nat, index: int) -> bool {
    &&& unique_keys(views(entries))
    &&& all_keys(views(entries), placed_at(seed, n, index))
}

/// `r` is what a lookup of `k` answers on the published sequence `s`: no
/// handle when `s` has no entry for `k`, else a handle on that entry.
pub open spec fn answers(s: Seq<Arc<Entry>>, k: Seq<u8>, r: Option<ValueHolder>) -> bool {
    match r {
        None => find(views(s), k) is None,
        Some(h) => h@.0 == k && find(views(s), k) == Some(h@.1),
    }
}

/// What a lookup of `key` answers on the sequence `entries` that a bucket
/// published: a handle on the entry for `key`, or `None` when there is none.
pub fn lookup_in(entries: &Vec<Arc<Entry>>, key: &KeyValueView) -> (r: Option<ValueHolder>)
    ensures
        answers(entries@, key@, r),
{
    match find_entry(entries, key) {
        Some(e) => Some(ValueHolder::new(e)),
        None => None,
    }
}

/// A bucket's current sequence, with the number of writes that produced it
/// (counted modulo 2^64).
struct Published {
    version: u64,
    entries: Arc<Vec<Arc<Entry>>>,
}

/// The rule that the published sequence of one bucket obeys.
struct BucketRule {
    seed: u64,
    n: usize,
    index: usize,
}

impl RwLockPredicate<Published> for BucketRule {
    closed spec fn inv(self, p: Published) -> bool {
        published_ok(p.entries@, self.seed, self.n as nat, self.index as int)
    }
}

/// A fixed number of buckets, and the seed of the hash that places each key
/// in one of them. It never grows or rehashes.
pub struct ConcurrentTable {
    buckets: Vec<RwLock<Published, BucketRule>>,
    seed: u64,
}

impl ConcurrentTable {
    #[verifier::type_invariant]
    closed spec fn type_inv(&self) -> bool {
        self.wf()
    }

    closed spec fn wf(&self) -> bool {
        &&& 0 < self.buckets@.len() <= usize::MAX
        &&& forall|i: int|
            0 <= i < self.buckets@.len() ==> (#[trigger] self.buckets@[i]).pred() == (BucketRule {
                seed: self.seed,
                n: self.buckets@.len() as usize,
                index: i as usize,
            })
    }

    /// Number of buckets, fixed when the table is made.
    pub closed spec fn spec_bucket_count(&self) -> nat {
        self.buckets@.len()
    }

    /// Seed of the hash that places keys in buckets.
    pub closed spec fn spec_seed(&self) -> u64 {
        self.seed
    }

    /// The bucket of a key in this table.
    pub open spec fn spec_bucket_of(&self, k: Seq<u8>) -> int {
        (hash_of(self.spec_seed(), k) as int) % (self.spec_bucket_count() as int)
    }

    /// An empty table of `n` buckets whose keys are placed by the FNV-1a hash
    /// of their bytes, started from `seed`.
    pub fn new(n: usize, seed: u64) -> (r: ConcurrentTable)
        requires
            n > 0,
        ensures
            r.spec_bucket_count() == n,
            r.spec_seed() == seed,
    {
        let mut buckets: Vec<RwLock<Published, BucketRule>> = Vec::new();
        let mut i: usize = 0;
        while i < n
            invariant
                i <= n,
                buckets@.len() == i,
                forall|j: int|
                    0 <= j < i ==> (#[trigger] buckets@[j]).pred() == (BucketRule {
                        seed: seed,
                        n: n,
                        index: j as usize,
                    }),
            decreases n - i,
        {
            let empty: Vec<Arc<Entry>> = Vec::new();
            let rule = Ghost(BucketRule { seed: seed, n: n, index: i });
            let first = Published { version: 0, entries: Arc::new(empty) };
            proof {
                assert(views(first.entries@) =~= Seq::<(Seq<u8>, Seq<u8>)>::empty());
            }
            buckets.push(RwLock::new(first, rule));
            i = i + 1;
        }
        ConcurrentTable { buckets, seed }
    }

    pub fn bucket_count(&self) -> (r: usize)
        ensures
            r == self.spec_bucket_count(),
            r > 0,
    {
        proof {
            use_type_invariant(self);
        }
        self.buckets.len()
    }

    /// The bucket that holds `key`.
    pub fn bucket_of(&self, key: &KeyValueView) -> (r: usize)
        ensures
            r == self.spec_bucket_of(key@),
            r < self.spec_bucket_count(),
    {
        let n = self.bucket_count();
        let h = key.hash_key(self.seed);
        (h % (n as u64)) as usize
    }

    /// The sequence that bucket `index` publishes now. It never holds two
    /// entries with one key, nor a key that belongs to another bucket.
    pub fn snapshot(&self, index: usize) -> (r: Arc<Vec<Arc<Entry>>>)
        requires
            index < self.spec_bucket_count(),
        ensures
            published_ok(r@, self.spec_seed(), self.spec_bucket_count(), index as int),
    {
        self.load(index).1
    }

    fn load(&self, index: usize) -> (r: (u64, Arc<Vec<Arc<Entry>>>))
        requires
            index < self.spec_bucket_count(),
        ensures
            published_ok(r.1@, self.spec_seed(), self.spec_bucket_count(), index as int),
    {
        proof {
            use_type_invariant(self);
        }
        let lock = &self.buckets[index];
        assert(lock.pred() == self.buckets@[index as int].pred());
        let reader = lock.acquire_read();
        let current = reader.borrow();
        let version = current.version;
        let entries = current.entries.clone();
        reader.release_read();
        (version, entries)
    }

    /// Publishes `next` in bucket `index` if the bucket is still at
    /// `expected`; says whether it did.
    fn compare_and_swap(&self, index: usize, expected: u64, next: Vec<Arc<Entry>>) -> (r: bool)
        requires
            index < self.spec_bucket_count(),
            published_ok(next@, self.spec_seed(), self.spec_bucket_count(), index as int),
    {
        proof {
            use_type_invariant(self);
        }
        let lock = &self.buckets[index];
        assert(lock.pred() == self.buckets@[index as int].pred());
        let (current, writer) = lock.acquire_write();
        if current.version == expected {
            let version = current.version.wrapping_add(1);
            writer.release_write(Published { version, entries: Arc::new(next) });
            true
        } else {
            writer.release_write(current);
            false
        }
    }

    /// The value stored for `key`, read from one published sequence of its
    /// bucket; `None` when that sequence has no entry for `key`. Key and
    /// value always come from one entry, that is from one write.
    pub fn lookup(&self, key: &KeyValueView) -> (r: Option<ValueHolder>)
        ensures
            exists|s: Seq<Arc<Entry>>|
                published_ok(s, self.spec_seed(), self.spec_bucket_count(), self.spec_bucket_of(key@))
                    && #[trigger] answers(s, key@, r),
    {
        let index = self.bucket_of(key);
        let entries = self.load(index).1;
        lookup_in(&entries, key)
    }
    /// Stores `value` under `key`. The bucket's next sequence is its current
    /// one without the old entry for `key` and with the new entry at the
    /// end, so the bucket keeps exactly one entry for `key`.
    pub fn insert(&self, key: KeyValueView, value: KeyValueView) {
        let index = self.bucket_of(&key);
        let entry = Arc::new(Entry::new(key, value));
        let ghost seed = self.spec_seed();
        let ghost n = self.spec_bucket_count();
        let mut attempts: usize = 0;
        while attempts < OPTIMISTIC_ATTEMPTS
            invariant
                index < n,
                n == self.spec_bucket_count(),
                seed == self.spec_seed(),
                placed_at(seed, n, index as int)(entry@.0),
            decreases OPTIMISTIC_ATTEMPTS - attempts,
        {
            let (version, current) = self.load(index);
            let next = with_entry(&current, entry.clone());
            proof {
                lemma_upsert(views(current@), entry@.0, entry@.1);
                lemma_upsert_all_keys(views(current@), entry@.0, entry@.1, placed_at(seed, n, index as int));
            }
            if self.compare_and_swap(index, version, next) {
                return;
            }
            attempts = attempts + 1;
        }
        proof {
            use_type_invariant(self);
        }
        let lock = &self.buckets[index];
        assert(lock.pred() == self.buckets@[index as int].pred());
        let (current, writer) = lock.acquire_write();
        let next = with_entry(&current.entries, entry);
        proof {
            lemma_upsert(views(current.entries@), entry@.0, entry@.1);
            lemma_upsert_all_keys(views(current.entries@), entry@.0, entry@.1, placed_at(seed, n, index as int));
        }
        let version = current.version.wrapping_add(1);
        writer.release_write(Published { version, entries: Arc::new(next) });
    }

    /// Takes the entry for `key` out of its bucket and returns a handle on
    /// it. When the bucket has no entry for `key` it returns `None`, as a
    /// lookup would, and publishes nothing.
    pub fn remove(&self, key: &KeyValueView) -> (r: Option<ValueHolder>)
        ensures
            exists|s: Seq<Arc<Entry>>|
                published_ok(s, self.spec_seed(), self.spec_bucket_count(), self.spec_bucket_of(key@))
                    && #[trigger] answers(s, key@, r),
    {
        let index = self.bucket_of(key);
        let ghost seed = self.spec_seed();
        let ghost n = self.spec_bucket_count();
        let mut attempts: usize = 0;
        while attempts < OPTIMISTIC_ATTEMPTS
            invariant
                index < n,
                index == self.spec_bucket_of(key@),
                n == self.spec_bucket_count(),
                seed == self.spec_seed(),
            decreases OPTIMISTIC_ATTEMPTS - attempts,
        {
            let (version, current) = self.load(index);
            let found = match find_entry(&current, key) {
                Some(e) => e,
                None => {
                    assert(answers(current@, key@, None));
                    return None;
                },
            };
            let next = without_key(&current, key);
            proof {
                lemma_remove_then_lookup(views(current@), key@);
                lemma_upsert_all_keys(views(current@), key@, Seq::empty(), placed_at(seed, n, index as int));
                lemma_strip_unique(views(current@), key@);
            }
            if self.compare_and_swap(index, version, next) {
                let r = Some(ValueHolder::new(found));
                assert(answers(current@, key@, r));
                return r;
            }
            attempts = attempts + 1;
        }
        proof {
            use_type_invariant(self);
        }
        let lock = &self.buckets[index];
        assert(lock.pred() == self.buckets@[index as int].pred());
        let (current, writer) = lock.acquire_write();
        let found = find_entry(&current.entries, key);
        let next = without_key(&current.entries, key);
        proof {
            lemma_upsert_all_keys(views(current.entries@), key@, Seq::empty(), placed_at(seed, n, index as int));
            lemma_strip_unique(views(current.entries@), key@);
        }
        match found {
            Some(e) => {
                let version = current.version.wrapping_add(1);
                let r = Some(ValueHolder::new(e));
                assert(answers(current.entries@, key@, r));
                writer.release_write(Published { version, entries: Arc::new(next) });
                r
            },
            None => {
                assert(answers(current.entries@, key@, None));
                writer.release_write(current);
                None
            },
        }
    }
}

} // verus!
