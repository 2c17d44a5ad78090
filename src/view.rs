//! Zero-copy byte views made of segments of packet buffers.
use crate::buffer::PacketBuffer;
use vstd::prelude::*;
use vstd::std_specs::cmp::PartialEqSpec;

verus! {

/// A byte range `offset .. offset + len` of one packet buffer.
pub struct Segment {
    pub buf: PacketBuffer,
    pub offset: usize,
    pub len: usize,
}

impl Segment {
    pub fn new(buf: PacketBuffer, offset: usize, len: usize) -> (r: Segment)
        ensures
            r.buf@ == buf@,
            r.offset == offset,
            r.len == len,
    {
        Segment { buf, offset, len }
    }

    /// The range lies inside its buffer.
    pub open spec fn in_bounds(&self) -> bool {
        self.offset + self.len <= self.buf@.len()
    }

    /// The bytes the segment covers.
    pub open spec fn bytes(&self) -> Seq<u8> {
        self.buf@.subrange(self.offset as int, self.offset + self.len)
    }
}

/// The bytes of `segs`, one segment after another.
pub open spec fn concat(segs: Seq<Segment>) -> Seq<u8>
    decreases segs.len(),
{
    if segs.len() == 0 {
        Seq::empty()
    } else {
        concat(segs.drop_last()) + segs.last().bytes()
    }
}

/// Sum of the segments' lengths.
pub open spec fn total_len(segs: Seq<Segment>) -> int
    decreases segs.len(),
{
    if segs.len() == 0 {
        0
    } else {
        total_len(segs.drop_last()) + segs.last().len
    }
}

/// Index of the first segment that reaches past the end of its buffer.
pub open spec fn first_out_of_bounds(segs: Seq<Segment>, i: int) -> bool {
    &&& 0 <= i < segs.len()
    &&& !segs[i].in_bounds()
    &&& forall|j: int| 0 <= j < i ==> (#[trigger] segs[j]).in_bounds()
}

/// Why a view could not be built.
#[derive(Debug, PartialEq, Eq, Structural)]
pub enum ViewError {
    /// The segment at this position asks for bytes outside its buffer.
    OutOfBounds { segment: usize },
}

/// A read-only byte sequence: the concatenation of its segments. It holds a
/// share of every buffer it reads from for as long as it lives.
pub struct KeyValueView {
    segments: Vec<Segment>,
    total: usize,
}

impl View for KeyValueView {
    type V = Seq<u8>;

    closed spec fn view(&self) -> Seq<u8> {
        concat(self.segments@)
    }
}

proof fn lemma_concat_len(segs: Seq<Segment>)
    requires
        forall|j: int| 0 <= j < segs.len() ==> (#[trigger] segs[j]).in_bounds(),
    ensures
        concat(segs).len() == total_len(segs),
    decreases segs.len(),
{
    if segs.len() > 0 {
        let p = segs.drop_last();
        assert forall|j: int| 0 <= j < p.len() implies (#[trigger] p[j]).in_bounds() by {
            assert(p[j] == segs[j]);
        }
        lemma_concat_len(p);
        assert(segs.last() == segs[segs.len() - 1]);
    }
}

proof fn lemma_concat_prefix(segs: Seq<Segment>, k: int)
    requires
        0 <= k <= segs.len(),
        forall|j: int| 0 <= j < segs.len() ==> (#[trigger] segs[j]).in_bounds(),
    ensures
        concat(segs.take(k)).len() <= concat(segs).len(),
        forall|i: int|
            0 <= i < concat(segs.take(k)).len() ==> #[trigger] concat(segs.take(k))[i] == concat(
                segs,
            )[i],
    decreases segs.len() - k,
{
    if k == segs.len() {
        assert(segs.take(k) =~= segs);
    } else {
        lemma_concat_prefix(segs, k + 1);
        assert(segs.take(k + 1).drop_last() =~= segs.take(k));
        let a = concat(segs.take(k));
        let b = concat(segs.take(k + 1));
        assert(b == a + segs.take(k + 1).last().bytes());
        assert forall|i: int| 0 <= i < a.len() implies #[trigger] a[i] == concat(segs)[i] by {
            assert(a[i] == b[i]);
        }
    }
}

/// Multiplier of the 64-bit FNV-1a hash.
pub const FNV_PRIME: u64 = 0x100000001b3;

/// Starting state of the 64-bit FNV-1a hash; a table may pick another seed.
pub const FNV_OFFSET: u64 = 0xcbf29ce484222325;

/// One FNV-1a step: fold byte `b` into state `h`.
pub open spec fn mix(h: u64, b: u8) -> u64 {
    vstd::wrapping::u64_specs::wrapping_mul(h ^ (b as u64), FNV_PRIME)
}

/// FNV-1a of `bytes`, starting from `seed`.
pub open spec fn hash_of(seed: u64, bytes: Seq<u8>) -> u64
    decreases bytes.len(),
{
    if bytes.len() == 0 {
        seed
    } else {
        mix(hash_of(seed, bytes.drop_last()), bytes.last())
    }
}

impl KeyValueView {
    #[verifier::type_invariant]
    closed spec fn type_inv(&self) -> bool {
        self.wf()
    }

    pub closed spec fn wf(&self) -> bool {
        &&& forall|j: int| 0 <= j < self.segments@.len() ==> (#[trigger] self.segments@[j]).in_bounds()
        &&& self.total == total_len(self.segments@)
    }

    /// Builds a view from `segments`, in order. Fails, and builds nothing,
    /// when a segment asks for bytes outside its buffer.
    pub fn build(segments: Vec<Segment>) -> (r: Result<KeyValueView, ViewError>)
        requires
            total_len(segments@) <= usize::MAX,
        ensures
            r is Ok <==> forall|j: int| 0 <= j < segments@.len() ==> (#[trigger] segments@[j]).in_bounds(),
            r matches Ok(v) ==> v@ == concat(segments@),
            r matches Err(ViewError::OutOfBounds { segment }) ==> first_out_of_bounds(segments@, segment as int),
    {
        let mut total: usize = 0;
        let mut k: usize = 0;
        while k < segments.len()
            invariant
                k <= segments@.len(),
                total_len(segments@) <= usize::MAX,
                total == total_len(segments@.take(k as int)),
                forall|j: int| 0 <= j < k ==> (#[trigger] segments@[j]).in_bounds(),
            decreases segments@.len() - k,
        {
            let s = &segments[k];
            if s.offset > s.buf.capacity() || s.len > s.buf.capacity() - s.offset {
                return Err(ViewError::OutOfBounds { segment: k });
            }
            proof {
                assert(segments@.take(k + 1).drop_last() =~= segments@.take(k as int));
                lemma_total_prefix(segments@, k as int + 1);
            }
            total = total + s.len;
            k = k + 1;
        }
        proof {
            assert(segments@.take(k as int) =~= segments@);
        }
        Ok(KeyValueView { segments, total })
    }

    /// Number of bytes in the view.
    pub fn len(&self) -> (r: usize)
        ensures
            r == self@.len(),
    {
        proof {
            use_type_invariant(self);
            lemma_concat_len(self.segments@);
        }
        self.total
    }

    /// The byte at position `i` of the view.
    pub fn byte_at(&self, i: usize) -> (r: u8)
        requires
            i < self@.len(),
        ensures
            r == self@[i as int],
    {
        proof {
            use_type_invariant(self);
        }
        let ghost segs = self.segments@;
        let mut start: usize = 0;
        let mut k: usize = 0;
        proof {
            lemma_concat_len(segs);
        }
        while k < self.segments.len()
            invariant
                self.wf(),
                segs == self.segments@,
                i < concat(segs).len(),
                k <= segs.len(),
                start == concat(segs.take(k as int)).len(),
                start <= i,
                concat(segs.take(k as int)).len() <= concat(segs).len(),
            decreases segs.len() - k,
        {
            let s = &self.segments[k];
            let cap = s.buf.capacity();
            let ghost before = concat(segs.take(k as int));
            let ghost after = concat(segs.take(k + 1));
            proof {
                assert(segs.take(k + 1).drop_last() =~= segs.take(k as int));
                assert(segs.take(k + 1).last() == segs[k as int]);
                assert(s.in_bounds());
                assert(after == before + s.bytes());
            }
            if i - start < s.len {
                proof {
                    lemma_concat_prefix(segs, k + 1);
                    assert(after[i as int] == s.bytes()[i - start]);
                    assert(after[i as int] == concat(segs)[i as int]);
                }
                return s.buf.byte_at(s.offset + (i - start));
            }
            proof {
                lemma_concat_prefix(segs, k + 1);
            }
            start = start + s.len;
            k = k + 1;
        }
        proof {
            assert(segs.take(k as int) =~= segs);
        }
        0
    }

    /// FNV-1a of the view's bytes, starting from `seed`. It depends on the
    /// bytes alone, not on the buffers that hold them.
    pub fn hash_key(&self, seed: u64) -> (r: u64)
        ensures
            r == hash_of(seed, self@),
    {
        proof {
            use_type_invariant(self);
        }
        let ghost segs = self.segments@;
        let mut h: u64 = seed;
        let mut k: usize = 0;
        proof {
            assert(concat(segs.take(0)) =~= Seq::<u8>::empty());
        }
        while k < self.segments.len()
            invariant
                self.wf(),
                segs == self.segments@,
                k <= segs.len(),
                h == hash_of(seed, concat(segs.take(k as int))),
            decreases segs.len() - k,
        {
            let s = &self.segments[k];
            assert(s.in_bounds());
            let cap = s.buf.capacity();
            let ghost done = concat(segs.take(k as int));
            let mut j: usize = 0;
            proof {
                assert(done + s.bytes().take(0) =~= done);
            }
            while j < s.len
                invariant
                    s.in_bounds(),
                    cap == s.buf@.len(),
                    j <= s.len,
                    h == hash_of(seed, done + s.bytes().take(j as int)),
                decreases s.len - j,
            {
                let b = s.buf.byte_at(s.offset + j);
                proof {
                    let p = done + s.bytes().take(j as int);
                    let q = done + s.bytes().take(j + 1);
                    assert(q.drop_last() =~= p);
                    assert(q.last() == b);
                }
                h = (h ^ (b as u64)).wrapping_mul(FNV_PRIME);
                j = j + 1;
            }
            proof {
                assert(segs.take(k + 1).drop_last() =~= segs.take(k as int));
                assert(segs.take(k + 1).last() == segs[k as int]);
                assert(s.bytes().take(j as int) =~= s.bytes());
            }
            k = k + 1;
        }
        proof {
            assert(segs.take(k as int) =~= segs);
        }
        h
    }

    /// Whether the two views hold the same bytes, whichever buffers back them.
    pub fn content_eq(&self, other: &KeyValueView) -> (r: bool)
        ensures
            r == (self@ == other@),
    {
        let n = self.len();
        if n != other.len() {
            return false;
        }
        let mut i: usize = 0;
        while i < n
            invariant
                n == self@.len(),
                n == other@.len(),
                i <= n,
                forall|j: int| 0 <= j < i ==> self@[j] == other@[j],
            decreases n - i,
        {
            if self.byte_at(i) != other.byte_at(i) {
                return false;
            }
            i = i + 1;
        }
        proof {
            assert(self@ =~= other@);
        }
        true
    }

    /// A copy of the view's bytes.
    pub fn to_vec(&self) -> (r: Vec<u8>)
        ensures
            r@ == self@,
    {
        proof {
            use_type_invariant(self);
        }
        let ghost segs = self.segments@;
        let mut out: Vec<u8> = Vec::new();
        let mut k: usize = 0;
        while k < self.segments.len()
            invariant
                self.wf(),
                segs == self.segments@,
                k <= segs.len(),
                out@ == concat(segs.take(k as int)),
            decreases segs.len() - k,
        {
            let s = &self.segments[k];
            assert(s.in_bounds());
            let cap = s.buf.capacity();
            let mut j: usize = 0;
            while j < s.len
                invariant
                    s.in_bounds(),
                    cap == s.buf@.len(),
                    j <= s.len,
                    out@ == concat(segs.take(k as int)) + s.bytes().take(j as int),
                decreases s.len - j,
            {
                out.push(s.buf.byte_at(s.offset + j));
                proof {
                    assert(s.bytes().take(j + 1) =~= s.bytes().take(j as int).push(s.buf@[s.offset + j]));
                }
                j = j + 1;
            }
            proof {
                assert(segs.take(k + 1).drop_last() =~= segs.take(k as int));
                assert(segs.take(k + 1).last() == segs[k as int]);
                assert(s.bytes().take(j as int) =~= s.bytes());
            }
            k = k + 1;
        }
        proof {
            assert(segs.take(k as int) =~= segs);
        }
        out
    }
}

proof fn lemma_total_prefix(segs: Seq<Segment>, k: int)
    requires
        0 <= k <= segs.len(),
    ensures
        total_len(segs.take(k)) <= total_len(segs),
    decreases segs.len() - k,
{
    if k < segs.len() {
        lemma_total_prefix(segs, k + 1);
        assert(segs.take(k + 1).drop_last() =~= segs.take(k));
    } else {
        assert(segs.take(k) =~= segs);
    }
}

impl PartialEq for KeyValueView {
    fn eq(&self, other: &KeyValueView) -> (r: bool) {
        self.content_eq(other)
    }
}

impl vstd::std_specs::cmp::PartialEqSpecImpl for KeyValueView {
    open spec fn obeys_eq_spec() -> bool {
        true
    }

    open spec fn eq_spec(&self, other: &KeyValueView) -> bool {
        self@ == other@
    }
}

/// Two views that hold the same bytes are equal and hash alike under every
/// seed, whichever buffers back them.
pub proof fn lemma_equal_content_same_key(a: &KeyValueView, b: &KeyValueView, seed: u64)
    requires
        a@ == b@,
    ensures
        a.eq_spec(b),
        hash_of(seed, a@) == hash_of(seed, b@),
{
}

} // verus!
