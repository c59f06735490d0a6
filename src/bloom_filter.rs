use vstd::prelude::*;
use bit_vec::BitVec;

verus! {

pub type IndexT = u64;

/// Table size, in bits, of a filter made by `new_init`.
pub const BLOOM_SIZE: u64 = 10000000;

/// Number of probes per key of a filter made by `new_init` or `new_with_size`.
pub const HASHES: u64 = 5;

#[verifier::external_type_specification]
#[verifier::external_body]
#[verifier::reject_recursive_types(B)]
pub struct ExBitVec<B>(BitVec<B>);

/// The bits that a bit vector holds, in index order.
pub uninterp spec fn bits_of(v: BitVec) -> Seq<bool>;

/// Relies on `bit_vec::BitVec::from_elem`: `nbits` bits, each set to `bit`.
#[verifier::external_body]
fn bitvec_from_elem(nbits: usize, bit: bool) -> (r: BitVec)
    ensures
        bits_of(r) == Seq::new(nbits as nat, |i: int| bit),
{
    BitVec::from_elem(nbits, bit)
}

/// Relies on `bit_vec::BitVec::get`: the bit at `i`, or `None` past the end.
#[verifier::external_body]
fn bitvec_get(v: &BitVec, i: usize) -> (r: Option<bool>)
    ensures
        r == (if i < bits_of(*v).len() {
            Some(bits_of(*v)[i as int])
        } else {
            None
        }),
{
    v.get(i)
}

/// Relies on `bit_vec::BitVec::set`: writes bit `i` (it panics past the end).
#[verifier::external_body]
fn bitvec_set(v: &mut BitVec, i: usize, x: bool)
    requires
        i < bits_of(*old(v)).len(),
    ensures
        bits_of(*final(v)) == bits_of(*old(v)).update(i as int, x),
{
    v.set(i, x)
}

/// First mixing function (64-bit integer hash).
pub open spec fn hash1_spec(k: u64) -> u64 {
    let key = (!k).wrapping_add(k << 21u64);
    let key = key ^ (key >> 24u64);
    let key = key.wrapping_add(key << 3u64).wrapping_add(key << 8u64);
    let key = key ^ (key >> 14u64);
    let key = key.wrapping_add(key << 2u64).wrapping_add(key << 4u64);
    let key = key ^ (key >> 28u64);
    key.wrapping_add(key << 31u64)
}

/// Second mixing function (32-bit style constants, wrapping).
pub open spec fn hash2_spec(k: u64) -> u64 {
    let key = k.wrapping_add(0x7ed55d16u64).wrapping_add(k << 12u64);
    let key = (key ^ 0xc761c23cu64) ^ (key >> 19u64);
    let key = key.wrapping_add(0x165667b1u64).wrapping_add(key << 5u64);
    let key = key.wrapping_add(0xd3a2646cu64) ^ (key << 9u64);
    let key = key.wrapping_add(0xfd7046c5u64).wrapping_add(key << 3u64);
    (key ^ 0xb55a4f09u64) ^ (key >> 16u64)
}

/// Third mixing function, the step of the double hashing.
pub open spec fn hash3_spec(k: u64) -> u64 {
    let key = (k ^ 61u64) ^ (k >> 16u64);
    let key = key.wrapping_add(key << 3u64);
    let key = key ^ (key >> 4u64);
    let key = key.wrapping_mul(0x27d4eb2du64);
    key ^ (key >> 15u64)
}

/// Table position probed for key `k` by probe number `i`.
pub open spec fn probe_index(k: u64, i: u64, size: u64) -> u64
    recommends
        size > 0,
{
    (hash1_spec(k).wrapping_add(i.wrapping_mul(hash3_spec(k)))) % size
}

/// Number of positions below `n` that are clear in `a` and set in `b`.
pub open spec fn newly_set(a: Seq<bool>, b: Seq<bool>, n: int) -> nat
    decreases n,
{
    if n <= 0 {
        0
    } else {
        newly_set(a, b, n - 1) + (if !a[n - 1] && b[n - 1] { 1nat } else { 0nat })
    }
}

proof fn lemma_newly_set_update(a: Seq<bool>, b: Seq<bool>, h: int, n: int)
    requires
        0 <= h < a.len(),
        a.len() == b.len(),
        0 <= n <= a.len(),
        !a[h],
        !b[h],
    ensures
        newly_set(a, b.update(h, true), n) == newly_set(a, b, n) + (if h < n { 1nat } else { 0nat }),
    decreases n,
{
    if n > 0 {
        lemma_newly_set_update(a, b, h, n - 1);
    }
}

proof fn lemma_newly_set_none(a: Seq<bool>, n: int)
    ensures
        newly_set(a, a, n) == 0,
    decreases n,
{
    if n > 0 {
        lemma_newly_set_none(a, n - 1);
    }
}

/// A fixed-size bit table probed by double hashing.
#[derive(Debug)]
pub struct BloomFilter {
    pub hashes: IndexT,
    pub size: IndexT,
    pub count: IndexT,
    pub table: BitVec,
}

impl BloomFilter {
    /// The table's bits.
    pub open spec fn bits(&self) -> Seq<bool> {
        bits_of(self.table)
    }

    pub open spec fn wf(&self) -> bool {
        &&& self.size > 0
        &&& self.size <= usize::MAX
        &&& self.bits().len() == self.size
    }

    /// Every probe position of `k` is set: `k` may have been added.
    pub open spec fn may_contain(&self, k: u64) -> bool {
        forall|i: u64| i < self.hashes ==> #[trigger] self.bits()[probe_index(k, i, self.size) as int]
    }

    /// The set bits of `self` are all set in `other`.
    pub open spec fn bits_within(&self, other: &BloomFilter) -> bool {
        &&& self.bits().len() == other.bits().len()
        &&& forall|p: int| 0 <= p < self.bits().len() && #[trigger] self.bits()[p] ==> other.bits()[p]
    }

    pub fn new_init() -> (r: BloomFilter)
        ensures
            r.wf(),
            r.hashes == HASHES,
            r.size == BLOOM_SIZE,
            r.count == 0,
            r.bits() == Seq::new(BLOOM_SIZE as nat, |i: int| false),
    {
        BloomFilter {
            hashes: HASHES,
            size: BLOOM_SIZE,
            count: 0,
            table: bitvec_from_elem(BLOOM_SIZE as usize, false),
        }
    }

    pub fn new(hashes: IndexT, size: IndexT, count: IndexT) -> (r: BloomFilter)
        requires
            0 < size <= usize::MAX,
        ensures
            r.wf(),
            r.hashes == hashes,
            r.size == size,
            r.count == count,
            r.bits() == Seq::new(size as nat, |i: int| false),
    {
        BloomFilter { hashes: hashes, size: size, count: count, table: bitvec_from_elem(size as usize, false) }
    }

    pub fn new_with_size(size: IndexT) -> (r: BloomFilter)
        requires
            0 < size <= usize::MAX,
        ensures
            r.wf(),
            r.hashes == HASHES,
            r.size == size,
            r.count == 0,
            r.bits() == Seq::new(size as nat, |i: int| false),
    {
        BloomFilter { hashes: HASHES, size: size, count: 0, table: bitvec_from_elem(size as usize, false) }
    }

    pub fn set_bit(&mut self, i: IndexT)
        requires
            old(self).wf(),
            i < old(self).size,
        ensures
            final(self).wf(),
            final(self).hashes == old(self).hashes,
            final(self).size == old(self).size,
            final(self).count == old(self).count,
            final(self).bits() == old(self).bits().update(i as int, true),
    {
        bitvec_set(&mut self.table, i as usize, true);
    }

    pub fn get_bit(&self, i: IndexT) -> (r: Option<bool>)
        requires
            self.wf(),
            i < self.size,
        ensures
            r == Some(self.bits()[i as int]),
    {
        bitvec_get(&self.table, i as usize)
    }

    pub fn hash1(&self, k: IndexT) -> (r: IndexT)
        ensures
            r == hash1_spec(k),
    {
        let mut key = k;
        key = (!key).wrapping_add(key << 21u64);
        key = key ^ (key >> 24u64);
        key = (key.wrapping_add(key << 3u64)).wrapping_add(key << 8u64);
        key = key ^ (key >> 14u64);
        key = (key.wrapping_add(key << 2u64)).wrapping_add(key << 4u64);
        key = key ^ (key >> 28u64);
        key = key.wrapping_add(key << 31u64);
        key
    }

    pub fn hash2(&self, k: IndexT) -> (r: IndexT)
        ensures
            r == hash2_spec(k),
    {
        let mut key = k;
        key = key.wrapping_add(0x7ed55d16u64).wrapping_add(key << 12u64);
        key = (key ^ 0xc761c23cu64) ^ (key >> 19u64);
        key = key.wrapping_add(0x165667b1u64).wrapping_add(key << 5u64);
        key = key.wrapping_add(0xd3a2646cu64) ^ (key << 9u64);
        key = key.wrapping_add(0xfd7046c5u64).wrapping_add(key << 3u64);
        key = (key ^ 0xb55a4f09u64) ^ (key >> 16u64);
        key
    }

    pub fn hash3(&self, k: IndexT) -> (r: IndexT)
        ensures
            r == hash3_spec(k),
    {
        let mut key = k;
        key = (key ^ 61u64) ^ (key >> 16u64);
        key = key.wrapping_add(key << 3u64);
        key = key ^ (key >> 4u64);
        key = key.wrapping_mul(0x27d4eb2du64);
        key = key ^ (key >> 15u64);
        key
    }

    /// False when `k` was certainly never added; true when it may have been.
    pub fn bloom_check(&self, k: IndexT) -> (r: bool)
        requires
            self.wf(),
        ensures
            r == self.may_contain(k),
    {
        let h1 = self.hash1(k);
        let h3 = self.hash3(k);
        let mut i: u64 = 0;
        while i < self.hashes
            invariant
                self.wf(),
                h1 == hash1_spec(k),
                h3 == hash3_spec(k),
                i <= self.hashes,
                forall|j: u64| j < i ==> #[trigger] self.bits()[probe_index(k, j, self.size) as int],
            decreases self.hashes - i,
        {
            let hash = (h1.wrapping_add(i.wrapping_mul(h3))) % self.size;
            assert(hash == probe_index(k, i, self.size));
            if self.get_bit(hash) == Some(false) {
                return false;
            }
            i = i + 1;
        }
        true
    }

    /// Sets every probe position of `k`; `count` grows by the bits newly set.
    pub fn bloom_add(&mut self, k: IndexT)
        requires
            old(self).wf(),
        ensures
            final(self).wf(),
            final(self).hashes == old(self).hashes,
            final(self).size == old(self).size,
            final(self).may_contain(k),
            old(self).bits_within(final(self)),
            forall|p: int| 0 <= p < final(self).size ==> #[trigger] final(self).bits()[p] == (old(self).bits()[p]
                || exists|j: u64| j < old(self).hashes && probe_index(k, j, old(self).size) == p),
            final(self).count == (if old(self).count + newly_set(old(self).bits(), final(self).bits(), old(self).size as int)
                <= u64::MAX {
                old(self).count + newly_set(old(self).bits(), final(self).bits(), old(self).size as int)
            } else {
                u64::MAX as int
            }),
    {
        let h1 = self.hash1(k);
        let h3 = self.hash3(k);
        let mut i: u64 = 0;
        proof {
            lemma_newly_set_none(self.bits(), self.size as int);
        }
        while i < self.hashes
            invariant
                self.wf(),
                self.hashes == old(self).hashes,
                self.size == old(self).size,
                h1 == hash1_spec(k),
                h3 == hash3_spec(k),
                i <= self.hashes,
                forall|j: u64| j < i ==> #[trigger] self.bits()[probe_index(k, j, self.size) as int],
                old(self).bits_within(self),
                forall|p: int| 0 <= p < self.size ==> #[trigger] self.bits()[p] == (old(self).bits()[p]
                    || exists|j: u64| j < i && probe_index(k, j, self.size) == p),
                self.count == (if old(self).count + newly_set(old(self).bits(), self.bits(), self.size as int)
                    <= u64::MAX {
                    old(self).count + newly_set(old(self).bits(), self.bits(), self.size as int)
                } else {
                    u64::MAX as int
                }),
            decreases self.hashes - i,
        {
            let hash: IndexT = (h1.wrapping_add(i.wrapping_mul(h3))) % self.size;
            assert(hash == probe_index(k, i, self.size));
            let ghost b0 = self.bits();
            if self.get_bit(hash) == Some(false) {
                proof {
                    lemma_newly_set_update(old(self).bits(), b0, hash as int, self.size as int);
                }
                self.set_bit(hash);
                self.count = self.count.saturating_add(1);
            }
            assert forall|p: int| 0 <= p < self.size implies #[trigger] self.bits()[p] == (old(self).bits()[p]
                || exists|j: u64| j < i + 1 && probe_index(k, j, self.size) == p) by {
                if p == hash as int {
                    assert(probe_index(k, i, self.size) == p);
                } else {
                    assert(self.bits()[p] == b0[p]);
                    if exists|j: u64| j < i + 1 && probe_index(k, j, self.size) == p {
                        let j = choose|j: u64| j < i + 1 && probe_index(k, j, self.size) == p;
                        assert(j != i);
                    }
                }
            }
            i = i + 1;
        }
    }
}

/// Adding a key never clears the mark of another: what may be in the filter
/// stays so.
pub proof fn lemma_may_contain_kept(a: &BloomFilter, b: &BloomFilter, k: u64)
    requires
        a.wf(),
        a.bits_within(b),
        a.hashes == b.hashes,
        a.size == b.size,
        a.may_contain(k),
    ensures
        b.may_contain(k),
{
    assert forall|i: u64| i < b.hashes implies #[trigger] b.bits()[probe_index(k, i, b.size) as int] by {
        assert(a.bits()[probe_index(k, i, a.size) as int]);
    }
}


/// No false negatives: once a key was added, the filter keeps answering that
/// it may hold the key through any number of further adds.
pub proof fn law_no_false_negatives(bs: Seq<BloomFilter>, k: u64)
    requires
        bs.len() >= 1,
        bs[0].wf(),
        bs[0].may_contain(k),
        forall|i: int| 0 <= i < bs.len() - 1 ==> (#[trigger] bs[i]).bits_within(&bs[i + 1])
            && bs[i].hashes == bs[i + 1].hashes && bs[i].size == bs[i + 1].size && bs[i + 1].wf(),
    ensures
        forall|i: int| 0 <= i < bs.len() ==> (#[trigger] bs[i]).may_contain(k),
    decreases bs.len(),
{
    if bs.len() > 1 {
        let t = bs.drop_last();
        assert forall|i: int| 0 <= i < t.len() - 1 implies (#[trigger] t[i]).bits_within(&t[i + 1])
            && t[i].hashes == t[i + 1].hashes && t[i].size == t[i + 1].size && t[i + 1].wf() by {
            assert(t[i] == bs[i] && t[i + 1] == bs[i + 1]);
            assert(bs[i].bits_within(&bs[i + 1]));
        }
        law_no_false_negatives(t, k);
        let n = bs.len() - 1;
        assert(t[n - 1] == bs[n - 1]);
        assert(bs[n - 1].bits_within(&bs[n]));
        lemma_may_contain_kept(&bs[n - 1], &bs[n], k);
        assert forall|i: int| 0 <= i < bs.len() implies (#[trigger] bs[i]).may_contain(k) by {
            if i < n {
                assert(t[i] == bs[i]);
            }
        }
    }
}

} // verus!
