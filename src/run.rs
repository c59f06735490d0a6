use vstd::prelude::*;
use crate::bloom_filter::BloomFilter;
use crate::buffer::entries_pairs;
use crate::data_type::{
    compare_keys, key_le, key_lt, lemma_key_order, opt_bytes, EntryT, KeyT, Pair, ValueT,
    ENTRY_SIZE, FILL_BYTE, KEY_SIZE, VALUE_SIZE, in_range,
};
use crate::sorted::{
    lemma_pairs_map, lemma_range_filter_step, lemma_sorted_push, lemma_sorted_unique, pairs_map,
    range_filter, strictly_sorted,
};

verus! {

/// Key bytes of slot `i` of a run image.
pub open spec fn slot_key(d: Seq<u8>, i: int) -> Seq<u8> {
    d.subrange(i * ENTRY_SIZE, i * ENTRY_SIZE + KEY_SIZE)
}

/// Value bytes of slot `i` of a run image.
pub open spec fn slot_value(d: Seq<u8>, i: int) -> Seq<u8> {
    d.subrange(i * ENTRY_SIZE + KEY_SIZE, i * ENTRY_SIZE + ENTRY_SIZE)
}

pub open spec fn slot_pair(d: Seq<u8>, i: int) -> Pair {
    (slot_key(d, i), slot_value(d, i))
}

/// The pairs held by the first `n` slots of an image.
pub open spec fn slots(d: Seq<u8>, n: nat) -> Seq<Pair> {
    Seq::new(n, |i: int| slot_pair(d, i))
}

/// The integer a key is hashed as: its bytes read big-endian, wrapping.
pub open spec fn key_number_upto(k: Seq<u8>, n: int) -> u64
    decreases n,
{
    if n <= 0 {
        0
    } else {
        key_number_upto(k, n - 1).wrapping_mul(256u64).wrapping_add(k[n - 1] as u64)
    }
}

pub open spec fn key_number(k: Seq<u8>) -> u64 {
    key_number_upto(k, k.len() as int)
}

/// The integer a key is hashed as in the bloom filter.
pub fn key_to_number(k: &[u8]) -> (r: u64)
    ensures
        r == key_number(k@),
{
    let mut acc: u64 = 0;
    let mut i: usize = 0;
    while i < k.len()
        invariant
            i <= k.len(),
            acc == key_number_upto(k@, i as int),
        decreases k.len() - i,
    {
        acc = acc.wrapping_mul(256u64).wrapping_add(k[i] as u64);
        i = i + 1;
    }
    acc
}

/// First slot that starts at or after byte `offset`.
pub open spec fn first_slot(offset: int) -> int {
    if offset % ENTRY_SIZE as int == 0 {
        offset / ENTRY_SIZE as int
    } else {
        offset / ENTRY_SIZE as int + 1
    }
}

/// One past the last occupied slot that ends at or before byte `offset + len`.
pub open spec fn last_slot(offset: int, len: int, size: int) -> int {
    if (offset + len) / ENTRY_SIZE as int <= size {
        (offset + len) / ENTRY_SIZE as int
    } else {
        size
    }
}

/// Slot `i` of an image is unused: its key starts with the fill byte.
pub open spec fn slot_is_unused(d: Seq<u8>, i: int) -> bool {
    d[i * ENTRY_SIZE] == FILL_BYTE
}

/// Slot `i` of an image can be taken as the next entry of a run read back
/// from it: it is complete, in use, and its key is above the previous one.
pub open spec fn slot_loadable(d: Seq<u8>, i: int) -> bool {
    &&& (i + 1) * ENTRY_SIZE <= d.len()
    &&& !slot_is_unused(d, i)
    &&& (i > 0 ==> key_lt(slot_key(d, i - 1), slot_key(d, i)))
}

/// How many leading slots of an image, from slot `i` on and below `max`, are loadable.
pub open spec fn loadable_upto(d: Seq<u8>, i: int, max: int) -> int
    decreases max - i,
{
    if i >= max || !slot_loadable(d, i) {
        i
    } else {
        loadable_upto(d, i + 1, max)
    }
}

proof fn lemma_loadable_upto(d: Seq<u8>, i: int, max: int)
    requires
        0 <= i <= max,
    ensures
        i <= loadable_upto(d, i, max) <= max,
        forall|j: int| i <= j < loadable_upto(d, i, max) ==> #[trigger] slot_loadable(d, j),
        loadable_upto(d, i, max) < max ==> !slot_loadable(d, loadable_upto(d, i, max)),
    decreases max - i,
{
    if i < max && slot_loadable(d, i) {
        lemma_loadable_upto(d, i + 1, max);
    }
}

proof fn lemma_fence_step(size: int, nf: int, epp: int)
    requires
        epp > 0,
        nf >= 0,
        size >= 0,
        size <= nf * epp,
        nf > 0 ==> (nf - 1) * epp < size,
    ensures
        size % epp == 0 ==> size == nf * epp,
        size % epp != 0 ==> size < nf * epp,
{
    let q = size / epp;
    let r = size % epp;
    assert(size == q * epp + r) by (nonlinear_arith)
        requires
            epp > 0,
            q == size / epp,
            r == size % epp,
    ;
    if r == 0 {
        if nf > 0 {
            assert(nf - 1 < q) by (nonlinear_arith)
                requires
                    (nf - 1) * epp < q * epp,
                    epp > 0,
            ;
        }
        assert(q <= nf) by (nonlinear_arith)
            requires
                q * epp <= nf * epp,
                epp > 0,
        ;
    } else {
        if size == nf * epp {
            assert((nf * epp) % epp == 0) by (nonlinear_arith)
                requires
                    epp > 0,
                    nf >= 0,
            ;
        }
    }
}

/// One immutable sorted run: fixed-size key/value slots in ascending key
/// order, a bloom filter over its keys, and the first key of every page of
/// slots as fence pointers.
#[derive(Debug)]
pub struct Run {
    pub bloom_filter: BloomFilter,
    pub fence_pointers: Vec<KeyT>,
    pub max_key: KeyT,
    /// The occupied slots of the run's image, `ENTRY_SIZE` bytes each.
    pub data: Vec<u8>,
    pub size: u64,
    pub max_size: u64,
    pub level_index: usize,
    /// Slots per page.
    pub entries_per_page: usize,
    /// Whether entries may be appended.
    pub writable: bool,
}

impl View for Run {
    type V = Map<Seq<u8>, Seq<u8>>;

    /// The key/value map the run holds.
    open spec fn view(&self) -> Map<Seq<u8>, Seq<u8>> {
        pairs_map(self.pairs())
    }
}

impl Run {
    /// The entries, in slot order.
    pub open spec fn pairs(&self) -> Seq<Pair> {
        slots(self.data@, self.size as nat)
    }

    pub open spec fn wf(&self) -> bool {
        &&& self.size <= self.max_size
        &&& self.max_size * ENTRY_SIZE <= usize::MAX
        &&& self.data@.len() == self.size * ENTRY_SIZE
        &&& self.entries_per_page > 0
        &&& strictly_sorted(self.pairs())
        &&& self.size <= self.fence_pointers@.len() * self.entries_per_page
        &&& self.fence_pointers@.len() > 0 ==> (self.fence_pointers@.len() - 1) * self.entries_per_page < self.size
        &&& forall|p: int| 0 <= p < self.fence_pointers@.len() ==>
            (#[trigger] self.fence_pointers@[p])@ == self.pairs()[p * self.entries_per_page].0
        &&& self.size > 0 ==> self.max_key@ == self.pairs()[self.size - 1].0
        &&& self.bloom_filter.wf()
        &&& forall|i: int| 0 <= i < self.size ==> self.bloom_filter.may_contain(key_number(#[trigger] self.pairs()[i].0))
        &&& forall|i: int| 0 <= i < self.size ==> (#[trigger] self.pairs()[i]).0[0] != FILL_BYTE
    }

    /// An empty run for up to `max_size` entries, with a bloom filter of
    /// `bf_bits_per_entry` bits per entry (at least one bit).
    pub fn new(max_size: u64, bf_bits_per_entry: u64, level: usize, entries_per_page: usize) -> (r: Run)
        requires
            max_size * ENTRY_SIZE <= usize::MAX,
            max_size * bf_bits_per_entry <= usize::MAX,
            entries_per_page > 0,
        ensures
            r.wf(),
            r.size == 0,
            r.max_size == max_size,
            r.level_index == level,
            r.entries_per_page == entries_per_page,
            !r.writable,
            r@ == Map::<Seq<u8>, Seq<u8>>::empty(),
    {
        let bits = max_size * bf_bits_per_entry;
        let table_size = if bits == 0 {
            1
        } else {
            bits
        };
        let r = Run {
            bloom_filter: BloomFilter::new_with_size(table_size),
            fence_pointers: Vec::new(),
            max_key: Vec::new(),
            data: Vec::new(),
            size: 0,
            max_size: max_size,
            level_index: level,
            entries_per_page: entries_per_page,
            writable: false,
        };
        assert(r.pairs() =~= Seq::<Pair>::empty());
        r
    }

    /// Opens the run for appending, discarding what it held.
    pub fn map_write(&mut self)
        requires
            old(self).wf(),
        ensures
            final(self).wf(),
            final(self).writable,
            final(self).size == 0,
            final(self).max_size == old(self).max_size,
            final(self).level_index == old(self).level_index,
            final(self).entries_per_page == old(self).entries_per_page,
            final(self).max_key == old(self).max_key,
            final(self).bloom_filter == old(self).bloom_filter,
            final(self).fence_pointers@.len() == 0,
            final(self).data@.len() == 0,
            final(self)@ == Map::<Seq<u8>, Seq<u8>>::empty(),
    {
        self.data = Vec::new();
        self.fence_pointers = Vec::new();
        self.size = 0;
        self.writable = true;
        assert(self.pairs() =~= Seq::<Pair>::empty());
    }

    /// Closes the run for appending.
    pub fn unmap(&mut self)
        requires
            old(self).wf(),
        ensures
            final(self).wf(),
            !final(self).writable,
            final(self).size == old(self).size,
            final(self).max_size == old(self).max_size,
            final(self).level_index == old(self).level_index,
            final(self).entries_per_page == old(self).entries_per_page,
            final(self).pairs() == old(self).pairs(),
    {
        let ghost before = *self;
        self.writable = false;
        assert(self.pairs() == before.pairs());
    }

    /// The entries of the occupied slots that lie wholly within the byte
    /// range `[offset, offset + len)` of the image, in slot order.
    pub fn map_read(&self, len: usize, offset: usize) -> (r: Vec<EntryT>)
        requires
            self.wf(),
        ensures
            entries_pairs(r@) == (if first_slot(offset as int) <= last_slot(offset as int, len as int, self.size as int) {
                self.pairs().subrange(first_slot(offset as int), last_slot(offset as int, len as int, self.size as int))
            } else {
                Seq::<Pair>::empty()
            }),
    {
        let first: usize = if offset % ENTRY_SIZE == 0 {
            offset / ENTRY_SIZE
        } else {
            offset / ENTRY_SIZE + 1
        };
        let mut last: usize = if offset <= usize::MAX - len {
            (offset + len) / ENTRY_SIZE
        } else {
            usize::MAX / ENTRY_SIZE
        };
        if last > self.size as usize {
            last = self.size as usize;
        }
        if offset > usize::MAX - len {
            assert(self.size * ENTRY_SIZE <= usize::MAX);
            assert(last == self.size);
        }
        if first > last {
            let r: Vec<EntryT> = Vec::new();
            assert(entries_pairs(r@) =~= Seq::<Pair>::empty());
            return r;
        }
        self.read_slots(first, last)
    }

    /// The entries of every occupied slot.
    pub fn map_read_default(&self) -> (r: Vec<EntryT>)
        requires
            self.wf(),
        ensures
            entries_pairs(r@) == self.pairs(),
    {
        let r = self.read_slots(0, self.size as usize);
        assert(self.pairs().subrange(0, self.size as int) =~= self.pairs());
        r
    }

    /// Decodes slot `i`.
    fn read_slot(&self, i: usize) -> (r: EntryT)
        requires
            self.wf(),
            i < self.size,
        ensures
            r@ == self.pairs()[i as int],
    {
        let base = i * ENTRY_SIZE;
        let mut key: Vec<u8> = Vec::with_capacity(KEY_SIZE);
        let mut j: usize = 0;
        while j < KEY_SIZE
            invariant
                self.wf(),
                i < self.size,
                base == i * ENTRY_SIZE,
                j <= KEY_SIZE,
                key@ == self.data@.subrange(base as int, base + j),
            decreases KEY_SIZE - j,
        {
            key.push(self.data[base + j]);
            j = j + 1;
            assert(key@ =~= self.data@.subrange(base as int, base + j));
        }
        let mut value: Vec<u8> = Vec::with_capacity(VALUE_SIZE);
        let mut j: usize = KEY_SIZE;
        while j < ENTRY_SIZE
            invariant
                self.wf(),
                i < self.size,
                base == i * ENTRY_SIZE,
                KEY_SIZE <= j <= ENTRY_SIZE,
                value@ == self.data@.subrange(base + KEY_SIZE, base + j),
            decreases ENTRY_SIZE - j,
        {
            value.push(self.data[base + j]);
            j = j + 1;
            assert(value@ =~= self.data@.subrange(base + KEY_SIZE, base + j));
        }
        EntryT { key: key, value: value }
    }

    /// The entries of slots `first .. last`.
    fn read_slots(&self, first: usize, last: usize) -> (r: Vec<EntryT>)
        requires
            self.wf(),
            first <= last <= self.size,
        ensures
            entries_pairs(r@) == self.pairs().subrange(first as int, last as int),
    {
        let mut res: Vec<EntryT> = Vec::new();
        let mut i: usize = first;
        assert(entries_pairs(res@) =~= self.pairs().subrange(first as int, i as int));
        while i < last
            invariant
                self.wf(),
                first <= i <= last,
                last <= self.size,
                entries_pairs(res@) == self.pairs().subrange(first as int, i as int),
            decreases last - i,
        {
            let e = self.read_slot(i);
            let ghost before = res@;
            res.push(e);
            proof {
                assert(res@ == before.push(e));
                assert(entries_pairs(res@) =~= entries_pairs(before).push(e@));
                assert(self.pairs().subrange(first as int, i + 1) =~= self.pairs().subrange(first as int, i as int).push(self.pairs()[i as int]));
            }
            i = i + 1;
        }
        res
    }

    /// The page whose first key is the greatest one not above `key`.
    fn find_page(&self, key: &[u8]) -> (p: usize)
        requires
            self.wf(),
            self.size > 0,
            key_le(self.pairs()[0].0, key@),
        ensures
            p < self.fence_pointers@.len(),
            key_le(self.fence_pointers@[p as int]@, key@),
            p + 1 < self.fence_pointers@.len() ==> key_lt(key@, self.fence_pointers@[p + 1]@),
    {
        proof {
            lemma_key_order();
            assert(self.fence_pointers@.len() > 0) by (nonlinear_arith)
                requires
                    self.size <= self.fence_pointers@.len() * self.entries_per_page,
                    self.size > 0,
                    self.entries_per_page > 0,
            ;
            assert(0 * self.entries_per_page == 0);
        }
        let mut lo: usize = 0;
        let mut hi: usize = self.fence_pointers.len();
        while hi - lo > 1
            invariant
                self.wf(),
                lo < hi <= self.fence_pointers@.len(),
                key_le(self.fence_pointers@[lo as int]@, key@),
                hi < self.fence_pointers@.len() ==> key_lt(key@, self.fence_pointers@[hi as int]@),
            decreases hi - lo,
        {
            proof {
                lemma_key_order();
            }
            let mid = lo + (hi - lo) / 2;
            let c = compare_keys(self.fence_pointers[mid].as_slice(), key);
            if c <= 0 {
                lo = mid;
            } else {
                hi = mid;
            }
        }
        lo
    }

    /// Every fence pointer marks an occupied slot.
    proof fn lemma_fence_in_run(&self, p: int)
        requires
            self.wf(),
            0 <= p < self.fence_pointers@.len(),
        ensures
            p * self.entries_per_page < self.size,
    {
        let nf = self.fence_pointers@.len() as int;
        let epp = self.entries_per_page as int;
        assert(p * epp <= (nf - 1) * epp) by (nonlinear_arith)
            requires
                p <= nf - 1,
                epp > 0,
        ;
    }

    /// In a sorted run, the slot of a key found at page `p` lies in that page.
    proof fn lemma_page_holds(&self, p: int, i: int)
        requires
            self.wf(),
            0 <= p < self.fence_pointers@.len(),
            0 <= i < self.size,
            key_le(self.fence_pointers@[p]@, self.pairs()[i].0),
            p + 1 < self.fence_pointers@.len() ==> key_lt(self.pairs()[i].0, self.fence_pointers@[p + 1]@),
        ensures
            p * self.entries_per_page <= i,
            i < (p + 1) * self.entries_per_page,
    {
        lemma_key_order();
        let epp = self.entries_per_page as int;
        let s = self.pairs();
        self.lemma_fence_in_run(p);
        if p * epp > i {
            assert(key_lt(s[i].0, s[p * epp].0));
        }
        if p + 1 < self.fence_pointers@.len() {
            self.lemma_fence_in_run(p + 1);
            if (p + 1) * epp <= i {
                if (p + 1) * epp < i {
                    assert(key_lt(s[(p + 1) * epp].0, s[i].0));
                }
            }
        } else {
            assert(p + 1 == self.fence_pointers@.len());
        }
    }

    /// The value stored for `key` in this run, if any (possibly the tombstone).
    pub fn get(&self, key: &KeyT) -> (r: Option<ValueT>)
        requires
            self.wf(),
        ensures
            opt_bytes(r) == self@.get(key@),
    {
        proof {
            lemma_key_order();
            lemma_sorted_unique(self.pairs());
            lemma_pairs_map(self.pairs());
        }
        let ghost s = self.pairs();
        if self.size == 0 {
            proof {
                if self@.contains_key(key@) {
                    let i = choose|i: int| 0 <= i < s.len() && s[i].0 == key@;
                }
            }
            return None;
        }
        if !self.bloom_filter.bloom_check(key_to_number(key.as_slice())) {
            proof {
                if self@.contains_key(key@) {
                    let i = choose|i: int| 0 <= i < s.len() && s[i].0 == key@;
                    assert(self.bloom_filter.may_contain(key_number(s[i].0)));
                }
            }
            return None;
        }
        assert(0 * self.entries_per_page == 0);
        assert(self.fence_pointers@.len() > 0) by (nonlinear_arith)
            requires
                self.size <= self.fence_pointers@.len() * self.entries_per_page,
                self.size > 0,
                self.entries_per_page > 0,
        ;
        if compare_keys(key.as_slice(), self.fence_pointers[0].as_slice()) < 0 || compare_keys(
            key.as_slice(),
            self.max_key.as_slice(),
        ) > 0 {
            proof {
                if self@.contains_key(key@) {
                    let i = choose|i: int| 0 <= i < s.len() && s[i].0 == key@;
                    if i > 0 {
                        assert(key_lt(s[0].0, s[i].0));
                    }
                    if i < self.size - 1 {
                        assert(key_lt(s[i].0, s[self.size - 1].0));
                    }
                }
            }
            return None;
        }
        let page = self.find_page(key.as_slice());
        let epp = self.entries_per_page;
        proof {
            self.lemma_fence_in_run(page as int);
        }
        let lo = page * epp;
        let hi: usize = if self.size as usize - lo > epp {
            lo + epp
        } else {
            self.size as usize
        };
        let mut i: usize = lo;
        while i < hi
            invariant
                self.wf(),
                s == self.pairs(),
                lo <= i <= hi <= self.size,
                lo == page * epp,
                epp == self.entries_per_page,
                hi == self.size || hi == lo + epp,
                page < self.fence_pointers@.len(),
                key_le(self.fence_pointers@[page as int]@, key@),
                page + 1 < self.fence_pointers@.len() ==> key_lt(key@, self.fence_pointers@[page + 1]@),
                forall|j: int| lo <= j < i ==> (#[trigger] s[j]).0 != key@,
            decreases hi - i,
        {
            let e = self.read_slot(i);
            if compare_keys(e.key.as_slice(), key.as_slice()) == 0 {
                proof {
                    lemma_sorted_unique(s);
                    lemma_pairs_map(s);
                    assert(self@.contains_key(s[i as int].0));
                }
                return Some(e.value);
            }
            i = i + 1;
        }
        proof {
            if self@.contains_key(key@) {
                let j = choose|j: int| 0 <= j < s.len() && s[j].0 == key@;
                self.lemma_page_holds(page as int, j);
                assert((page + 1) * epp == page * epp + epp) by (nonlinear_arith);
            }
        }
        None
    }

    /// The entries whose key lies in `[start, end]`, in ascending key order.
    pub fn range(&self, start: &KeyT, end: &KeyT) -> (r: Vec<EntryT>)
        requires
            self.wf(),
        ensures
            entries_pairs(r@) == range_filter(self.pairs(), start@, end@),
    {
        proof {
            lemma_key_order();
        }
        let ghost s = self.pairs();
        let mut res: Vec<EntryT> = Vec::new();
        if self.size == 0 {
            proof {
                lemma_range_filter_none(s, start@, end@, 0);
                assert(s.subrange(0, 0) =~= s);
            }
            return res;
        }
        assert(0 * self.entries_per_page == 0);
        assert(self.fence_pointers@.len() > 0) by (nonlinear_arith)
            requires
                self.size <= self.fence_pointers@.len() * self.entries_per_page,
                self.size > 0,
                self.entries_per_page > 0,
        ;
        if compare_keys(start.as_slice(), self.max_key.as_slice()) > 0 || compare_keys(
            self.fence_pointers[0].as_slice(),
            end.as_slice(),
        ) > 0 {
            proof {
                assert forall|i: int| 0 <= i < s.len() implies !in_range(#[trigger] s[i].0, start@, end@) by {
                    if i > 0 {
                        assert(key_lt(s[0].0, s[i].0));
                    }
                    if i < self.size - 1 {
                        assert(key_lt(s[i].0, s[self.size - 1].0));
                    }
                }
                lemma_range_filter_none(s, start@, end@, s.len() as int);
                assert(s.subrange(0, s.len() as int) =~= s);
            }
            return res;
        }
        let epp = self.entries_per_page;
        let page_start: usize = if compare_keys(start.as_slice(), self.fence_pointers[0].as_slice()) < 0 {
            0
        } else {
            self.find_page(start.as_slice())
        };
        let page_end = self.find_page(end.as_slice());
        proof {
            self.lemma_fence_in_run(page_start as int);
            self.lemma_fence_in_run(page_end as int);
        }
        let lo = page_start * epp;
        let hi: usize = if self.size as usize - page_end * epp > epp {
            page_end * epp + epp
        } else {
            self.size as usize
        };
        proof {
            // nothing before `lo` reaches `start`
            assert forall|i: int| 0 <= i < lo implies !in_range(#[trigger] s[i].0, start@, end@) by {
                assert(key_lt(s[i].0, s[lo as int].0));
                assert(page_start > 0);
            }
            lemma_range_filter_none(s, start@, end@, lo as int);
        }
        let mut i: usize = lo;
        if lo > hi {
            i = hi;
            proof {
                lemma_range_filter_none(s, start@, end@, hi as int);
            }
        }
        while i < hi
            invariant
                self.wf(),
                s == self.pairs(),
                i <= hi <= self.size,
                lo <= i || i == hi,
                entries_pairs(res@) == range_filter(s.subrange(0, i as int), start@, end@),
            decreases hi - i,
        {
            let e = self.read_slot(i);
            proof {
                lemma_range_filter_step(s, start@, end@, i as int);
            }
            if compare_keys(start.as_slice(), e.key.as_slice()) <= 0 && compare_keys(e.key.as_slice(), end.as_slice()) <= 0 {
                res.push(e);
                assert(entries_pairs(res@) =~= range_filter(s.subrange(0, i as int), start@, end@).push(s[i as int]));
            }
            i = i + 1;
        }
        proof {
            // nothing from `hi` on is within `end`
            assert forall|j: int| hi <= j < s.len() implies !in_range(#[trigger] s[j].0, start@, end@) by {
                assert(hi == page_end * epp + epp);
                assert(page_end + 1 < self.fence_pointers@.len()) by {
                    if page_end + 1 >= self.fence_pointers@.len() {
                        assert(self.size <= (page_end + 1) * epp);
                        assert((page_end + 1) * epp == page_end * epp + epp) by (nonlinear_arith);
                    }
                }
                assert((page_end + 1) * epp == page_end * epp + epp) by (nonlinear_arith);
                assert(key_lt(end@, s[hi as int].0));
                if j > hi {
                    assert(key_lt(s[hi as int].0, s[j].0));
                }
            }
            lemma_range_filter_tail(s, start@, end@, hi as int, s.len() as int);
            assert(s.subrange(0, s.len() as int) =~= s);
        }
        res
    }

    /// Appends `entry`, which must sort above every key already held.
    pub fn put(&mut self, entry: &EntryT)
        requires
            old(self).wf(),
            old(self).writable,
            old(self).size < old(self).max_size,
            entry.key@.len() == KEY_SIZE,
            entry.value@.len() == VALUE_SIZE,
            entry.key@[0] != FILL_BYTE,
            old(self).size > 0 ==> key_lt(old(self).pairs()[old(self).size - 1].0, entry.key@),
        ensures
            final(self).wf(),
            final(self).writable,
            final(self).size == old(self).size + 1,
            final(self).max_size == old(self).max_size,
            final(self).level_index == old(self).level_index,
            final(self).entries_per_page == old(self).entries_per_page,
            final(self).pairs() == old(self).pairs().push(entry@),
    {
        let ghost s0 = self.pairs();
        let ghost d0 = self.data@;
        let ghost nf0 = self.fence_pointers@.len() as int;
        proof {
            lemma_fence_step(self.size as int, nf0, self.entries_per_page as int);
        }
        if self.size % (self.entries_per_page as u64) == 0 {
            self.fence_pointers.push(crate::data_type::copy_bytes(entry.key.as_slice()));
        }
        self.max_key = crate::data_type::copy_bytes(entry.key.as_slice());
        append_bytes(&mut self.data, entry.key.as_slice());
        append_bytes(&mut self.data, entry.value.as_slice());
        let ghost old_bloom = self.bloom_filter;
        self.bloom_filter.bloom_add(key_to_number(entry.key.as_slice()));
        self.size = self.size + 1;
        proof {
            let d = self.data@;
            let n = old(self).size as int;
            assert forall|i: int| 0 <= i < n implies #[trigger] slot_pair(d, i) == slot_pair(d0, i) by {
                assert(slot_key(d, i) =~= slot_key(d0, i));
                assert(slot_value(d, i) =~= slot_value(d0, i));
            }
            assert(slot_key(d, n) =~= entry.key@);
            assert(slot_value(d, n) =~= entry.value@);
            assert(self.pairs() =~= s0.push(entry@));
            lemma_sorted_push(s0, entry@);
            assert forall|i: int| 0 <= i < self.size implies self.bloom_filter.may_contain(key_number(#[trigger] self.pairs()[i].0)) by {
                if i < n {
                    assert(self.pairs()[i] == s0[i]);
                    crate::bloom_filter::lemma_may_contain_kept(&old_bloom, &self.bloom_filter, key_number(s0[i].0));
                }
            }
            let epp = self.entries_per_page as int;
            if n % epp == 0 {
                assert(n == nf0 * epp);
                assert(self.fence_pointers@.len() == nf0 + 1);
                assert((nf0 + 1) * epp == nf0 * epp + epp) by (nonlinear_arith);
                assert(self.fence_pointers@[nf0]@ == entry.key@);
            } else {
                assert(n < nf0 * epp);
                assert(self.fence_pointers@.len() == nf0);
            }
            assert forall|p: int| 0 <= p < self.fence_pointers@.len() implies
                (#[trigger] self.fence_pointers@[p])@ == self.pairs()[p * epp].0 by {
                if p < nf0 {
                    assert(self.fence_pointers@[p] == old(self).fence_pointers@[p]);
                    assert(old(self).fence_pointers@[p]@ == s0[p * epp].0);
                    old(self).lemma_fence_in_run(p);
                } else {
                    assert(p == nf0);
                    assert(p * epp == n);
                }
            }
        }
    }

    /// A run rebuilt from a run image: the leading slots that are complete,
    /// not padding, and in strictly ascending key order, up to `max_size`.
    /// Its bloom filter, fence pointers and largest key are recomputed.
    pub fn from_image(
        image: &[u8],
        max_size: u64,
        bf_bits_per_entry: u64,
        level: usize,
        entries_per_page: usize,
    ) -> (r: Run)
        requires
            max_size * ENTRY_SIZE <= usize::MAX,
            max_size * bf_bits_per_entry <= usize::MAX,
            entries_per_page > 0,
        ensures
            r.wf(),
            !r.writable,
            r.max_size == max_size,
            r.level_index == level,
            r.entries_per_page == entries_per_page,
            r.size == loadable_upto(image@, 0, max_size as int),
            r.pairs() == slots(image@, r.size as nat),
    {
        let mut run = Run::new(max_size, bf_bits_per_entry, level, entries_per_page);
        run.map_write();
        let ghost img = image@;
        let mut i: usize = 0;
        proof {
            lemma_loadable_upto(img, 0, max_size as int);
            assert(run.pairs() =~= slots(img, 0));
        }
        let mut go = true;
        while go && (i as u64) < max_size
            invariant
                run.wf(),
                run.writable,
                run.size == i,
                run.max_size == max_size,
                run.level_index == level,
                run.entries_per_page == entries_per_page,
                i <= max_size,
                img == image@,
                run.pairs() == slots(img, i as nat),
                loadable_upto(img, 0, max_size as int) == loadable_upto(img, i as int, max_size as int),
                !go ==> !slot_loadable(img, i as int),
            decreases (max_size - i) as int + (if go { 1int } else { 0int }),
        {
            if !slot_fits_and_used(image, i) {
                go = false;
            } else {
                let e = read_image_slot(image, i);
                let mut ascending = true;
                if i > 0 {
                    let prev = read_image_slot(image, i - 1);
                    if compare_keys(prev.key.as_slice(), e.key.as_slice()) >= 0 {
                        ascending = false;
                    }
                }
                if !ascending {
                    go = false;
                } else {
                    proof {
                        assert(slot_loadable(img, i as int));
                        if i > 0 {
                            assert(run.pairs()[i - 1] == slot_pair(img, i - 1));
                        }
                    }
                    run.put(&e);
                    i = i + 1;
                    assert(run.pairs() =~= slots(img, i as nat));
                }
            }
        }
        assert(loadable_upto(img, i as int, max_size as int) == i);
        run.unmap();
        run
    }

    /// The run's file image: the occupied slots, then padding up to
    /// `max_size` slots.
    pub fn image(&self) -> (r: Vec<u8>)
        requires
            self.wf(),
        ensures
            r@ == image_of(*self),
    {
        let mut r = crate::data_type::copy_bytes(self.data.as_slice());
        let total = self.max_size as usize * ENTRY_SIZE;
        let mut i: usize = self.data.len();
        while i < total
            invariant
                self.wf(),
                total == self.max_size * ENTRY_SIZE,
                self.data@.len() <= i <= total,
                r@ == self.data@ + Seq::new((i - self.data@.len()) as nat, |j: int| FILL_BYTE),
            decreases total - i,
        {
            r.push(FILL_BYTE);
            i = i + 1;
            assert(r@ =~= self.data@ + Seq::new((i - self.data@.len()) as nat, |j: int| FILL_BYTE));
        }
        r
    }

    /// Number of bytes of this run's file: `max_size` slots.
    pub fn file_len(&self) -> (r: usize)
        requires
            self.wf(),
        ensures
            r == self.max_size * ENTRY_SIZE,
    {
        self.max_size as usize * ENTRY_SIZE
    }
}

/// Appends the bytes of `b` to `d`.
fn append_bytes(d: &mut Vec<u8>, b: &[u8])
    ensures
        final(d)@ == old(d)@ + b@,
{
    let ghost d0 = d@;
    let mut j: usize = 0;
    while j < b.len()
        invariant
            j <= b.len(),
            d@ == d0 + b@.subrange(0, j as int),
        decreases b.len() - j,
    {
        d.push(b[j]);
        j = j + 1;
        assert(d@ =~= d0 + b@.subrange(0, j as int));
    }
    assert(b@.subrange(0, b@.len() as int) =~= b@);
}

/// The file image of a run: its occupied slots, then padding up to `max_size` slots.
pub open spec fn image_of(r: Run) -> Seq<u8> {
    r.data@ + Seq::new(((r.max_size - r.size) * ENTRY_SIZE) as nat, |j: int| FILL_BYTE)
}

proof fn lemma_loadable_prefix(d: Seq<u8>, i: int, n: int, max: int)
    requires
        0 <= i <= n <= max,
        forall|j: int| i <= j < n ==> #[trigger] slot_loadable(d, j),
        n < max ==> !slot_loadable(d, n),
    ensures
        loadable_upto(d, i, max) == n,
    decreases n - i,
{
    if i < n {
        lemma_loadable_prefix(d, i + 1, n, max);
    }
}

/// Reading a run back from its file image gives the same entries.
pub proof fn lemma_image_round_trip(r: Run)
    requires
        r.wf(),
    ensures
        loadable_upto(image_of(r), 0, r.max_size as int) == r.size,
        slots(image_of(r), r.size as nat) == r.pairs(),
{
    let img = image_of(r);
    let n = r.size as int;
    lemma_key_order();
    assert forall|i: int| 0 <= i < n implies #[trigger] slot_pair(img, i) == slot_pair(r.data@, i) by {
        assert(slot_key(img, i) =~= slot_key(r.data@, i));
        assert(slot_value(img, i) =~= slot_value(r.data@, i));
    }
    assert forall|i: int| 0 <= i < n implies #[trigger] slot_loadable(img, i) by {
        assert(slot_pair(img, i) == r.pairs()[i]);
        assert(img[i * ENTRY_SIZE] == slot_key(img, i)[0]);
        if i > 0 {
            assert(slot_pair(img, i - 1) == r.pairs()[i - 1]);
            assert(key_lt(r.pairs()[i - 1].0, r.pairs()[i].0));
        }
        assert((i + 1) * ENTRY_SIZE <= img.len());
        assert(!slot_is_unused(img, i));
    }
    if n < r.max_size {
        assert(slot_is_unused(img, n)) by {
            assert(n * ENTRY_SIZE >= r.data@.len());
        }
    }
    lemma_loadable_prefix(img, 0, n, r.max_size as int);
    assert(slots(img, r.size as nat) =~= r.pairs());
}

/// Slot `i` of `image` is complete and in use.
fn slot_fits_and_used(image: &[u8], i: usize) -> (r: bool)
    ensures
        r == ((i + 1) * ENTRY_SIZE <= image@.len() && !slot_is_unused(image@, i as int)),
{
    let len = image.len();
    if i >= usize::MAX / ENTRY_SIZE || (i + 1) * ENTRY_SIZE > len {
        return false;
    }
    image[i * ENTRY_SIZE] != FILL_BYTE
}

/// Decodes slot `i` of `image`.
fn read_image_slot(image: &[u8], i: usize) -> (r: EntryT)
    requires
        (i + 1) * ENTRY_SIZE <= image@.len(),
    ensures
        r@ == slot_pair(image@, i as int),
{
    let len = image.len();
    let base = i * ENTRY_SIZE;
    let mut key: Vec<u8> = Vec::with_capacity(KEY_SIZE);
    let mut j: usize = 0;
    while j < KEY_SIZE
        invariant
            len == image@.len(),
            base == i * ENTRY_SIZE,
            (i + 1) * ENTRY_SIZE <= image@.len(),
            j <= KEY_SIZE,
            key@ == image@.subrange(base as int, base + j),
        decreases KEY_SIZE - j,
    {
        key.push(image[base + j]);
        j = j + 1;
        assert(key@ =~= image@.subrange(base as int, base + j));
    }
    let mut value: Vec<u8> = Vec::with_capacity(VALUE_SIZE);
    let mut j: usize = KEY_SIZE;
    while j < ENTRY_SIZE
        invariant
            len == image@.len(),
            base == i * ENTRY_SIZE,
            (i + 1) * ENTRY_SIZE <= image@.len(),
            KEY_SIZE <= j <= ENTRY_SIZE,
            value@ == image@.subrange(base + KEY_SIZE, base + j),
        decreases ENTRY_SIZE - j,
    {
        value.push(image[base + j]);
        j = j + 1;
        assert(value@ =~= image@.subrange(base + KEY_SIZE, base + j));
    }
    EntryT { key: key, value: value }
}

/// No pair of the first `n` passes the interval test: the filter of that
/// prefix is empty.
pub proof fn lemma_range_filter_none(s: Seq<Pair>, start: Seq<u8>, end: Seq<u8>, n: int)
    requires
        0 <= n <= s.len(),
        forall|i: int| 0 <= i < n ==> !in_range(#[trigger] s[i].0, start, end),
    ensures
        range_filter(s.subrange(0, n), start, end) == Seq::<Pair>::empty(),
    decreases n,
{
    if n == 0 {
        assert(s.subrange(0, 0) =~= Seq::<Pair>::empty());
        reveal(Seq::filter);
        assert(range_filter(Seq::<Pair>::empty(), start, end) =~= Seq::<Pair>::empty());
    } else {
        lemma_range_filter_none(s, start, end, n - 1);
        lemma_range_filter_step(s, start, end, n - 1);
    }
}

/// Pairs from `m` to `n` that fail the interval test leave the filter as it is.
pub proof fn lemma_range_filter_tail(s: Seq<Pair>, start: Seq<u8>, end: Seq<u8>, m: int, n: int)
    requires
        0 <= m <= n <= s.len(),
        forall|i: int| m <= i < n ==> !in_range(#[trigger] s[i].0, start, end),
    ensures
        range_filter(s.subrange(0, n), start, end) == range_filter(s.subrange(0, m), start, end),
    decreases n - m,
{
    if n > m {
        lemma_range_filter_tail(s, start, end, m, n - 1);
        lemma_range_filter_step(s, start, end, n - 1);
    }
}

} // verus!
