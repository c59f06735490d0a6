use vstd::prelude::*;
use crate::data_type::{
    compare_keys, copy_bytes, key_lt, opt_bytes, lemma_key_order, EntryT, KeyT, Pair, ValueT,
};
use crate::sorted::{
    lemma_pairs_map, lemma_range_filter_step, lemma_sorted_unique, pairs_map,
    range_filter, strictly_sorted,
};

verus! {

/// The pairs of a vector of entries.
pub open spec fn entries_pairs(v: Seq<EntryT>) -> Seq<Pair> {
    v.map_values(|e: EntryT| e@)
}

/// The in-memory write buffer: entries kept sorted by key, one per key.
pub struct Buffer {
    pub max_size: usize,
    pub entries: Vec<EntryT>,
}

impl View for Buffer {
    type V = Map<Seq<u8>, Seq<u8>>;

    /// The key/value map that the buffer holds.
    open spec fn view(&self) -> Map<Seq<u8>, Seq<u8>> {
        pairs_map(self.pairs())
    }
}

impl Buffer {
    /// The entries as pairs, in ascending key order.
    pub open spec fn pairs(&self) -> Seq<Pair> {
        entries_pairs(self.entries@)
    }

    pub open spec fn wf(&self) -> bool {
        &&& strictly_sorted(self.pairs())
        &&& self.entries@.len() <= self.max_size
    }

    pub fn new(size: usize) -> (r: Buffer)
        ensures
            r.wf(),
            r.max_size == size,
            r.entries@.len() == 0,
            r@ == Map::<Seq<u8>, Seq<u8>>::empty(),
    {
        let r = Buffer { max_size: size, entries: Vec::new() };
        assert(r.pairs() =~= Seq::<Pair>::empty());
        r
    }

    /// Position of the first entry whose key is not below `key`, and whether
    /// that entry has exactly `key`.
    fn locate(&self, key: &[u8]) -> (r: (bool, usize))
        requires
            self.wf(),
        ensures
            r.1 <= self.entries@.len(),
            forall|i: int| 0 <= i < r.1 ==> key_lt(#[trigger] self.pairs()[i].0, key@),
            forall|i: int| r.1 <= i < self.entries@.len() ==> !key_lt(#[trigger] self.pairs()[i].0, key@),
            r.0 <==> (r.1 < self.entries@.len() && self.pairs()[r.1 as int].0 == key@),
    {
        proof {
            lemma_key_order();
        }
        let ghost p = self.pairs();
        let mut lo: usize = 0;
        let mut hi: usize = self.entries.len();
        while lo < hi
            invariant
                p == self.pairs(),
                self.wf(),
                lo <= hi <= self.entries@.len(),
                forall|i: int| 0 <= i < lo ==> key_lt(#[trigger] p[i].0, key@),
                forall|i: int| hi <= i < self.entries@.len() ==> !key_lt(#[trigger] p[i].0, key@),
            decreases hi - lo,
        {
            proof {
                lemma_key_order();
            }
            let mid = lo + (hi - lo) / 2;
            let c = compare_keys(self.entries[mid].key.as_slice(), key);
            assert(p[mid as int] == self.entries@[mid as int]@);
            if c < 0 {
                assert forall|i: int| 0 <= i < mid + 1 implies key_lt(#[trigger] p[i].0, key@) by {
                    if i < mid {
                        assert(key_lt(p[i].0, p[mid as int].0));
                    }
                }
                lo = mid + 1;
            } else {
                assert forall|i: int| mid <= i < self.entries@.len() implies !key_lt(#[trigger] p[i].0, key@) by {
                    if i > mid {
                        assert(key_lt(p[mid as int].0, p[i].0));
                    }
                }
                hi = mid;
            }
        }
        if lo < self.entries.len() {
            let c = compare_keys(self.entries[lo].key.as_slice(), key);
            assert(p[lo as int] == self.entries@[lo as int]@);
            (c == 0, lo)
        } else {
            (false, lo)
        }
    }

    /// The value stored for `key`, if any.
    pub fn get(&self, key: &KeyT) -> (r: Option<ValueT>)
        requires
            self.wf(),
        ensures
            opt_bytes(r) == self@.get(key@),
    {
        let (found, pos) = self.locate(key.as_slice());
        proof {
            lemma_sorted_unique(self.pairs());
            lemma_pairs_map(self.pairs());
            lemma_key_order();
        }
        if found {
            assert(self.pairs()[pos as int] == self.entries@[pos as int]@);
            Some(copy_bytes(self.entries[pos].value.as_slice()))
        } else {
            assert(!self@.contains_key(key@)) by {
                if self@.contains_key(key@) {
                    let i = choose|i: int| 0 <= i < self.pairs().len() && self.pairs()[i].0 == key@;
                    if i < pos {
                        assert(key_lt(self.pairs()[i].0, key@));
                    } else if i > pos {
                        assert(key_lt(self.pairs()[pos as int].0, self.pairs()[i].0));
                    }
                }
            }
            None
        }
    }

    /// The entries whose key lies in `[start, end]`, in ascending key order.
    pub fn range(&self, start: &KeyT, end: &KeyT) -> (r: Vec<EntryT>)
        requires
            self.wf(),
        ensures
            entries_pairs(r@) == range_filter(self.pairs(), start@, end@),
    {
        let mut res: Vec<EntryT> = Vec::new();
        let mut i: usize = 0;
        let ghost p = self.pairs();
        while i < self.entries.len()
            invariant
                p == self.pairs(),
                i <= self.entries@.len(),
                entries_pairs(res@) == range_filter(p.subrange(0, i as int), start@, end@),
            decreases self.entries@.len() - i,
        {
            let e = &self.entries[i];
            proof {
                lemma_range_filter_step(p, start@, end@, i as int);
            }
            assert(p[i as int] == e@);
            if compare_keys(start.as_slice(), e.key.as_slice()) <= 0 && compare_keys(
                e.key.as_slice(),
                end.as_slice(),
            ) <= 0 {
                let d = e.duplicate();
                res.push(d);
                assert(entries_pairs(res@) =~= range_filter(p.subrange(0, i as int), start@, end@).push(p[i as int]));
            }
            i = i + 1;
        }
        assert(p.subrange(0, p.len() as int) =~= p);
        res
    }

    /// Stores `value` for `key`, replacing any earlier value of that key; a
    /// new key needs a free place below `max_size`.
    pub fn put(&mut self, key: KeyT, value: ValueT)
        requires
            old(self).wf(),
            old(self).entries@.len() < old(self).max_size || old(self)@.contains_key(key@),
        ensures
            final(self).wf(),
            final(self).max_size == old(self).max_size,
            final(self)@ == old(self)@.insert(key@, value@),
            final(self).entries@.len() == old(self).entries@.len() + (if old(self)@.contains_key(key@) {
                0int
            } else {
                1int
            }),
    {
        let (found, pos) = self.locate(key.as_slice());
        let ghost p = self.pairs();
        let ghost kv: Pair = (key@, value@);
        proof {
            lemma_key_order();
            lemma_sorted_unique(p);
            lemma_pairs_map(p);
        }
        let entry = EntryT { key: key, value: value };
        if found {
            self.entries.set(pos, entry);
            let ghost q = self.pairs();
            assert(q =~= p.update(pos as int, kv));
            assert(strictly_sorted(q)) by {
                assert forall|i: int, j: int| 0 <= i < j < q.len() implies key_lt(#[trigger] q[i].0, #[trigger] q[j].0) by {
                    assert(q[i].0 == p[i].0);
                    assert(q[j].0 == p[j].0);
                }
            }
            proof {
                lemma_sorted_unique(q);
                lemma_pairs_map(q);
            }
            assert(self@ =~= old(self)@.insert(key@, value@)) by {
                assert forall|k: Seq<u8>| #[trigger] self@.contains_key(k) implies old(self)@.insert(key@, value@).contains_key(k) by {
                    let i = choose|i: int| 0 <= i < q.len() && q[i].0 == k;
                    if i != pos {
                        assert(p[i].0 == k);
                    }
                }
                assert forall|k: Seq<u8>| #[trigger] old(self)@.insert(key@, value@).contains_key(k) implies self@.contains_key(k) && self@[k] == old(self)@.insert(key@, value@)[k] by {
                    if k != key@ {
                        assert(old(self)@ == pairs_map(p));
                        assert(pairs_map(p).contains_key(k));
                        let i = choose|i: int| 0 <= i < p.len() && p[i].0 == k;
                        assert(q[i] == p[i]);
                        assert(pairs_map(q).contains_key(q[i].0));
                    } else {
                        assert(q[pos as int] == kv);
                        assert(pairs_map(q).contains_key(q[pos as int].0));
                    }
                }
            }
        } else {
            self.entries.insert(pos, entry);
            let ghost q = self.pairs();
            assert(q =~= p.insert(pos as int, kv));
            assert(strictly_sorted(q)) by {
                assert forall|i: int, j: int| 0 <= i < j < q.len() implies key_lt(#[trigger] q[i].0, #[trigger] q[j].0) by {
                    if j < pos {
                        assert(q[i] == p[i] && q[j] == p[j]);
                    } else if j == pos {
                        assert(q[i] == p[i]);
                    } else if i < pos {
                        assert(q[i] == p[i] && q[j] == p[j - 1]);
                        assert(!key_lt(p[j - 1].0, key@));
                        assert(p[j - 1].0 != key@) by {
                            if j - 1 == pos {
                            } else {
                                assert(key_lt(p[pos as int].0, p[j - 1].0));
                            }
                        }
                    } else if i == pos {
                        assert(q[j] == p[j - 1]);
                        assert(!key_lt(p[j - 1].0, key@));
                        assert(p[j - 1].0 != key@) by {
                            if j - 1 == pos {
                            } else {
                                assert(key_lt(p[pos as int].0, p[j - 1].0));
                            }
                        }
                    } else {
                        assert(q[i] == p[i - 1] && q[j] == p[j - 1]);
                    }
                }
            }
            proof {
                lemma_sorted_unique(q);
                lemma_pairs_map(q);
            }
            assert(!old(self)@.contains_key(key@)) by {
                if old(self)@.contains_key(key@) {
                    let i = choose|i: int| 0 <= i < p.len() && p[i].0 == key@;
                    if i < pos {
                        assert(key_lt(p[i].0, key@));
                    } else if i > pos {
                        assert(key_lt(p[pos as int].0, p[i].0));
                    }
                }
            }
            assert(self@ =~= old(self)@.insert(key@, value@)) by {
                assert forall|k: Seq<u8>| #[trigger] self@.contains_key(k) implies old(self)@.insert(key@, value@).contains_key(k) by {
                    let i = choose|i: int| 0 <= i < q.len() && q[i].0 == k;
                    if i < pos {
                        assert(p[i].0 == k);
                    } else if i > pos {
                        assert(p[i - 1].0 == k);
                    }
                }
                assert forall|k: Seq<u8>| #[trigger] old(self)@.insert(key@, value@).contains_key(k) implies self@.contains_key(k) && self@[k] == old(self)@.insert(key@, value@)[k] by {
                    if k != key@ {
                        assert(old(self)@ == pairs_map(p));
                        assert(pairs_map(p).contains_key(k));
                        let i = choose|i: int| 0 <= i < p.len() && p[i].0 == k;
                        if i < pos {
                            assert(q[i] == p[i]);
                            assert(pairs_map(q).contains_key(q[i].0));
                        } else {
                            assert(q[i + 1] == p[i]);
                            assert(pairs_map(q).contains_key(q[i + 1].0));
                        }
                    } else {
                        assert(q[pos as int] == kv);
                        assert(pairs_map(q).contains_key(q[pos as int].0));
                    }
                }
            }
        }
    }

    /// Drops every entry.
    pub fn empty(&mut self)
        ensures
            final(self).wf(),
            final(self).max_size == old(self).max_size,
            final(self).entries@.len() == 0,
            final(self)@ == Map::<Seq<u8>, Seq<u8>>::empty(),
    {
        self.entries.clear();
        assert(self.pairs() =~= Seq::<Pair>::empty());
    }

    /// Whether the buffer holds `max_size` entries.
    pub fn full(&self) -> (r: bool)
        ensures
            r == (self.entries@.len() == self.max_size),
    {
        self.entries.len() == self.max_size
    }

    /// Number of entries held.
    pub fn len(&self) -> (r: usize)
        ensures
            r == self.entries@.len(),
    {
        self.entries.len()
    }
}

} // verus!
