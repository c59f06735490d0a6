use vstd::prelude::*;
use crate::buffer::entries_pairs;
use crate::data_type::{compare_keys, key_le, key_lt, lemma_key_order, EntryT, Pair};
use crate::sorted::{lemma_pairs_map, lemma_sorted_unique, pairs_map, strictly_sorted};

verus! {

/// One sorted input of a merge, with a read position.
pub struct MergeEntry {
    pub precedence: usize,
    pub entries: Vec<EntryT>,
    pub num_entries: usize,
    pub current_index: usize,
}

/// The pairs of a cursor that are not yet consumed.
pub open spec fn cursor_pairs(c: MergeEntry) -> Seq<Pair> {
    entries_pairs(c.entries@).subrange(c.current_index as int, c.num_entries as int)
}

/// The map of the pairs of a cursor that are not yet consumed.
pub open spec fn cursor_map(c: MergeEntry) -> Map<Seq<u8>, Seq<u8>> {
    pairs_map(cursor_pairs(c))
}

/// What is still to come out of a set of cursors: for each key, the value of
/// the latest cursor that still holds the key.
pub open spec fn merged(cs: Seq<MergeEntry>) -> Map<Seq<u8>, Seq<u8>>
    decreases cs.len(),
{
    if cs.len() == 0 {
        Map::empty()
    } else {
        merged(cs.drop_last()).union_prefer_right(cursor_map(cs.last()))
    }
}

/// Number of entries not yet consumed over all cursors.
pub open spec fn pending_of(cs: Seq<MergeEntry>) -> nat
    decreases cs.len(),
{
    if cs.len() == 0 {
        0
    } else {
        pending_of(cs.drop_last()) + (cs.last().num_entries - cs.last().current_index) as nat
    }
}

impl MergeEntry {
    pub open spec fn wf(&self) -> bool {
        &&& self.current_index <= self.num_entries <= self.entries@.len()
        &&& strictly_sorted(entries_pairs(self.entries@).subrange(0, self.num_entries as int))
    }

    pub fn new(ent: Vec<EntryT>, num: usize, pre: usize) -> (r: MergeEntry)
        ensures
            r.precedence == pre,
            r.entries == ent,
            r.num_entries == num,
            r.current_index == 0,
    {
        MergeEntry { precedence: pre, entries: ent, num_entries: num, current_index: 0 }
    }

    /// The entry at the read position.
    pub fn head(&self) -> (r: EntryT)
        requires
            self.wf(),
            self.current_index < self.num_entries,
        ensures
            r@ == self.entries@[self.current_index as int]@,
    {
        self.entries[self.current_index].duplicate()
    }

    /// Whether every entry has been consumed.
    pub fn done(&self) -> (r: bool)
        ensures
            r == (self.current_index == self.num_entries),
    {
        self.current_index == self.num_entries
    }
}

proof fn lemma_cursor_sorted(c: MergeEntry)
    requires
        c.wf(),
    ensures
        strictly_sorted(cursor_pairs(c)),
        cursor_pairs(c).len() == c.num_entries - c.current_index,
        forall|i: int| 0 <= i < cursor_pairs(c).len() ==> #[trigger] cursor_pairs(c)[i] == c.entries@[c.current_index + i]@,
{
    let all = entries_pairs(c.entries@).subrange(0, c.num_entries as int);
    let s = cursor_pairs(c);
    assert forall|i: int, j: int| 0 <= i < j < s.len() implies key_lt(#[trigger] s[i].0, #[trigger] s[j].0) by {
        assert(s[i] == all[c.current_index + i]);
        assert(s[j] == all[c.current_index + j]);
    }
}

/// The head of a cursor is in its map and below all its other keys.
proof fn lemma_cursor_head(c: MergeEntry)
    requires
        c.wf(),
        c.current_index < c.num_entries,
    ensures
        cursor_map(c).contains_key(c.entries@[c.current_index as int].key@),
        cursor_map(c)[c.entries@[c.current_index as int].key@] == c.entries@[c.current_index as int].value@,
        forall|k: Seq<u8>| #[trigger] cursor_map(c).contains_key(k) ==> key_le(c.entries@[c.current_index as int].key@, k),
{
    lemma_cursor_sorted(c);
    let s = cursor_pairs(c);
    lemma_sorted_unique(s);
    lemma_pairs_map(s);
    assert(s[0] == c.entries@[c.current_index as int]@);
    assert(cursor_map(c).contains_key(s[0].0));
    assert forall|k: Seq<u8>| #[trigger] cursor_map(c).contains_key(k) implies key_le(s[0].0, k) by {
        let i = choose|i: int| 0 <= i < s.len() && s[i].0 == k;
        if i > 0 {
            assert(key_lt(s[0].0, s[i].0));
        }
    }
}

/// A cursor that is exhausted has an empty map.
proof fn lemma_cursor_done(c: MergeEntry)
    requires
        c.wf(),
        c.current_index == c.num_entries,
    ensures
        cursor_map(c) == Map::<Seq<u8>, Seq<u8>>::empty(),
{
    assert(cursor_pairs(c) =~= Seq::<Pair>::empty());
}

/// Moving a cursor past its head removes the head's key from its map.
proof fn lemma_cursor_advance(c: MergeEntry, d: MergeEntry)
    requires
        c.wf(),
        c.current_index < c.num_entries,
        d.entries == c.entries,
        d.num_entries == c.num_entries,
        d.current_index == c.current_index + 1,
    ensures
        d.wf(),
        cursor_map(d) == cursor_map(c).remove(c.entries@[c.current_index as int].key@),
{
    lemma_key_order();
    lemma_cursor_sorted(c);
    lemma_cursor_sorted(d);
    let s = cursor_pairs(c);
    let t = cursor_pairs(d);
    let k = c.entries@[c.current_index as int].key@;
    assert(s[0].0 == k);
    lemma_sorted_unique(s);
    lemma_pairs_map(s);
    lemma_sorted_unique(t);
    lemma_pairs_map(t);
    assert forall|x: Seq<u8>| #[trigger] cursor_map(d).contains_key(x) implies cursor_map(c).remove(k).contains_key(x)
        && cursor_map(d)[x] == cursor_map(c).remove(k)[x] by {
        let i = choose|i: int| 0 <= i < t.len() && t[i].0 == x;
        assert(t[i] == s[i + 1]);
        assert(key_lt(s[0].0, s[i + 1].0));
        assert(cursor_map(c).contains_key(s[i + 1].0));
    }
    assert forall|x: Seq<u8>| #[trigger] cursor_map(c).remove(k).contains_key(x) implies cursor_map(d).contains_key(x) by {
        let i = choose|i: int| 0 <= i < s.len() && s[i].0 == x;
        assert(i != 0);
        assert(t[i - 1] == s[i]);
        assert(cursor_map(d).contains_key(t[i - 1].0));
    }
    assert(cursor_map(d) =~= cursor_map(c).remove(k));
}

/// A key is still to come exactly when some cursor still holds it.
proof fn lemma_merged_contains(cs: Seq<MergeEntry>, k: Seq<u8>)
    ensures
        merged(cs).contains_key(k) <==> exists|j: int| 0 <= j < cs.len() && #[trigger] cursor_map(cs[j]).contains_key(k),
    decreases cs.len(),
{
    if cs.len() > 0 {
        let t = cs.drop_last();
        lemma_merged_contains(t, k);
        if merged(cs).contains_key(k) {
            if cursor_map(cs.last()).contains_key(k) {
                assert(cursor_map(cs[cs.len() - 1]).contains_key(k));
            } else {
                let j = choose|j: int| 0 <= j < t.len() && #[trigger] cursor_map(t[j]).contains_key(k);
                assert(cs[j] == t[j]);
            }
        }
        if exists|j: int| 0 <= j < cs.len() && #[trigger] cursor_map(cs[j]).contains_key(k) {
            let j = choose|j: int| 0 <= j < cs.len() && #[trigger] cursor_map(cs[j]).contains_key(k);
            if j < cs.len() - 1 {
                assert(cs[j] == t[j]);
            }
        }
    }
}

/// The value still to come for a key is that of the latest cursor holding it.
proof fn lemma_merged_value(cs: Seq<MergeEntry>, k: Seq<u8>, b: int)
    requires
        0 <= b < cs.len(),
        cursor_map(cs[b]).contains_key(k),
        forall|j: int| b < j < cs.len() ==> !(#[trigger] cursor_map(cs[j]).contains_key(k)),
    ensures
        merged(cs).contains_key(k),
        merged(cs)[k] == cursor_map(cs[b])[k],
    decreases cs.len(),
{
    let t = cs.drop_last();
    if b < cs.len() - 1 {
        assert(!cursor_map(cs[cs.len() - 1]).contains_key(k));
        assert forall|j: int| b < j < t.len() implies !(#[trigger] cursor_map(t[j]).contains_key(k)) by {
            assert(t[j] == cs[j]);
        }
        assert(t[b] == cs[b]);
        lemma_merged_value(t, k, b);
    }
}

/// Removing one key from every cursor removes it from what is to come.
proof fn lemma_merged_remove(cs: Seq<MergeEntry>, ds: Seq<MergeEntry>, k: Seq<u8>)
    requires
        cs.len() == ds.len(),
        forall|j: int| 0 <= j < cs.len() ==> #[trigger] cursor_map(ds[j]) == cursor_map(cs[j]).remove(k),
    ensures
        merged(ds) == merged(cs).remove(k),
    decreases cs.len(),
{
    if cs.len() > 0 {
        let ct = cs.drop_last();
        let dt = ds.drop_last();
        assert forall|j: int| 0 <= j < ct.len() implies #[trigger] cursor_map(dt[j]) == cursor_map(ct[j]).remove(k) by {
            assert(ct[j] == cs[j]);
            assert(dt[j] == ds[j]);
        }
        lemma_merged_remove(ct, dt, k);
        assert(cursor_map(ds.last()) == cursor_map(cs.last()).remove(k));
        assert(merged(ds) =~= merged(cs).remove(k));
    }
}

proof fn lemma_pending_zero(cs: Seq<MergeEntry>)
    requires
        forall|j: int| 0 <= j < cs.len() ==> (#[trigger] cs[j]).wf(),
    ensures
        pending_of(cs) == 0 <==> forall|j: int| 0 <= j < cs.len() ==> (#[trigger] cs[j]).current_index == cs[j].num_entries,
    decreases cs.len(),
{
    if cs.len() > 0 {
        let t = cs.drop_last();
        assert forall|j: int| 0 <= j < t.len() implies (#[trigger] t[j]).wf() by {
            assert(t[j] == cs[j]);
        }
        lemma_pending_zero(t);
        if pending_of(cs) == 0 {
            assert forall|j: int| 0 <= j < cs.len() implies (#[trigger] cs[j]).current_index == cs[j].num_entries by {
                if j < cs.len() - 1 {
                    assert(t[j] == cs[j]);
                }
            }
        }
        if forall|j: int| 0 <= j < cs.len() ==> (#[trigger] cs[j]).current_index == cs[j].num_entries {
            assert forall|j: int| 0 <= j < t.len() implies (#[trigger] t[j]).current_index == t[j].num_entries by {
                assert(t[j] == cs[j]);
            }
            assert(cs[cs.len() - 1].current_index == cs[cs.len() - 1].num_entries);
        }
    }
}

proof fn lemma_pending_decreases(cs: Seq<MergeEntry>, ds: Seq<MergeEntry>, b: int)
    requires
        cs.len() == ds.len(),
        0 <= b < cs.len(),
        forall|j: int| 0 <= j < cs.len() ==> (#[trigger] cs[j]).current_index <= cs[j].num_entries,
        forall|j: int| 0 <= j < cs.len() ==> (#[trigger] ds[j]).num_entries == cs[j].num_entries,
        forall|j: int| 0 <= j < cs.len() ==> cs[j].current_index <= (#[trigger] ds[j]).current_index <= cs[j].num_entries,
        cs[b].current_index < ds[b].current_index,
    ensures
        pending_of(ds) < pending_of(cs),
    decreases cs.len(),
{
    let ct = cs.drop_last();
    let dt = ds.drop_last();
    if b < cs.len() - 1 {
        assert forall|j: int| 0 <= j < ct.len() implies (#[trigger] ct[j]).current_index <= ct[j].num_entries by {
            assert(ct[j] == cs[j]);
        }
        assert forall|j: int| 0 <= j < ct.len() implies (#[trigger] dt[j]).num_entries == ct[j].num_entries by {
            assert(ct[j] == cs[j] && dt[j] == ds[j]);
        }
        assert forall|j: int| 0 <= j < ct.len() implies ct[j].current_index <= (#[trigger] dt[j]).current_index <= ct[j].num_entries by {
            assert(ct[j] == cs[j] && dt[j] == ds[j]);
        }
        assert(ct[b] == cs[b] && dt[b] == ds[b]);
        lemma_pending_decreases(ct, dt, b);
        assert(ds.last() == ds[ds.len() - 1]);
        assert(cs.last() == cs[cs.len() - 1]);
    } else {
        lemma_pending_le(ct, dt);
    }
}

proof fn lemma_pending_le(cs: Seq<MergeEntry>, ds: Seq<MergeEntry>)
    requires
        cs.len() == ds.len(),
        forall|j: int| 0 <= j < cs.len() ==> (#[trigger] cs[j]).current_index <= cs[j].num_entries,
        forall|j: int| 0 <= j < cs.len() ==> (#[trigger] ds[j]).num_entries == cs[j].num_entries,
        forall|j: int| 0 <= j < cs.len() ==> cs[j].current_index <= (#[trigger] ds[j]).current_index <= cs[j].num_entries,
    ensures
        pending_of(ds) <= pending_of(cs),
    decreases cs.len(),
{
    if cs.len() > 0 {
        let ct = cs.drop_last();
        let dt = ds.drop_last();
        assert forall|j: int| 0 <= j < ct.len() implies (#[trigger] ct[j]).current_index <= ct[j].num_entries by {
            assert(ct[j] == cs[j]);
        }
        assert forall|j: int| 0 <= j < ct.len() implies (#[trigger] dt[j]).num_entries == ct[j].num_entries by {
            assert(ct[j] == cs[j] && dt[j] == ds[j]);
        }
        assert forall|j: int| 0 <= j < ct.len() implies ct[j].current_index <= (#[trigger] dt[j]).current_index <= ct[j].num_entries by {
            assert(ct[j] == cs[j] && dt[j] == ds[j]);
        }
        lemma_pending_le(ct, dt);
        assert(ds.last() == ds[ds.len() - 1]);
        assert(cs.last() == cs[cs.len() - 1]);
    }
}

/// A k-way merge of sorted inputs: each key comes out once, in ascending
/// order, with the value of the latest input that holds it.
pub struct MergeContext {
    cursors: Vec<MergeEntry>,
}

pub type MergeContextT = MergeContext;

impl View for MergeContext {
    type V = Map<Seq<u8>, Seq<u8>>;

    /// The pairs still to come out.
    closed spec fn view(&self) -> Map<Seq<u8>, Seq<u8>> {
        merged(self.cursors@)
    }
}

impl MergeContext {
    /// Number of input entries not yet consumed.
    pub closed spec fn pending(&self) -> nat {
        pending_of(self.cursors@)
    }

    pub closed spec fn wf(&self) -> bool {
        forall|j: int| 0 <= j < self.cursors@.len() ==> (#[trigger] self.cursors@[j]).wf()
            && self.cursors@[j].precedence == j
    }

    pub fn new() -> (r: MergeContext)
        ensures
            r.wf(),
            r@ == Map::<Seq<u8>, Seq<u8>>::empty(),
            r.pending() == 0,
    {
        MergeContext { cursors: Vec::new() }
    }

    /// Adds the first `num_entries` of `entries` (sorted, keys unique) as the
    /// newest input: its values win over those of every earlier input.
    pub fn add(&mut self, entries: Vec<EntryT>, num_entries: usize)
        requires
            old(self).wf(),
            num_entries <= entries@.len(),
            strictly_sorted(entries_pairs(entries@).subrange(0, num_entries as int)),
        ensures
            final(self).wf(),
            final(self)@ == old(self)@.union_prefer_right(
                pairs_map(entries_pairs(entries@).subrange(0, num_entries as int)),
            ),
            final(self).pending() == old(self).pending() + num_entries,
    {
        let ghost added = pairs_map(entries_pairs(entries@).subrange(0, num_entries as int));
        if num_entries > 0 {
            let merge_entry = MergeEntry::new(entries, num_entries, self.cursors.len());
            self.cursors.push(merge_entry);
            assert(self.cursors@.drop_last() =~= old(self).cursors@);
            assert(cursor_pairs(merge_entry) =~= entries_pairs(merge_entry.entries@).subrange(0, num_entries as int));
        } else {
            assert(entries_pairs(entries@).subrange(0, 0) =~= Seq::<Pair>::empty());
            assert(self@ =~= old(self)@.union_prefer_right(added));
        }
    }

    /// Takes out the smallest key still to come, with its value.
    pub fn next(&mut self) -> (r: EntryT)
        requires
            old(self).wf(),
            old(self).pending() > 0,
        ensures
            final(self).wf(),
            old(self)@.contains_key(r.key@),
            old(self)@[r.key@] == r.value@,
            forall|k: Seq<u8>| #[trigger] old(self)@.contains_key(k) ==> key_le(r.key@, k),
            final(self)@ == old(self)@.remove(r.key@),
            final(self).pending() < old(self).pending(),
    {
        proof {
            lemma_key_order();
            lemma_pending_zero(self.cursors@);
        }
        let n = self.cursors.len();
        // find the cursor with the smallest head, the latest one on a tie
        let mut best: usize = n;
        let mut j: usize = 0;
        while j < n
            invariant
                n == self.cursors@.len(),
                self.wf(),
                j <= n,
                best == n || (best < j && self.cursors@[best as int].current_index
                    < self.cursors@[best as int].num_entries),
                best == n ==> forall|i: int| 0 <= i < j ==> #[trigger] self.cursors@[i].current_index
                    == self.cursors@[i].num_entries,
                best < n ==> forall|i: int|
                    0 <= i < j && #[trigger] self.cursors@[i].current_index < self.cursors@[i].num_entries
                        ==> key_le(
                        self.cursors@[best as int].entries@[self.cursors@[best as int].current_index as int].key@,
                        self.cursors@[i].entries@[self.cursors@[i].current_index as int].key@,
                    ) && (self.cursors@[best as int].entries@[self.cursors@[best as int].current_index as int].key@
                        == self.cursors@[i].entries@[self.cursors@[i].current_index as int].key@ ==> i <= best),
            decreases n - j,
        {
            proof {
                lemma_key_order();
            }
            let c = &self.cursors[j];
            if c.current_index < c.num_entries {
                if best == n {
                    best = j;
                } else {
                    let b = &self.cursors[best];
                    let cmp = compare_keys(
                        c.entries[c.current_index].key.as_slice(),
                        b.entries[b.current_index].key.as_slice(),
                    );
                    if cmp <= 0 {
                        best = j;
                    }
                }
            }
            j = j + 1;
        }
        if best == n {
            assert(false);
        }
        let ghost cs = self.cursors@;
        let ghost kmin = cs[best as int].entries@[cs[best as int].current_index as int].key@;
        let result = self.cursors[best].head();
        proof {
            lemma_cursor_head(cs[best as int]);
            assert forall|i: int| best < i < cs.len() implies !(#[trigger] cursor_map(cs[i]).contains_key(kmin)) by {
                if cs[i].current_index < cs[i].num_entries {
                    lemma_cursor_head(cs[i]);
                    let hi = cs[i].entries@[cs[i].current_index as int].key@;
                    assert(key_le(kmin, hi));
                    assert(hi != kmin);
                } else {
                    lemma_cursor_done(cs[i]);
                }
            }
            lemma_merged_value(cs, kmin, best as int);
            assert forall|k: Seq<u8>| #[trigger] merged(cs).contains_key(k) implies key_le(kmin, k) by {
                lemma_merged_contains(cs, k);
                let i = choose|i: int| 0 <= i < cs.len() && #[trigger] cursor_map(cs[i]).contains_key(k);
                if cs[i].current_index < cs[i].num_entries {
                    lemma_cursor_head(cs[i]);
                } else {
                    lemma_cursor_done(cs[i]);
                }
            }
        }
        // advance every cursor whose head has the smallest key
        let mut j: usize = 0;
        while j < n
            invariant
                n == self.cursors@.len(),
                n == cs.len(),
                self.wf(),
                j <= n,
                best < n,
                result.key@ == kmin,
                kmin == cs[best as int].entries@[cs[best as int].current_index as int].key@,
                cs[best as int].current_index < cs[best as int].num_entries,
                forall|i: int| 0 <= i < n ==> (#[trigger] cs[i]).wf() && cs[i].precedence == i,
                forall|i: int| 0 <= i < n && cs[i].current_index < cs[i].num_entries ==> key_le(
                    kmin,
                    #[trigger] cs[i].entries@[cs[i].current_index as int].key@,
                ),
                forall|i: int| 0 <= i < n ==> (#[trigger] self.cursors@[i]).entries == cs[i].entries
                    && self.cursors@[i].num_entries == cs[i].num_entries,
                forall|i: int| 0 <= i < n ==> cs[i].current_index <= (#[trigger] self.cursors@[i]).current_index,
                forall|i: int| 0 <= i < j ==> #[trigger] cursor_map(self.cursors@[i]) == cursor_map(cs[i]).remove(kmin),
                forall|i: int| j <= i < n ==> #[trigger] self.cursors@[i] == cs[i],
                j > best ==> self.cursors@[best as int].current_index > cs[best as int].current_index,
            decreases n - j,
        {
            let c = &self.cursors[j];
            let ghost cj = cs[j as int];
            assert(self.cursors@[j as int] == cj);
            if c.current_index < c.num_entries && compare_keys(
                c.entries[c.current_index].key.as_slice(),
                result.key.as_slice(),
            ) == 0 {
                let mut tmp = MergeEntry { precedence: 0, entries: Vec::new(), num_entries: 0, current_index: 0 };
                self.cursors.set_and_swap(j, &mut tmp);
                tmp.current_index = tmp.current_index + 1;
                proof {
                    lemma_cursor_advance(cj, tmp);
                }
                self.cursors.set_and_swap(j, &mut tmp);
            } else {
                proof {
                    if cj.current_index < cj.num_entries {
                        lemma_cursor_head(cj);
                        let hj = cj.entries@[cj.current_index as int].key@;
                        assert(key_lt(kmin, hj));
                        assert(!cursor_map(cj).contains_key(kmin));
                    } else {
                        lemma_cursor_done(cj);
                    }
                    assert(cursor_map(cj).remove(kmin) =~= cursor_map(cj));
                }
                if j == best {
                    assert(false);
                }
            }
            j = j + 1;
        }
        proof {
            lemma_merged_remove(cs, self.cursors@, kmin);
            lemma_pending_decreases(cs, self.cursors@, best as int);
        }
        result
    }

    /// Whether nothing is left to come out.
    pub fn done(&self) -> (r: bool)
        requires
            self.wf(),
        ensures
            r == (self.pending() == 0),
            r == (self@ == Map::<Seq<u8>, Seq<u8>>::empty()),
    {
        proof {
            lemma_pending_zero(self.cursors@);
        }
        let mut j: usize = 0;
        while j < self.cursors.len()
            invariant
                self.wf(),
                j <= self.cursors@.len(),
                forall|i: int| 0 <= i < j ==> #[trigger] self.cursors@[i].current_index == self.cursors@[i].num_entries,
            decreases self.cursors@.len() - j,
        {
            if self.cursors[j].current_index < self.cursors[j].num_entries {
                proof {
                    lemma_pending_zero(self.cursors@);
                    lemma_cursor_head(self.cursors@[j as int]);
                    lemma_merged_contains(
                        self.cursors@,
                        self.cursors@[j as int].entries@[self.cursors@[j as int].current_index as int].key@,
                    );
                }
                return false;
            }
            j = j + 1;
        }
        proof {
            assert forall|k: Seq<u8>| !(#[trigger] merged(self.cursors@).contains_key(k)) by {
                lemma_merged_contains(self.cursors@, k);
                if merged(self.cursors@).contains_key(k) {
                    let i = choose|i: int| 0 <= i < self.cursors@.len() && #[trigger] cursor_map(self.cursors@[i]).contains_key(k);
                    lemma_cursor_done(self.cursors@[i]);
                }
            }
            assert(merged(self.cursors@) =~= Map::<Seq<u8>, Seq<u8>>::empty());
        }
        true
    }
}

} // verus!
