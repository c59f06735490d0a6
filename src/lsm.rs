use vstd::prelude::*;
use vstd::utf8::{decode_utf8, valid_utf8};
use vstd::string::StringSliceAdditionalSpecFns;
use crate::buffer::{entries_pairs, Buffer};
use crate::data_type::{
    compare_keys, is_tombstone, FILL_BYTE, key_le, key_lt, lemma_key_order, opt_bytes, tombstone,
    tombstone_value, EntryT, Pair, ENTRY_SIZE, KEY_SIZE, PAD_BYTE, VALUE_SIZE,
};
use crate::layers::{
    all_runs, lemma_all_runs_split, lemma_all_runs_take_all, lemma_all_runs_update,
    lemma_all_runs_update2, lemma_resolve_replace_block, lemma_resolve_single, lemma_all_runs_take_next,
    all_run_values, lemma_run_values_view, lemma_run_values_take_next, lemma_run_values_append,
    lemma_resolve_append, lemma_resolve_contains, lemma_resolve_first, resolve, restrict_range,
    visible, KvMap,
};
use crate::level::{level_maps, Level};
use crate::merge::MergeContext;
use crate::run::Run;
use crate::sorted::{pairs_map, strictly_sorted};

verus! {

/// Relies on `page_size::get`: the size of a memory page on this machine.
/// Nothing is assumed of the number.
#[verifier::external_body]
fn system_page_size() -> (r: usize) {
    page_size::get()
}

/// Relies on `String::from_utf8`: the text of `b` when `b` is valid UTF-8.
#[verifier::external_body]
fn string_from_utf8(b: Vec<u8>) -> (r: Option<String>)
    ensures
        r.is_some() == valid_utf8(b@),
        r.is_some() ==> r.unwrap()@ == decode_utf8(b@),
{
    String::from_utf8(b).ok()
}

/// Relies on `str::trim`: `s` without leading and trailing characters of
/// Unicode's White_Space property.
#[verifier::external_body]
fn str_trim(s: &str) -> (r: &str)
    ensures
        r@ == trimmed(s@),
{
    s.trim()
}

/// `b` left-padded with `PAD_BYTE` to `n` bytes.
pub open spec fn padded(b: Seq<u8>, n: nat) -> Seq<u8> {
    Seq::new((n - b.len()) as nat, |i: int| PAD_BYTE) + b
}

/// A character of Unicode's White_Space property.
pub open spec fn is_white_space(c: char) -> bool {
    let u = c as u32;
    (0x09 <= u <= 0x0d) || u == 0x20 || u == 0x85 || u == 0xa0 || u == 0x1680 || (0x2000 <= u <= 0x200a)
        || u == 0x2028 || u == 0x2029 || u == 0x202f || u == 0x205f || u == 0x3000
}

/// Position of the first character at or after `i` that is not white space.
pub open spec fn trim_start_at(s: Seq<char>, i: int) -> int
    decreases s.len() - i,
{
    if 0 <= i < s.len() && is_white_space(s[i]) {
        trim_start_at(s, i + 1)
    } else {
        i
    }
}

/// One past the last character before `j`, and not before `lo`, that is not
/// white space.
pub open spec fn trim_end_at(s: Seq<char>, j: int, lo: int) -> int
    decreases j - lo,
{
    if lo < j && j <= s.len() && is_white_space(s[j - 1]) {
        trim_end_at(s, j - 1, lo)
    } else {
        j
    }
}

/// `s` without its leading and trailing white space.
pub open spec fn trimmed(s: Seq<char>) -> Seq<char> {
    let a = trim_start_at(s, 0);
    s.subrange(a, trim_end_at(s, s.len() as int, a))
}

/// The text a stored value reads as: its bytes as UTF-8, with the padding
/// and any other white space at either end taken off.
pub open spec fn value_text(v: Seq<u8>) -> Option<Seq<char>> {
    if valid_utf8(v) {
        Some(trimmed(decode_utf8(v)))
    } else {
        None
    }
}

/// What a lookup of `k` in the visible map `m` reads as.
pub open spec fn lookup_text(m: KvMap, k: Seq<u8>) -> Option<Seq<char>> {
    if m.contains_key(k) {
        value_text(m[k])
    } else {
        None
    }
}

pub open spec fn opt_text(o: Option<String>) -> Option<Seq<char>> {
    match o {
        Some(s) => Some(s@),
        None => None,
    }
}

/// The bytes of a key string as stored.
pub open spec fn key_of(s: &str) -> Seq<u8> {
    padded(s.spec_bytes(), KEY_SIZE as nat)
}

/// The bytes of a value string as stored.
pub open spec fn value_of(s: &str) -> Seq<u8> {
    padded(s.spec_bytes(), VALUE_SIZE as nat)
}

/// Every key and value of `m` has the stored sizes, and no key starts with
/// the byte that fills unused run slots.
pub open spec fn sized_map(m: KvMap) -> bool {
    forall|k: Seq<u8>| #[trigger] m.contains_key(k) ==> k.len() == KEY_SIZE && m[k].len() == VALUE_SIZE
        && k[0] != FILL_BYTE
}

/// A level in good order: within its run budget, and each run sized to the level.
pub open spec fn level_ok(l: Level, bits: u64, epp: usize) -> bool {
    &&& l.runs@.len() <= l.max_runs
    &&& l.max_run_size * ENTRY_SIZE <= usize::MAX
    &&& l.max_run_size * bits <= usize::MAX
    &&& forall|r: int| 0 <= r < l.runs@.len() ==> (#[trigger] l.runs@[r]).wf()
        && l.runs@[r].max_size == l.max_run_size && l.runs@[r].entries_per_page == epp
}

/// Levels in good order: each within its budgets, all taking the same
/// number of runs, and each level's runs as large as a full level above.
pub open spec fn levels_ok(ls: Seq<Level>, bits: u64, epp: usize) -> bool {
    &&& forall|i: int| 0 <= i < ls.len() ==> level_ok(#[trigger] ls[i], bits, epp)
    &&& forall|i: int| 0 <= i < ls.len() ==> (#[trigger] ls[i]).max_runs == ls[0].max_runs
    &&& forall|i: int| 0 <= i < ls.len() - 1 ==> (#[trigger] ls[i + 1]).max_run_size
        == ls[i].max_run_size * ls[i].max_runs
}

/// Replacing one level by another in good order with the same budgets keeps
/// the levels in good order.
proof fn lemma_levels_update(ls: Seq<Level>, i: int, l: Level, bits: u64, epp: usize)
    requires
        0 <= i < ls.len(),
        levels_ok(ls, bits, epp),
        level_ok(l, bits, epp),
        l.max_runs == ls[i].max_runs,
        l.max_run_size == ls[i].max_run_size,
    ensures
        levels_ok(ls.update(i, l), bits, epp),
{
    let u = ls.update(i, l);
    assert forall|j: int| 0 <= j < u.len() implies level_ok(#[trigger] u[j], bits, epp) by {
        if j != i {
            assert(u[j] == ls[j]);
        }
    }
    assert forall|j: int| 0 <= j < u.len() implies (#[trigger] u[j]).max_runs == u[0].max_runs by {
        assert(ls[j].max_runs == ls[0].max_runs);
    }
    assert forall|j: int| 0 <= j < u.len() - 1 implies (#[trigger] u[j + 1]).max_run_size
        == u[j].max_run_size * u[j].max_runs by {
        assert(ls[j + 1].max_run_size == ls[j].max_run_size * ls[j].max_runs);
    }
}

/// Entries per run at depth `i`: the buffer size times `fanout` to the `i`.
pub open spec fn run_capacity(buf: int, fanout: int, i: nat) -> int
    decreases i,
{
    if i == 0 {
        buf
    } else {
        run_capacity(buf, fanout, (i - 1) as nat) * fanout
    }
}


/// The visible map after writing `v` for `k`: a tombstone deletes.
pub open spec fn put_visible(m: KvMap, k: Seq<u8>, v: Seq<u8>) -> KvMap {
    if v == tombstone() {
        m.remove(k)
    } else {
        m.insert(k, v)
    }
}

/// A map with its tombstoned entries dropped.
pub open spec fn without_tombstones(m: KvMap) -> KvMap {
    Map::new(|k: Seq<u8>| m.contains_key(k) && m[k] != tombstone(), |k: Seq<u8>| m[k])
}

/// A tree in good order keeps the same shape: levels, budgets and settings.
pub open spec fn same_shape(a: &LSMTree, b: &LSMTree) -> bool {
    &&& a.levels@.len() == b.levels@.len()
    &&& a.depth == b.depth
    &&& a.bf_bits_per_entry == b.bf_bits_per_entry
    &&& a.entries_per_page == b.entries_per_page
    &&& a.tree_name == b.tree_name
    &&& a.worker_count == b.worker_count
    &&& a.buffer.max_size == b.buffer.max_size
    &&& forall|i: int| 0 <= i < a.levels@.len() ==> (#[trigger] a.levels@[i]).max_runs == b.levels@[i].max_runs
        && a.levels@[i].max_run_size == b.levels@[i].max_run_size
}

/// The key/value sizes of a run's entries are the stored sizes.
proof fn lemma_run_sized(r: Run)
    requires
        r.wf(),
    ensures
        sized_map(r@),
{
    crate::sorted::lemma_sorted_unique(r.pairs());
    crate::sorted::lemma_pairs_map(r.pairs());
    assert forall|k: Seq<u8>| #[trigger] r@.contains_key(k) implies k.len() == KEY_SIZE && r@[k].len() == VALUE_SIZE by {
        let i = choose|i: int| 0 <= i < r.pairs().len() && r.pairs()[i].0 == k;
        assert((i + 1) * ENTRY_SIZE <= r.data@.len());
    }
}

/// Writing into the topmost map writes into what a stack shows.
proof fn lemma_visible_insert(m: KvMap, k: Seq<u8>, v: Seq<u8>)
    ensures
        visible(m.insert(k, v)) == put_visible(visible(m), k, v),
{
    assert(visible(m.insert(k, v)) =~= put_visible(visible(m), k, v));
}


/// The texts of a list of strings.
pub open spec fn texts_of(v: Seq<String>) -> Seq<Seq<char>> {
    v.map_values(|s: String| s@)
}

/// The texts of the values of a list of pairs, in order, skipping values
/// that are not UTF-8.
pub open spec fn texts_in_order(s: Seq<Pair>) -> Seq<Seq<char>>
    decreases s.len(),
{
    if s.len() == 0 {
        Seq::empty()
    } else {
        let rest = texts_in_order(s.drop_last());
        match value_text(s.last().1) {
            Some(t) => rest.push(t),
            None => rest,
        }
    }
}

/// The pairs of a map as a list in ascending key order.
pub open spec fn sorted_pairs(m: KvMap) -> Seq<Pair> {
    choose|s: Seq<Pair>| strictly_sorted(s) && pairs_map(s) == m
}


/// Dropping the tombstoned pairs of a sorted list keeps it sorted, and its
/// map loses exactly the tombstoned keys.
proof fn lemma_tombstone_filter(s: Seq<Pair>)
    requires
        strictly_sorted(s),
    ensures
        strictly_sorted(s.filter(|p: Pair| p.1 != tombstone())),
        pairs_map(s.filter(|p: Pair| p.1 != tombstone())) == without_tombstones(pairs_map(s)),
    decreases s.len(),
{
    let pred = |p: Pair| p.1 != tombstone();
    reveal(Seq::filter);
    lemma_key_order();
    if s.len() == 0 {
        assert(s.filter(pred) =~= Seq::<Pair>::empty());
        assert(without_tombstones(pairs_map(s)) =~= Map::<Seq<u8>, Seq<u8>>::empty());
    } else {
        let t = s.drop_last();
        assert(strictly_sorted(t));
        lemma_tombstone_filter(t);
        let ft = t.filter(pred);
        let fs = s.filter(pred);
        crate::sorted::lemma_sorted_unique(s);
        crate::sorted::lemma_sorted_unique(t);
        crate::sorted::lemma_pairs_map(s);
        crate::sorted::lemma_pairs_map(t);
        assert forall|k: Seq<u8>| #[trigger] pairs_map(t).contains_key(k) implies key_lt(k, s.last().0) by {
            let a = choose|a: int| 0 <= a < t.len() && t[a].0 == k;
            assert(s[a].0 == k);
        }
        if pred(s.last()) {
            assert(fs == ft.push(s.last()));
            crate::sorted::lemma_sorted_unique(ft);
            crate::sorted::lemma_pairs_map(ft);
            if ft.len() > 0 {
                assert(pairs_map(ft).contains_key(ft.last().0));
            }
            crate::sorted::lemma_sorted_push(ft, s.last());
            assert(fs.drop_last() =~= ft);
            assert(pairs_map(fs) =~= without_tombstones(pairs_map(s)));
        } else {
            assert(fs == ft);
            assert(pairs_map(fs) =~= without_tombstones(pairs_map(s)));
        }
    }
}

/// The sorted stored pairs of an interval, less the tombstoned ones, are
/// the visible pairs of the interval in ascending key order.
proof fn lemma_visible_sorted(all: Seq<Pair>, raw: KvMap, start: Seq<u8>, end: Seq<u8>, vis: KvMap)
    requires
        strictly_sorted(all),
        pairs_map(all) == restrict_range(raw, start, end),
        vis == visible(raw),
    ensures
        all.filter(|p: Pair| p.1 != tombstone()) == sorted_pairs(restrict_range(vis, start, end)),
{
    let f = all.filter(|p: Pair| p.1 != tombstone());
    lemma_tombstone_filter(all);
    assert(pairs_map(f) =~= restrict_range(vis, start, end));
    let c = sorted_pairs(restrict_range(vis, start, end));
    assert(strictly_sorted(c) && pairs_map(c) == restrict_range(vis, start, end));
    crate::sorted::lemma_sorted_map_determines(f, c);
}


/// The map of the run made by compacting level `t` of `ls` into level
/// `t + 1`: the newest value of each key of level `t`, tombstones dropped
/// when level `t + 1` is the deepest and holds no run.
pub open spec fn compacted_map(ls: Seq<Level>, t: int) -> KvMap {
    if t + 2 == ls.len() && ls[t + 1].runs@.len() == 0 {
        without_tombstones(resolve(level_maps(ls[t])))
    } else {
        resolve(level_maps(ls[t]))
    }
}

/// The first level from `i` on with room for one more run; `ls.len()` when
/// there is none.
pub open spec fn first_room(ls: Seq<Level>, i: int) -> int
    decreases ls.len() - i,
{
    if i >= ls.len() || (0 <= i && ls[i].runs@.len() < ls[i].max_runs) {
        i
    } else {
        first_room(ls, i + 1)
    }
}

proof fn lemma_first_room(ls: Seq<Level>, i: int)
    requires
        0 <= i <= ls.len(),
    ensures
        i <= first_room(ls, i) <= ls.len(),
        first_room(ls, i) < ls.len() ==> ls[first_room(ls, i)].runs@.len() < ls[first_room(ls, i)].max_runs,
        forall|u: int| i <= u < first_room(ls, i) ==> !(#[trigger] ls[u].runs@.len() < ls[u].max_runs),
    decreases ls.len() - i,
{
    if i < ls.len() && !(ls[i].runs@.len() < ls[i].max_runs) {
        lemma_first_room(ls, i + 1);
    }
}

/// The runs of level `u` after levels `current .. j` (all full, `j` the
/// first level from `current` on with room) were each compacted into the
/// next, deepest first: level `current` is left empty, each level from
/// `current + 1` to `j` starts with the run made from the level above, and
/// level `j` keeps its runs behind it.
pub open spec fn runs_after_merge(ls: Seq<Level>, current: int, j: int, u: int, runs: Seq<Run>) -> bool {
    if u < current || u > j || j == current {
        runs == ls[u].runs@
    } else if u == current {
        runs.len() == 0
    } else {
        &&& runs.len() >= 1
        &&& runs[0].pairs() == sorted_pairs(compacted_map(ls, u - 1))
        &&& runs.drop_first() == (if u == j { ls[u].runs@ } else { Seq::<Run>::empty() })
    }
}

/// A sorted list of pairs is the sorted list of its map.
proof fn lemma_sorted_pairs_of(s: Seq<Pair>)
    requires
        strictly_sorted(s),
    ensures
        s == sorted_pairs(pairs_map(s)),
{
    let c = sorted_pairs(pairs_map(s));
    assert(strictly_sorted(c) && pairs_map(c) == pairs_map(s));
    crate::sorted::lemma_sorted_map_determines(s, c);
}

/// How a write of `v` for `k` leaves tree `a` as tree `b`, `r` telling whether
/// it was taken. With space in the buffer, the pair goes into the buffer and
/// the levels stay as they were. With a full buffer and room in some level,
/// the old buffer becomes, in key order, the new front run of level 0 (after
/// compaction made room there) and the buffer holds only the new pair. With
/// no room anywhere, nothing changes.
pub open spec fn put_outcome(a: &LSMTree, b: &LSMTree, k: Seq<u8>, v: Seq<u8>, r: bool) -> bool {
    &&& b.wf()
    &&& same_shape(b, a)
    &&& r == a.has_room()
    &&& b@ == (if r { put_visible(a@, k, v) } else { a@ })
    &&& !r ==> *b == *a
    &&& a.buffer.entries@.len() < a.buffer.max_size ==> b.levels@ == a.levels@ && b.buffer@ == a.buffer@.insert(k, v)
        && b.buffer.entries@.len() == a.buffer.entries@.len() + (if a.buffer@.contains_key(k) { 0int } else { 1int })
    &&& a.buffer.entries@.len() == a.buffer.max_size && r ==> b.levels@[0].runs@.len() > 0
        && b.levels@[0].runs@[0].pairs() == a.buffer.pairs()
        && b.buffer@ == Map::<Seq<u8>, Seq<u8>>::empty().insert(k, v)
        && b.buffer.entries@.len() == 1
        && first_room(a.levels@, 0) < a.levels@.len()
        && runs_after_merge(a.levels@, 0, first_room(a.levels@, 0), 0, b.levels@[0].runs@.drop_first())
        && forall|u: int| 0 < u < a.levels@.len() ==> runs_after_merge(
            a.levels@,
            0,
            first_room(a.levels@, 0),
            u,
            #[trigger] b.levels@[u].runs@,
        )
}

/// A stored key never starts with the fill byte: it starts with a space, or
/// with the leading byte of a UTF-8 character.
proof fn lemma_key_of_first(k: &str)
    requires
        k.spec_bytes().len() <= KEY_SIZE,
    ensures
        key_of(k)[0] != FILL_BYTE,
        key_of(k).len() == KEY_SIZE,
{
    let b = k.spec_bytes();
    if b.len() < KEY_SIZE {
        assert(key_of(k)[0] == PAD_BYTE);
    } else {
        assert(key_of(k)[0] == b[0]);
        assert(k@.len() > 0) by {
            if k@.len() == 0 {
                assert(vstd::utf8::encode_utf8(k@) =~= Seq::<u8>::empty());
            }
        }
        let u = k@[0] as u32;
        assert(b[0] == vstd::utf8::encode_scalar(u)[0]);
        assert((u & 0x7F) as u8 != 0xFFu8) by (bit_vector);
        assert((0xC0u8 | ((u >> 6u32) & 0x1Fu32) as u8) != 0xFFu8) by (bit_vector);
        assert((0xE0u8 | ((u >> 12u32) & 0x0Fu32) as u8) != 0xFFu8) by (bit_vector);
        assert((0xF0u8 | ((u >> 18u32) & 0x7u32) as u8) != 0xFFu8) by (bit_vector);
    }
}

/// A log-structured merge tree: a write buffer over levels of sorted runs.
pub struct LSMTree {
    /// Levels, shallowest (newest) first.
    pub levels: Vec<Level>,
    pub buffer: Buffer,
    pub bf_bits_per_entry: u64,
    pub depth: u64,
    /// Name of the store; callers keep its files under a directory of this name.
    pub tree_name: String,
    /// Number of workers the caller may use for reads over separate runs.
    pub worker_count: u64,
    /// Slots per page of a run, which fence pointers index.
    pub entries_per_page: usize,
}

impl View for LSMTree {
    type V = KvMap;

    /// The key/value pairs that reads see.
    open spec fn view(&self) -> KvMap {
        visible(self.raw())
    }
}

impl LSMTree {
    /// Everything stored, tombstones included: the buffer over the runs,
    /// newest first.
    pub open spec fn raw(&self) -> KvMap {
        resolve(all_runs(self.levels@)).union_prefer_right(self.buffer@)
    }

    pub open spec fn wf(&self) -> bool {
        &&& self.levels@.len() >= 1
        &&& self.levels@.len() == self.depth
        &&& self.entries_per_page > 0
        &&& self.buffer.wf()
        &&& self.buffer.entries@.len() <= self.buffer.max_size
        &&& self.buffer.max_size == self.levels@[0].max_run_size
        &&& self.buffer.max_size >= 1
        &&& sized_map(self.buffer@)
        &&& levels_ok(self.levels@, self.bf_bits_per_entry, self.entries_per_page)
    }

    /// Some level can take one more run.
    pub open spec fn levels_have_room(&self) -> bool {
        exists|i: int| 0 <= i < self.levels@.len() && #[trigger] self.levels@[i].runs@.len() < self.levels@[i].max_runs
    }

    /// A write can be taken: the buffer has space, or it can be flushed.
    pub open spec fn has_room(&self) -> bool {
        self.buffer.entries@.len() < self.buffer.max_size || self.levels_have_room()
    }

    /// Whether a tree with these parameters has every run size and bloom
    /// table size within the machine's word.
    pub open spec fn sizes_fit_spec(buf_max_entries: u64, dep: u64, fanout: u64, bf_bits_per_entry: u64) -> bool {
        forall|i: nat| i < dep ==> #[trigger] run_capacity(buf_max_entries as int, fanout as int, i) * ENTRY_SIZE <= usize::MAX
            && run_capacity(buf_max_entries as int, fanout as int, i) * bf_bits_per_entry <= usize::MAX
    }

    /// Left-pads `input` with spaces to `length` bytes.
    fn fill_str_with_witespace(&self, input: &str, length: usize) -> (r: Vec<u8>)
        requires
            input.len() <= length,
        ensures
            input.spec_bytes().len() <= length,
            r@.len() == length,
            r@ == padded(input.spec_bytes(), length as nat),
    {
        let bytes = input.as_bytes();
        let blen = bytes.len();
        assert(blen == input.spec_bytes().len());
        let n = length - blen;
        let mut res: Vec<u8> = Vec::with_capacity(length);
        let mut i: usize = 0;
        while i < n
            invariant
                i <= n,
                res@ == Seq::new(i as nat, |j: int| PAD_BYTE),
            decreases n - i,
        {
            res.push(PAD_BYTE);
            i = i + 1;
            assert(res@ =~= Seq::new(i as nat, |j: int| PAD_BYTE));
        }
        let mut j: usize = 0;
        while j < bytes.len()
            invariant
                n == length - input.spec_bytes().len(),
                bytes@ == input.spec_bytes(),
                j <= bytes@.len(),
                res@ == Seq::new(n as nat, |x: int| PAD_BYTE) + bytes@.subrange(0, j as int),
            decreases bytes@.len() - j,
        {
            res.push(bytes[j]);
            j = j + 1;
            assert(res@ =~= Seq::new(n as nat, |x: int| PAD_BYTE) + bytes@.subrange(0, j as int));
        }
        assert(bytes@.subrange(0, bytes@.len() as int) =~= bytes@);
        res
    }

    /// The text of a stored value: its bytes as UTF-8 with white space taken
    /// off both ends; absent when they are not valid UTF-8.
    fn vec_u8_to_str(&self, input: &Vec<u8>) -> (r: Option<String>)
        ensures
            opt_text(r) == value_text(input@),
    {
        match string_from_utf8(crate::data_type::copy_bytes(input.as_slice())) {
            Some(text) => Some(str_trim(text.as_str()).to_owned()),
            None => None,
        }
    }

    /// A tree of `dep` levels over a buffer of `buf_max_entries` entries;
    /// level `i` takes `fanout` runs of `buf_max_entries * fanout^i` entries,
    /// each with a bloom filter of `bf_bits_per_entry` bits per entry. A page
    /// of a run holds as many slots as fit the machine's memory page.
    pub fn new(
        buf_max_entries: u64,
        dep: u64,
        fanout: u64,
        bf_bits_per_entry: u64,
        num_threads: u64,
        tree_name: String,
    ) -> (r: LSMTree)
        requires
            1 <= dep <= usize::MAX,
            fanout <= usize::MAX,
            buf_max_entries >= 1,
            Self::sizes_fit_spec(buf_max_entries, dep, fanout, bf_bits_per_entry),
        ensures
            r.wf(),
            r.depth == dep,
            r.tree_name == tree_name,
            r.worker_count == num_threads,
            r.bf_bits_per_entry == bf_bits_per_entry,
            r.buffer.max_size == buf_max_entries,
            r.levels@.len() == dep,
            forall|i: int| 0 <= i < dep ==> (#[trigger] r.levels@[i]).max_run_size == run_capacity(
                buf_max_entries as int,
                fanout as int,
                i as nat,
            ) && r.levels@[i].max_runs == fanout,
            forall|i: int| 0 <= i < dep ==> (#[trigger] r.levels@[i]).runs@.len() == 0,
            r.buffer.entries@.len() == 0,
            r.buffer@ == Map::<Seq<u8>, Seq<u8>>::empty(),
            r@ == Map::<Seq<u8>, Seq<u8>>::empty(),
    {
        let page = system_page_size();
        let per_page = page / ENTRY_SIZE;
        let epp: usize = if per_page == 0 {
            1
        } else {
            per_page
        };
        Self::with_page_entries(buf_max_entries, dep, fanout, bf_bits_per_entry, num_threads, tree_name, epp)
    }

    /// As `new`, with `entries_per_page` slots per page of a run.
    pub fn with_page_entries(
        buf_max_entries: u64,
        dep: u64,
        fanout: u64,
        bf_bits_per_entry: u64,
        num_threads: u64,
        tree_name: String,
        entries_per_page: usize,
    ) -> (r: LSMTree)
        requires
            1 <= dep <= usize::MAX,
            fanout <= usize::MAX,
            buf_max_entries >= 1,
            entries_per_page > 0,
            Self::sizes_fit_spec(buf_max_entries, dep, fanout, bf_bits_per_entry),
        ensures
            r.wf(),
            r.depth == dep,
            r.tree_name == tree_name,
            r.entries_per_page == entries_per_page,
            r.bf_bits_per_entry == bf_bits_per_entry,
            r.worker_count == num_threads,
            r.levels@.len() == dep,
            forall|i: int| 0 <= i < dep ==> (#[trigger] r.levels@[i]).max_run_size == run_capacity(
                buf_max_entries as int,
                fanout as int,
                i as nat,
            ) && r.levels@[i].max_runs == fanout,
            forall|i: int| 0 <= i < dep ==> (#[trigger] r.levels@[i]).runs@.len() == 0,
            r.buffer.max_size == buf_max_entries,
            r.buffer.entries@.len() == 0,
            r.buffer@ == Map::<Seq<u8>, Seq<u8>>::empty(),
            r@ == Map::<Seq<u8>, Seq<u8>>::empty(),
    {
        let mut levels: Vec<Level> = Vec::new();
        let mut max_run_size: u64 = buf_max_entries;
        let mut i: u64 = 0;
        assert(run_capacity(buf_max_entries as int, fanout as int, 0) == buf_max_entries);
        while i < dep
            invariant
                i <= dep,
                levels@.len() == i,
                i < dep ==> max_run_size == run_capacity(buf_max_entries as int, fanout as int, i as nat),
                Self::sizes_fit_spec(buf_max_entries, dep, fanout, bf_bits_per_entry),
                fanout <= usize::MAX,
                forall|j: int| 0 <= j < i ==> (#[trigger] levels@[j]).max_run_size == run_capacity(
                    buf_max_entries as int,
                    fanout as int,
                    j as nat,
                ) && levels@[j].max_runs == fanout && levels@[j].runs@.len() == 0,
            decreases dep - i,
        {
            assert(run_capacity(buf_max_entries as int, fanout as int, i as nat) * bf_bits_per_entry <= usize::MAX);
            assert(max_run_size * ENTRY_SIZE <= usize::MAX);
            levels.push(Level::new(fanout as usize, max_run_size as usize));
            if i + 1 < dep {
                proof {
                    lemma_capacity_step(buf_max_entries as int, fanout as int, i as nat, (i + 1) as nat);
                }
                assert(run_capacity(buf_max_entries as int, fanout as int, (i + 1) as nat) * bf_bits_per_entry <= usize::MAX);
                assert(run_capacity(buf_max_entries as int, fanout as int, (i + 1) as nat) == max_run_size * fanout);
                assert(max_run_size * fanout <= usize::MAX) by (nonlinear_arith)
                    requires
                        max_run_size * fanout * ENTRY_SIZE <= usize::MAX,
                ;
                max_run_size = max_run_size * fanout;
            }
            i = i + 1;
        }
        let tree = LSMTree {
            levels: levels,
            buffer: Buffer::new(buf_max_entries as usize),
            bf_bits_per_entry: bf_bits_per_entry,
            depth: dep,
            tree_name: tree_name,
            worker_count: num_threads,
            entries_per_page: entries_per_page,
        };
        proof {
            assert(sized_map(tree.buffer@));
            assert forall|i: int| 0 <= i < tree.levels@.len() implies level_ok(
                #[trigger] tree.levels@[i],
                tree.bf_bits_per_entry,
                tree.entries_per_page,
            ) by {
                assert(run_capacity(buf_max_entries as int, fanout as int, i as nat) * bf_bits_per_entry <= usize::MAX);
            }
            assert forall|i: int| 0 <= i < tree.levels@.len() - 1 implies (#[trigger] tree.levels@[i + 1]).max_run_size
                == tree.levels@[i].max_run_size * tree.levels@[i].max_runs by {
                lemma_capacity_step(buf_max_entries as int, fanout as int, i as nat, (i + 1) as nat);
            }
            lemma_no_runs(tree.levels@);
            assert(tree.raw() =~= Map::<Seq<u8>, Seq<u8>>::empty());
            assert(tree@ =~= Map::<Seq<u8>, Seq<u8>>::empty());
        }
        tree
    }

    /// The stored value of `key`, tombstone included: the buffer's if it
    /// holds the key, else that of the newest run holding it.
    pub fn get_raw(&self, key: &Vec<u8>) -> (r: Option<Vec<u8>>)
        requires
            self.wf(),
        ensures
            opt_bytes(r) == self.raw().get(key@),
    {
        let b = self.buffer.get(key);
        if b.is_some() {
            return b;
        }
        let ghost ls = self.levels@;
        let ghost all = all_runs(ls);
        let mut j: usize = 0;
        while j < self.levels.len()
            invariant
                self.wf(),
                ls == self.levels@,
                all == all_runs(ls),
                !self.buffer@.contains_key(key@),
                j <= ls.len(),
                all_runs(ls.take(j as int)).len() <= all.len(),
                all_runs(ls.take(j as int)) == all.take(all_runs(ls.take(j as int)).len() as int),
                forall|x: int| 0 <= x < all_runs(ls.take(j as int)).len() ==> !(#[trigger] all[x]).contains_key(key@),
            decreases ls.len() - j,
        {
            let level = &self.levels[j];
            let ghost base = all_runs(ls.take(j as int)).len() as int;
            proof {
                lemma_all_runs_split(ls, j as int);
                assert(level_ok(ls[j as int], self.bf_bits_per_entry, self.entries_per_page));
            }
            let mut r: usize = 0;
            while r < level.runs.len()
                invariant
                    self.wf(),
                    ls == self.levels@,
                    all == all_runs(ls),
                    *level == ls[j as int],
                    j < ls.len(),
                    level_ok(*level, self.bf_bits_per_entry, self.entries_per_page),
                    base == all_runs(ls.take(j as int)).len(),
                    all == all_runs(ls.take(j as int)) + level_maps(ls[j as int]) + all_runs(ls.skip(j + 1)),
                    !self.buffer@.contains_key(key@),
                    r <= level.runs@.len(),
                    forall|x: int| 0 <= x < base + r ==> !(#[trigger] all[x]).contains_key(key@),
                decreases level.runs@.len() - r,
            {
                let run = &level.runs[r];
                assert(all[base + r] == run@);
                let v = run.get(key);
                if v.is_some() {
                    proof {
                        lemma_resolve_first(all, key@, base + r);
                    }
                    return v;
                }
                r = r + 1;
            }
            proof {
                lemma_all_runs_take_next(ls, j as int);
                assert(all_runs(ls.take(j + 1)) =~= all.take(all_runs(ls.take(j + 1)).len() as int));
            }
            j = j + 1;
        }
        proof {
            lemma_all_runs_take_all(ls);
            lemma_resolve_contains(all, key@);
        }
        None
    }

    /// The value stored for `key_str`, read as text; absent when the key was
    /// never written, was deleted, or holds bytes that are not UTF-8.
    pub fn get(&self, key_str: &str) -> (r: Option<String>)
        requires
            self.wf(),
            key_str.len() <= KEY_SIZE,
        ensures
            opt_text(r) == lookup_text(self@, key_of(key_str)),
    {
        let key = self.fill_str_with_witespace(key_str, KEY_SIZE);
        match self.get_raw(&key) {
            Some(v) => {
                if is_tombstone(v.as_slice()) {
                    None
                } else {
                    self.vec_u8_to_str(&v)
                }
            },
            None => None,
        }
    }

    /// Writes the buffer, in key order, into a new run at the front of
    /// level 0, then empties the buffer.
    fn flush_buffer(&mut self)
        requires
            old(self).wf(),
            old(self).levels@[0].runs@.len() < old(self).levels@[0].max_runs,
        ensures
            final(self).wf(),
            same_shape(final(self), old(self)),
            final(self).raw() == old(self).raw(),
            final(self).buffer.entries@.len() == 0,
            final(self).levels@[0].runs@.len() == old(self).levels@[0].runs@.len() + 1,
            final(self).levels@[0].runs@[0].pairs() == old(self).buffer.pairs(),
            final(self).levels@[0].runs@.drop_first() == old(self).levels@[0].runs@,
            forall|i: int| 0 < i < final(self).levels@.len() ==> #[trigger] final(self).levels@[i] == old(self).levels@[i],
    {
        let mrs = self.levels[0].max_run_size;
        proof {
            assert(level_ok(self.levels@[0], self.bf_bits_per_entry, self.entries_per_page));
            crate::sorted::lemma_sorted_unique(self.buffer.pairs());
            crate::sorted::lemma_pairs_map(self.buffer.pairs());
            lemma_key_order();
        }
        let mut run = Run::new(mrs as u64, self.bf_bits_per_entry, 0, self.entries_per_page);
        run.map_write();
        let n = self.buffer.entries.len();
        let ghost bp = self.buffer.pairs();
        let mut i: usize = 0;
        while i < n
            invariant
                self.wf(),
                bp == self.buffer.pairs(),
                n == bp.len(),
                n <= mrs,
                mrs == self.levels@[0].max_run_size,
                run.wf(),
                run.writable,
                run.size == i,
                run.max_size == mrs,
                run.level_index == 0,
                run.entries_per_page == self.entries_per_page,
                i <= n,
                run.pairs() == bp.take(i as int),
            decreases n - i,
        {
            let e = &self.buffer.entries[i];
            proof {
                crate::sorted::lemma_sorted_unique(bp);
                crate::sorted::lemma_pairs_map(bp);
                assert(bp[i as int] == e@);
                assert(self.buffer@.contains_key(bp[i as int].0));
                if i > 0 {
                    assert(run.pairs()[i - 1] == bp[i - 1]);
                    assert(key_lt(bp[i - 1].0, bp[i as int].0));
                }
            }
            run.put(e);
            i = i + 1;
            assert(run.pairs() =~= bp.take(i as int));
        }
        run.unmap();
        assert(bp.take(n as int) =~= bp);
        let ghost m = run@;
        assert(m == self.buffer@);
        let ghost ls = self.levels@;
        let mut lvl = Level::new(0, 0);
        self.levels.set_and_swap(0, &mut lvl);
        lvl.runs.push_front(run);
        let ghost new_l0 = lvl;
        self.levels.set_and_swap(0, &mut lvl);
        self.buffer.empty();
        proof {
            let lvl = new_l0;
            let l0 = ls[0];
            assert(self.levels@[0] == lvl);
            assert(lvl.runs@.drop_first() =~= l0.runs@);
            assert(self.levels@ =~= ls.update(0, lvl));
            assert(level_maps(lvl) =~= seq![m] + level_maps(l0));
            lemma_all_runs_update(ls, 0, lvl);
            lemma_all_runs_split(ls, 0);
            assert(ls.take(0) =~= Seq::<Level>::empty());
            assert(all_runs(Seq::<Level>::empty()) =~= Seq::<KvMap>::empty());
            let rest = all_runs(ls.skip(1));
            assert(all_runs(self.levels@) =~= seq![m] + all_runs(ls));
            lemma_resolve_append(seq![m], all_runs(ls));
            crate::layers::lemma_resolve_single(m);
            assert(self.raw() =~= old(self).raw());
            assert(level_ok(self.levels@[0], self.bf_bits_per_entry, self.entries_per_page)) by {
                assert forall|r: int| 0 <= r < lvl.runs@.len() implies (#[trigger] lvl.runs@[r]).wf()
                    && lvl.runs@[r].max_size == lvl.max_run_size && lvl.runs@[r].entries_per_page == self.entries_per_page by {
                    if r > 0 {
                        assert(lvl.runs@[r] == l0.runs@[r - 1]);
                    }
                }
            }
            lemma_levels_update(ls, 0, lvl, self.bf_bits_per_entry, self.entries_per_page);
            assert(sized_map(self.buffer@));
        }
    }

    /// Merges every run of level `t` into one new run at the front of level
    /// `t + 1` and empties level `t`. Keys keep the value of their newest run.
    /// When level `t + 1` is the deepest and holds no run, nothing older is
    /// left for a tombstone to mask, so tombstoned keys are dropped.
    fn compact_level(&mut self, t: usize)
        requires
            old(self).wf(),
            t + 1 < old(self).levels@.len(),
            old(self).levels@[t + 1].runs@.len() < old(self).levels@[t + 1].max_runs,
        ensures
            final(self).wf(),
            same_shape(final(self), old(self)),
            final(self)@ == old(self)@,
            final(self).buffer == old(self).buffer,
            final(self).levels@[t as int].runs@.len() == 0,
            final(self).levels@[t + 1].runs@.len() == old(self).levels@[t + 1].runs@.len() + 1,
            final(self).levels@[t + 1].runs@.drop_first() == old(self).levels@[t + 1].runs@,
            final(self).levels@[t + 1].runs@[0].pairs() == sorted_pairs(compacted_map(old(self).levels@, t as int)),
            final(self).levels@[t + 1].runs@[0]@ == (if t + 2 == old(self).levels@.len()
                && old(self).levels@[t + 1].runs@.len() == 0 {
                without_tombstones(resolve(level_maps(old(self).levels@[t as int])))
            } else {
                resolve(level_maps(old(self).levels@[t as int]))
            }),
            forall|i: int| 0 <= i < final(self).levels@.len() && i != t && i != t + 1
                ==> #[trigger] final(self).levels@[i] == old(self).levels@[i],
    {
        let ghost ls = self.levels@;
        let ghost bt = level_maps(ls[t as int]);
        let ghost m0 = resolve(bt);
        proof {
            assert(level_ok(ls[t as int], self.bf_bits_per_entry, self.entries_per_page));
            assert(level_ok(ls[t + 1], self.bf_bits_per_entry, self.entries_per_page));
            assert(ls[t + 1].max_run_size == ls[t as int].max_run_size * ls[t as int].max_runs);
        }
        let mrs = self.levels[t].max_run_size;
        let n = self.levels[t].runs.len();
        let mut ctx = MergeContext::new();
        let mut k: usize = n;
        proof {
            assert(bt.subrange(n as int, n as int) =~= Seq::<KvMap>::empty());
        }
        while k > 0
            invariant
                self == old(self),
                ls == self.levels@,
                bt == level_maps(ls[t as int]),
                t + 1 < ls.len(),
                level_ok(ls[t as int], self.bf_bits_per_entry, self.entries_per_page),
                n == ls[t as int].runs@.len(),
                mrs == ls[t as int].max_run_size,
                k <= n,
                ctx.wf(),
                ctx@ == resolve(bt.subrange(k as int, n as int)),
                sized_map(ctx@),
                ctx.pending() <= (n - k) * mrs,
            decreases k,
        {
            let run = &self.levels[t].runs[k - 1];
            let entries = run.map_read_default();
            let size = run.size as usize;
            proof {
                assert(run.wf());
                assert(entries_pairs(entries@).subrange(0, size as int) =~= run.pairs());
                lemma_run_sized(*run);
            }
            let ghost before = ctx@;
            ctx.add(entries, size);
            proof {
                let sub = bt.subrange(k - 1, n as int);
                assert(sub.drop_first() =~= bt.subrange(k as int, n as int));
                assert(sub[0] == run@);
                assert(ctx@ == resolve(sub));
                assert forall|x: Seq<u8>| #[trigger] ctx@.contains_key(x) implies x.len() == KEY_SIZE && ctx@[x].len() == VALUE_SIZE by {
                    if run@.contains_key(x) {
                    } else {
                        assert(before.contains_key(x));
                    }
                }
                assert((n - k + 1) * mrs == (n - k) * mrs + mrs) by (nonlinear_arith);
            }
            k = k - 1;
        }
        proof {
            assert(bt.subrange(0, n as int) =~= bt);
            assert(ctx.pending() <= n * mrs);
            assert(n * mrs <= mrs * ls[t as int].max_runs) by (nonlinear_arith)
                requires
                    n <= ls[t as int].max_runs,
            ;
            assert(ctx.pending() <= ls[t + 1].max_run_size);
        }
        let nlev = self.levels.len();
        assert(t + 1 < nlev);
        let deepest = t + 1 == nlev - 1 && self.levels[t + 1].runs.len() == 0;
        let next_size = self.levels[t + 1].max_run_size;
        let mut out = Run::new(next_size as u64, self.bf_bits_per_entry, t + 1, self.entries_per_page);
        out.map_write();
        let ghost keep = if deepest { without_tombstones(m0) } else { m0 };
        while !ctx.done()
            invariant
                self == old(self),
                ls == self.levels@,
                ctx.wf(),
                sized_map(ctx@),
                out.wf(),
                out.writable,
                out.max_size == next_size,
                out.level_index == t + 1,
                out.entries_per_page == self.entries_per_page,
                out.size + ctx.pending() <= next_size,
                keep == (if deepest { without_tombstones(m0) } else { m0 }),
                out.size > 0 ==> forall|x: Seq<u8>| #[trigger] ctx@.contains_key(x) ==> key_lt(out.pairs()[out.size - 1].0, x),
                forall|x: Seq<u8>| #[trigger] out@.contains_key(x) ==> keep.contains_key(x) && out@[x] == keep[x] && !ctx@.contains_key(x),
                forall|x: Seq<u8>| #[trigger] ctx@.contains_key(x) ==> m0.contains_key(x) && ctx@[x] == m0[x],
                forall|x: Seq<u8>| #[trigger] keep.contains_key(x) ==> out@.contains_key(x) || ctx@.contains_key(x),
            decreases ctx.pending(),
        {
            let ghost c0 = ctx@;
            let e = ctx.next();
            proof {
                lemma_key_order();
            }
            let drop = deepest && is_tombstone(e.value.as_slice());
            if !drop {
                let ghost before = out@;
                let ghost bp = out.pairs();
                out.put(&e);
                proof {
                    assert(out.pairs().drop_last() =~= bp);
                    assert(out@ == before.insert(e.key@, e.value@));
                }
            }
            proof {
                assert forall|x: Seq<u8>| #[trigger] ctx@.contains_key(x) implies key_lt(e.key@, x) by {
                    assert(c0.contains_key(x));
                    assert(key_le(e.key@, x));
                }
            }
        }
        proof {
            assert(keep =~= out@);
        }
        out.unmap();
        let ghost m = out@;
        let mut lt = Level::new(0, 0);
        self.levels.set_and_swap(t, &mut lt);
        lt.runs.clear();
        let ghost new_lt = lt;
        self.levels.set_and_swap(t, &mut lt);
        let mut ln = Level::new(0, 0);
        self.levels.set_and_swap(t + 1, &mut ln);
        ln.runs.push_front(out);
        let ghost new_ln = ln;
        self.levels.set_and_swap(t + 1, &mut ln);
        proof {
            let lt = new_lt;
            let ln = new_ln;
            assert(self.levels@[t + 1] == ln);
            assert(ln.runs@.drop_first() =~= ls[t + 1].runs@);
            assert(ln.runs@[0]@ == m);
            lemma_sorted_pairs_of(ln.runs@[0].pairs());
            assert(self.levels@ =~= ls.update(t as int, lt).update(t + 1, ln));
            lemma_all_runs_update2(ls, t as int, lt, ln);
            lemma_all_runs_update2(ls, t as int, ls[t as int], ls[t + 1]);
            assert(ls.update(t as int, ls[t as int]).update(t + 1, ls[t + 1]) =~= ls);
            assert(level_maps(lt) =~= Seq::<KvMap>::empty());
            assert(level_maps(ln) =~= seq![m] + level_maps(ls[t + 1]));
            let a = all_runs(ls.take(t as int));
            let d = level_maps(ls[t + 1]) + all_runs(ls.skip(t + 2));
            assert(all_runs(ls) =~= a + bt + d);
            assert(all_runs(self.levels@) =~= a + seq![m] + d);
            if deepest {
                assert(ls.skip(t + 2) =~= Seq::<Level>::empty());
                assert(all_runs(Seq::<Level>::empty()) =~= Seq::<KvMap>::empty());
                assert(level_maps(ls[t + 1]) =~= Seq::<KvMap>::empty());
                assert(d =~= Seq::<KvMap>::empty());
                assert(a + bt + d =~= a + bt);
                assert(a + seq![m] + d =~= a + seq![m]);
                lemma_resolve_append(a, bt);
                lemma_resolve_append(a, seq![m]);
                lemma_resolve_single(m);
                assert(visible(self.raw()) =~= visible(old(self).raw()));
            } else {
                lemma_resolve_replace_block(a, bt, m, d);
                assert(self.raw() == old(self).raw());
            }
            assert forall|r: int| 0 <= r < ln.runs@.len() implies (#[trigger] ln.runs@[r]).wf()
                && ln.runs@[r].max_size == ln.max_run_size && ln.runs@[r].entries_per_page == self.entries_per_page by {
                if r > 0 {
                    assert(ln.runs@[r] == ls[t + 1].runs@[r - 1]);
                }
            }
            lemma_levels_update(ls, t as int, lt, self.bf_bits_per_entry, self.entries_per_page);
            lemma_levels_update(ls.update(t as int, lt), t + 1, ln, self.bf_bits_per_entry, self.entries_per_page);
        }
    }

    /// Makes room for one more run at level `current` when any level from
    /// `current` down has room: the full levels above the first one with
    /// room are compacted into the next, deepest first. When every level
    /// from `current` down is full, nothing changes.
    fn merge_down(&mut self, current: usize)
        requires
            old(self).wf(),
            current < old(self).levels@.len(),
        ensures
            final(self).wf(),
            same_shape(final(self), old(self)),
            final(self)@ == old(self)@,
            final(self).buffer == old(self).buffer,
            (final(self).levels@[current as int].runs@.len() < final(self).levels@[current as int].max_runs) <==> (exists|i: int|
                current <= i < old(self).levels@.len() && #[trigger] old(self).levels@[i].runs@.len()
                    < old(self).levels@[i].max_runs),
            old(self).levels@[current as int].runs@.len() < old(self).levels@[current as int].max_runs
                ==> *final(self) == *old(self),
            !(exists|i: int| current <= i < old(self).levels@.len() && #[trigger] old(self).levels@[i].runs@.len()
                < old(self).levels@[i].max_runs) ==> *final(self) == *old(self),
            old(self).levels@[current as int].runs@.len() == old(self).levels@[current as int].max_runs
                && (exists|i: int| current <= i < old(self).levels@.len() && #[trigger] old(self).levels@[i].runs@.len()
                < old(self).levels@[i].max_runs) ==> final(self).levels@[current as int].runs@.len() == 0,
            forall|i: int| 0 <= i < current ==> #[trigger] final(self).levels@[i] == old(self).levels@[i],
            first_room(old(self).levels@, current as int) == old(self).levels@.len() ==> *final(self) == *old(self),
            first_room(old(self).levels@, current as int) < old(self).levels@.len() ==> forall|u: int|
                0 <= u < old(self).levels@.len() ==> runs_after_merge(
                    old(self).levels@,
                    current as int,
                    first_room(old(self).levels@, current as int),
                    u,
                    #[trigger] final(self).levels@[u].runs@,
                ),
    {
        let nlev = self.levels.len();
        let mut j: usize = current;
        while j < nlev && self.levels[j].remaining() == 0
            invariant
                self == old(self),
                self.wf(),
                nlev == self.levels@.len(),
                current <= j <= nlev,
                forall|i: int| current <= i < j ==> #[trigger] self.levels@[i].runs@.len() == self.levels@[i].max_runs,
                first_room(self.levels@, current as int) == first_room(self.levels@, j as int),
            decreases nlev - j,
        {
            proof {
                assert(level_ok(self.levels@[j as int], self.bf_bits_per_entry, self.entries_per_page));
            }
            j = j + 1;
        }
        proof {
            lemma_first_room(self.levels@, j as int);
        }
        if j == nlev {
            proof {
                assert(self.levels@[current as int].runs@.len() == self.levels@[current as int].max_runs);
            }
            return;
        }
        proof {
            assert(level_ok(self.levels@[j as int], self.bf_bits_per_entry, self.entries_per_page));
        }
        let mut t: usize = j;
        while t > current
            invariant
                self.wf(),
                same_shape(self, old(self)),
                self@ == old(self)@,
                self.buffer == old(self).buffer,
                nlev == self.levels@.len(),
                current <= t <= j < nlev,
                old(self).levels@[j as int].runs@.len() < old(self).levels@[j as int].max_runs,
                self.levels@[t as int].runs@.len() < self.levels@[t as int].max_runs,
                t == j ==> *self == *old(self),
                t < j ==> self.levels@[t as int].runs@.len() == 0,
                forall|i: int| 0 <= i < t ==> #[trigger] self.levels@[i] == old(self).levels@[i],
                forall|i: int| current <= i < j ==> #[trigger] old(self).levels@[i].runs@.len() == old(self).levels@[i].max_runs,
                j == first_room(old(self).levels@, current as int),
                forall|u: int| j < u < nlev ==> #[trigger] self.levels@[u] == old(self).levels@[u],
                t < j ==> self.levels@[t as int].runs@.len() == 0,
                forall|u: int| t < u <= j ==> self.levels@[u].runs@.len() >= 1
                    && (#[trigger] self.levels@[u]).runs@[0].pairs() == sorted_pairs(compacted_map(old(self).levels@, u - 1))
                    && self.levels@[u].runs@.drop_first() == (if u == j { old(self).levels@[u].runs@ } else { Seq::<Run>::empty() }),
            decreases t,
        {
            let ghost before = self.levels@;
            proof {
                assert(before[t - 1] == old(self).levels@[t - 1]);
                if t == j {
                    assert(before[t as int] == old(self).levels@[t as int]);
                }
                assert(compacted_map(before, t - 1) == compacted_map(old(self).levels@, t - 1));
            }
            self.compact_level(t - 1);
            proof {
                if t < j {
                    assert(before[t as int].runs@ =~= Seq::<Run>::empty());
                }
                assert forall|u: int| j < u < nlev implies #[trigger] self.levels@[u] == old(self).levels@[u] by {
                    assert(self.levels@[u] == before[u]);
                }
                assert forall|u: int| t - 1 < u <= j implies self.levels@[u].runs@.len() >= 1
                    && (#[trigger] self.levels@[u]).runs@[0].pairs() == sorted_pairs(compacted_map(old(self).levels@, u - 1))
                    && self.levels@[u].runs@.drop_first() == (if u == j { old(self).levels@[u].runs@ } else { Seq::<Run>::empty() }) by {
                    if u > t {
                        assert(self.levels@[u] == before[u]);
                    }
                }
                assert(self.levels@[t - 1].max_runs == self.levels@[0].max_runs);
                assert(self.levels@[j as int].max_runs == self.levels@[0].max_runs);
                assert(old(self).levels@[j as int].max_runs == self.levels@[j as int].max_runs);
            }
            t = t - 1;
        }
    }

    /// Writes `value` for `key` into the buffer, first flushing a full
    /// buffer into level 0 (after compaction makes room there). Returns
    /// false, changing nothing that reads see, when no level has room.
    fn put_entry(&mut self, key: Vec<u8>, value: Vec<u8>) -> (r: bool)
        requires
            old(self).wf(),
            key@.len() == KEY_SIZE,
            value@.len() == VALUE_SIZE,
            key@[0] != FILL_BYTE,
        ensures
            put_outcome(old(self), final(self), key@, value@, r),
    {
        let ghost k = key@;
        let ghost v = value@;
        if !self.buffer.full() {
            let ghost before = self.raw();
            self.buffer.put(key, value);
            proof {
                assert(self.raw() =~= before.insert(k, v));
                lemma_visible_insert(before, k, v);
            }
            return true;
        }
        self.merge_down(0);
        let ghost merged = self.levels@;
        if self.levels[0].remaining() == 0 {
            proof {
                assert(!old(self).levels_have_room());
            }
            return false;
        }
        self.flush_buffer();
        let ghost flushed = self.levels@;
        let ghost before = self.raw();
        self.buffer.put(key, value);
        proof {
            assert(self.raw() =~= before.insert(k, v));
            lemma_visible_insert(before, k, v);
            assert(old(self).levels_have_room());
            let a = old(self).levels@;
            lemma_first_room(a, 0);
            let j = first_room(a, 0);
            if j == a.len() {
                let i = choose|i: int| 0 <= i < a.len() && #[trigger] a[i].runs@.len() < a[i].max_runs;
                assert(!(a[i].runs@.len() < a[i].max_runs));
            }
            assert(self.levels@ == flushed);
            assert(runs_after_merge(a, 0, j, 0, merged[0].runs@));
            assert forall|u: int| 0 < u < a.len() implies runs_after_merge(a, 0, j, u, #[trigger] self.levels@[u].runs@) by {
                assert(self.levels@[u] == merged[u]);
                assert(runs_after_merge(a, 0, j, u, merged[u].runs@));
            }
        }
        true
    }

    /// Stores `value_str` under `key_str`, both left-padded with spaces to
    /// their fixed sizes. Returns false, storing nothing, when the buffer is
    /// full and no level has room for it.
    pub fn put(&mut self, key_str: &str, value_str: &str) -> (r: bool)
        requires
            old(self).wf(),
            key_str.len() <= KEY_SIZE,
            value_str.len() <= VALUE_SIZE,
        ensures
            put_outcome(old(self), final(self), key_of(key_str), value_of(value_str), r),
    {
        let key = self.fill_str_with_witespace(key_str, KEY_SIZE);
        let value = self.fill_str_with_witespace(value_str, VALUE_SIZE);
        proof {
            lemma_key_of_first(key_str);
        }
        self.put_entry(key, value)
    }

    /// Deletes `key_str` by writing a tombstone for it, exactly as `put` of
    /// the tombstone value would. Returns false, changing nothing, when the
    /// buffer is full and no level has room for the write.
    pub fn del(&mut self, key_str: &str) -> (r: bool)
        requires
            old(self).wf(),
            key_str.len() <= KEY_SIZE,
        ensures
            put_outcome(old(self), final(self), key_of(key_str), tombstone(), r),
            final(self)@ == (if r {
                old(self)@.remove(key_of(key_str))
            } else {
                old(self)@
            }),
    {
        let key = self.fill_str_with_witespace(key_str, KEY_SIZE);
        proof {
            lemma_key_of_first(key_str);
        }
        self.put_entry(key, tombstone_value())
    }

    /// Writes the buffer into a run at level 0 even when it is not full, so
    /// that every run together holds what the tree shows. Nothing is done
    /// when the buffer is empty, or when no level has room.
    pub fn close(&mut self)
        requires
            old(self).wf(),
        ensures
            final(self).wf(),
            same_shape(final(self), old(self)),
            final(self)@ == old(self)@,
            old(self).buffer.entries@.len() == 0 || !old(self).levels_have_room() ==> *final(self) == *old(self),
            old(self).buffer.entries@.len() > 0 && old(self).levels_have_room() ==> final(self).buffer.entries@.len() == 0
                && final(self).levels@[0].runs@.len() > 0
                && final(self).levels@[0].runs@[0].pairs() == old(self).buffer.pairs(),
    {
        if self.buffer.entries.len() == 0 {
            return;
        }
        self.merge_down(0);
        if self.levels[0].remaining() == 0 {
            return;
        }
        self.flush_buffer();
    }

    /// Drops every run and the buffer's contents.
    pub fn clear(&mut self)
        requires
            old(self).wf(),
        ensures
            final(self).wf(),
            same_shape(final(self), old(self)),
            final(self)@ == Map::<Seq<u8>, Seq<u8>>::empty(),
            forall|i: int| 0 <= i < final(self).levels@.len() ==> (#[trigger] final(self).levels@[i]).runs@.len() == 0,
            final(self).buffer.entries@.len() == 0,
    {
        let nlev = self.levels.len();
        let mut i: usize = 0;
        while i < nlev
            invariant
                self.wf(),
                same_shape(self, old(self)),
                nlev == self.levels@.len(),
                i <= nlev,
                forall|j: int| 0 <= j < i ==> (#[trigger] self.levels@[j]).runs@.len() == 0,
            decreases nlev - i,
        {
            let ghost ls = self.levels@;
            let mut lvl = Level::new(0, 0);
            self.levels.set_and_swap(i, &mut lvl);
            lvl.runs.clear();
            let ghost cleared = lvl;
            self.levels.set_and_swap(i, &mut lvl);
            proof {
                assert(self.levels@ =~= ls.update(i as int, cleared));
                lemma_levels_update(ls, i as int, cleared, self.bf_bits_per_entry, self.entries_per_page);
            }
            i = i + 1;
        }
        self.buffer.empty();
        proof {
            lemma_no_runs(self.levels@);
            assert(self.raw() =~= Map::<Seq<u8>, Seq<u8>>::empty());
            assert(self@ =~= Map::<Seq<u8>, Seq<u8>>::empty());
        }
    }

    /// The stored pairs with keys in `[start, end]`, tombstones included,
    /// newest value per key, in ascending key order.
    fn range_raw(&self, start: &Vec<u8>, end: &Vec<u8>) -> (r: Vec<EntryT>)
        requires
            self.wf(),
        ensures
            strictly_sorted(entries_pairs(r@)),
            pairs_map(entries_pairs(r@)) == restrict_range(self.raw(), start@, end@),
    {
        let ghost ls = self.levels@;
        let ghost all = all_runs(ls);
        let mut ctx = MergeContext::new();
        let nlev = self.levels.len();
        let mut j: usize = nlev;
        proof {
            lemma_all_runs_take_all(ls);
            assert(all.skip(all.len() as int) =~= Seq::<KvMap>::empty());
            assert(ctx@ =~= restrict_range(resolve(Seq::<KvMap>::empty()), start@, end@));
        }
        // oldest runs first, so that newer ones win
        while j > 0
            invariant
                self.wf(),
                ls == self.levels@,
                all == all_runs(ls),
                nlev == ls.len(),
                j <= nlev,
                ctx.wf(),
                all_runs(ls.take(j as int)).len() <= all.len(),
                all_runs(ls.take(j as int)) == all.take(all_runs(ls.take(j as int)).len() as int),
                ctx@ == restrict_range(resolve(all.skip(all_runs(ls.take(j as int)).len() as int)), start@, end@),
            decreases j,
        {
            let level = &self.levels[j - 1];
            let ghost base = all_runs(ls.take(j - 1)).len() as int;
            proof {
                lemma_all_runs_split(ls, j - 1);
                lemma_all_runs_take_next(ls, j - 1);
                assert(all_runs(ls.take(j - 1)) =~= all.take(base));
                assert(level_ok(ls[j - 1], self.bf_bits_per_entry, self.entries_per_page));
            }
            let mut r: usize = level.runs.len();
            while r > 0
                invariant
                    self.wf(),
                    ls == self.levels@,
                    all == all_runs(ls),
                    *level == ls[j - 1],
                    0 < j <= nlev,
                    level_ok(*level, self.bf_bits_per_entry, self.entries_per_page),
                    base == all_runs(ls.take(j - 1)).len(),
                    all == all_runs(ls.take(j - 1)) + level_maps(ls[j - 1]) + all_runs(ls.skip(j as int)),
                    r <= level.runs@.len(),
                    ctx.wf(),
                    ctx@ == restrict_range(resolve(all.skip(base + r)), start@, end@),
                decreases r,
            {
                let run = &level.runs[r - 1];
                let part = run.range(start, end);
                let num = part.len();
                proof {
                    assert(all[base + r - 1] == run@);
                    crate::sorted::lemma_range_filter_props(run.pairs(), start@, end@);
                    assert(entries_pairs(part@).subrange(0, num as int) =~= entries_pairs(part@));
                }
                let ghost before = ctx@;
                ctx.add(part, num);
                proof {
                    let sub = all.skip(base + r - 1);
                    assert(sub.drop_first() =~= all.skip(base + r));
                    assert(sub[0] == run@);
                    crate::layers::lemma_restrict_union(resolve(all.skip(base + r)), run@, start@, end@);
                    assert(pairs_map(crate::sorted::range_filter(run.pairs(), start@, end@)) =~= restrict_range(run@, start@, end@));
                    assert(ctx@ == restrict_range(resolve(sub), start@, end@));
                }
                r = r - 1;
            }
            proof {
                assert(all_runs(ls.take(j - 1)).len() == base);
            }
            j = j - 1;
        }
        proof {
            assert(ls.take(0) =~= Seq::<Level>::empty());
            assert(all.skip(0) =~= all);
        }
        let part = self.buffer.range(start, end);
        let num = part.len();
        proof {
            crate::sorted::lemma_range_filter_props(self.buffer.pairs(), start@, end@);
            assert(entries_pairs(part@).subrange(0, num as int) =~= entries_pairs(part@));
            assert(pairs_map(crate::sorted::range_filter(self.buffer.pairs(), start@, end@)) =~= restrict_range(self.buffer@, start@, end@));
            crate::layers::lemma_restrict_union(resolve(all), self.buffer@, start@, end@);
        }
        ctx.add(part, num);
        let ghost target = ctx@;
        let mut out: Vec<EntryT> = Vec::new();
        while !ctx.done()
            invariant
                ctx.wf(),
                strictly_sorted(entries_pairs(out@)),
                out@.len() > 0 ==> forall|x: Seq<u8>| #[trigger] ctx@.contains_key(x) ==> key_lt(entries_pairs(out@).last().0, x),
                forall|x: Seq<u8>| #[trigger] pairs_map(entries_pairs(out@)).contains_key(x) ==> target.contains_key(x)
                    && pairs_map(entries_pairs(out@))[x] == target[x] && !ctx@.contains_key(x),
                forall|x: Seq<u8>| #[trigger] ctx@.contains_key(x) ==> target.contains_key(x) && ctx@[x] == target[x],
                forall|x: Seq<u8>| #[trigger] target.contains_key(x) ==> pairs_map(entries_pairs(out@)).contains_key(x) || ctx@.contains_key(x),
            decreases ctx.pending(),
        {
            let ghost c0 = ctx@;
            let ghost op = entries_pairs(out@);
            let e = ctx.next();
            proof {
                lemma_key_order();
            }
            out.push(e);
            proof {
                assert(entries_pairs(out@) =~= op.push(e@));
                assert(entries_pairs(out@).drop_last() =~= op);
                assert(pairs_map(entries_pairs(out@)) == pairs_map(op).insert(e.key@, e.value@));
                crate::sorted::lemma_sorted_push(op, e@);
                assert forall|x: Seq<u8>| #[trigger] ctx@.contains_key(x) implies key_lt(e.key@, x) by {
                    assert(c0.contains_key(x));
                    assert(key_le(e.key@, x));
                }
            }
        }
        proof {
            assert(pairs_map(entries_pairs(out@)) =~= target);
        }
        out
    }

    /// The values, read as text, of the keys in `[start_str, end_str]`, in
    /// ascending key order, leaving out deleted keys and values that are not
    /// UTF-8. Empty when `end_str` sorts before `start_str`.
    pub fn range(&self, start_str: &str, end_str: &str) -> (r: Vec<String>)
        requires
            self.wf(),
            start_str.len() <= KEY_SIZE,
            end_str.len() <= KEY_SIZE,
        ensures
            key_lt(key_of(end_str), key_of(start_str)) ==> r@.len() == 0,
            !key_lt(key_of(end_str), key_of(start_str)) ==> texts_of(r@) == texts_in_order(
                sorted_pairs(restrict_range(self@, key_of(start_str), key_of(end_str))),
            ),
    {
        let start = self.fill_str_with_witespace(start_str, KEY_SIZE);
        let end = self.fill_str_with_witespace(end_str, KEY_SIZE);
        let mut res: Vec<String> = Vec::new();
        if compare_keys(end.as_slice(), start.as_slice()) < 0 {
            return res;
        }
        let entries = self.range_raw(&start, &end);
        let ghost all = entries_pairs(entries@);
        let ghost vis = restrict_range(self@, start@, end@);
        let mut i: usize = 0;
        let ghost mut kept: Seq<Pair> = Seq::empty();
        while i < entries.len()
            invariant
                all == entries_pairs(entries@),
                strictly_sorted(all),
                pairs_map(all) == restrict_range(self.raw(), start@, end@),
                vis == restrict_range(self@, start@, end@),
                i <= all.len(),
                kept == all.take(i as int).filter(|p: Pair| p.1 != tombstone()),
                texts_of(res@) == texts_in_order(kept),
            decreases all.len() - i,
        {
            let e = &entries[i];
            proof {
                assert(all[i as int] == e@);
                assert(all.take(i + 1).drop_last() =~= all.take(i as int));
                reveal(Seq::filter);
            }
            if !is_tombstone(e.value.as_slice()) {
                let t = self.vec_u8_to_str(&e.value);
                let ghost old_res = res@;
                proof {
                    assert(all.take(i + 1).filter(|p: Pair| p.1 != tombstone()) == kept.push(e@));
                    let old_kept = kept;
                    kept = kept.push(e@);
                    assert(kept.drop_last() =~= old_kept);
                    assert(kept.last() == e@);
                }
                match t {
                    Some(text) => {
                        res.push(text);
                        proof {
                            assert(texts_of(res@) =~= texts_of(old_res).push(text@));
                        }
                    },
                    None => {},
                }
            } else {
                proof {
                    assert(all.take(i + 1).filter(|p: Pair| p.1 != tombstone()) == kept);
                }
            }
            i = i + 1;
        }
        proof {
            assert(all.take(all.len() as int) =~= all);
            lemma_visible_sorted(all, self.raw(), start@, end@, self@);
            assert(kept == sorted_pairs(vis));
        }
        res
    }

    /// Adds the run read back from a file `image` as the oldest run of
    /// `level`; see `Run::from_image`. Returns false, changing nothing, when
    /// the level does not exist or is full.
    pub fn load_run(&mut self, level: usize, image: &[u8]) -> (r: bool)
        requires
            old(self).wf(),
        ensures
            final(self).wf(),
            same_shape(final(self), old(self)),
            final(self).buffer == old(self).buffer,
            r == (level < old(self).levels@.len() && old(self).levels@[level as int].runs@.len()
                < old(self).levels@[level as int].max_runs),
            !r ==> final(self).levels@ == old(self).levels@,
            r ==> final(self).levels@[level as int].runs@.drop_last() == old(self).levels@[level as int].runs@,
            r ==> final(self).levels@[level as int].runs@.last().pairs() == crate::run::slots(
                image@,
                crate::run::loadable_upto(image@, 0, old(self).levels@[level as int].max_run_size as int) as nat,
            ),
            forall|i: int| 0 <= i < final(self).levels@.len() && i != level ==> #[trigger] final(self).levels@[i]
                == old(self).levels@[i],
    {
        if level >= self.levels.len() {
            return false;
        }
        proof {
            assert(level_ok(self.levels@[level as int], self.bf_bits_per_entry, self.entries_per_page));
        }
        if self.levels[level].remaining() == 0 {
            return false;
        }
        let mrs = self.levels[level].max_run_size;
        let run = Run::from_image(image, mrs as u64, self.bf_bits_per_entry, level, self.entries_per_page);
        let ghost ls = self.levels@;
        let mut lvl = Level::new(0, 0);
        self.levels.set_and_swap(level, &mut lvl);
        lvl.runs.push_back(run);
        let ghost new_l = lvl;
        self.levels.set_and_swap(level, &mut lvl);
        proof {
            let lvl = new_l;
            assert(self.levels@ =~= ls.update(level as int, lvl));
            assert(lvl.runs@.drop_last() =~= ls[level as int].runs@);
            assert forall|q: int| 0 <= q < lvl.runs@.len() implies (#[trigger] lvl.runs@[q]).wf()
                && lvl.runs@[q].max_size == lvl.max_run_size && lvl.runs@[q].entries_per_page == self.entries_per_page by {
                if q < lvl.runs@.len() - 1 {
                    assert(lvl.runs@[q] == ls[level as int].runs@[q]);
                }
            }
            lemma_levels_update(ls, level as int, lvl, self.bf_bits_per_entry, self.entries_per_page);
        }
        true
    }

    /// Number of runs over all levels (saturating at `usize::MAX`).
    pub fn num_runs(&self) -> (r: usize)
        requires
            self.wf(),
        ensures
            r == (if all_runs(self.levels@).len() <= usize::MAX { all_runs(self.levels@).len() as int } else { usize::MAX as int }),
    {
        let ghost ls = self.levels@;
        let mut res: usize = 0;
        let mut j: usize = 0;
        while j < self.levels.len()
            invariant
                ls == self.levels@,
                j <= ls.len(),
                res == (if all_runs(ls.take(j as int)).len() <= usize::MAX { all_runs(ls.take(j as int)).len() as int } else { usize::MAX as int }),
            decreases ls.len() - j,
        {
            proof {
                lemma_all_runs_take_next(ls, j as int);
            }
            res = res.saturating_add(self.levels[j].runs.len());
            j = j + 1;
        }
        proof {
            lemma_all_runs_take_all(ls);
        }
        res
    }

    /// The run at position `run_id` when the runs of all levels are listed
    /// newest first; `None` past the last run.
    pub fn get_run(&self, run_id: usize) -> (r: Option<&Run>)
        requires
            self.wf(),
        ensures
            r.is_some() == (run_id < all_run_values(self.levels@).len()),
            r.is_some() ==> *r.unwrap() == all_run_values(self.levels@)[run_id as int],
            r.is_some() ==> r.unwrap()@ == all_runs(self.levels@)[run_id as int],
    {
        let ghost ls = self.levels@;
        let ghost all = all_runs(ls);
        let mut id: usize = run_id;
        let mut j: usize = 0;
        while j < self.levels.len()
            invariant
                self.wf(),
                ls == self.levels@,
                all == all_runs(ls),
                j <= ls.len(),
                all_runs(ls.take(j as int)).len() <= all.len(),
                id + all_runs(ls.take(j as int)).len() == run_id,
                all_run_values(ls.take(j as int)).len() == all_runs(ls.take(j as int)).len(),
                all_run_values(ls.take(j as int)) == all_run_values(ls).take(all_runs(ls.take(j as int)).len() as int),
            decreases ls.len() - j,
        {
            let level = &self.levels[j];
            proof {
                lemma_all_runs_split(ls, j as int);
                lemma_all_runs_take_next(ls, j as int);
                lemma_run_values_take_next(ls, j as int);
                lemma_run_values_view(ls);
                lemma_run_values_view(ls.take(j + 1));
                assert(all_run_values(ls.take(j + 1)) =~= all_run_values(ls).take(all_runs(ls.take(j + 1)).len() as int)) by {
                    lemma_run_values_append(ls.take(j + 1), ls.skip(j + 1));
                    assert(ls =~= ls.take(j + 1) + ls.skip(j + 1));
                }
            }
            if id < level.runs.len() {
                let run = &level.runs[id];
                proof {
                    assert(all_run_values(ls.take(j + 1))[run_id as int] == *run);
                    assert(all_run_values(ls)[run_id as int] == *run);
                    assert(all[run_id as int] == run@);
                }
                return Some(run);
            }
            id = id - level.runs.len();
            j = j + 1;
        }
        proof {
            lemma_all_runs_take_all(ls);
            lemma_run_values_view(ls);
        }
        None
    }

    /// Whether `new` can take these parameters: every run and bloom table
    /// size fits the machine's word.
    pub fn sizes_fit(buf_max_entries: u64, dep: u64, fanout: u64, bf_bits_per_entry: u64) -> (r: bool)
        ensures
            r == Self::sizes_fit_spec(buf_max_entries, dep, fanout, bf_bits_per_entry),
    {
        let mut size: u64 = buf_max_entries;
        let mut i: u64 = 0;
        while i < dep
            invariant
                i <= dep,
                i < dep ==> size == run_capacity(buf_max_entries as int, fanout as int, i as nat),
                forall|j: nat| j < i ==> #[trigger] run_capacity(buf_max_entries as int, fanout as int, j) * ENTRY_SIZE <= usize::MAX
                    && run_capacity(buf_max_entries as int, fanout as int, j) * bf_bits_per_entry <= usize::MAX,
            decreases dep - i,
        {
            assert(size == run_capacity(buf_max_entries as int, fanout as int, i as nat));
            if size > (usize::MAX / ENTRY_SIZE) as u64 {
                assert(run_capacity(buf_max_entries as int, fanout as int, i as nat) * ENTRY_SIZE > usize::MAX);
                assert(!Self::sizes_fit_spec(buf_max_entries, dep, fanout, bf_bits_per_entry));
                return false;
            }
            if bf_bits_per_entry > 0 && size > (usize::MAX as u64) / bf_bits_per_entry {
                assert(run_capacity(buf_max_entries as int, fanout as int, i as nat) * bf_bits_per_entry > usize::MAX) by (nonlinear_arith)
                    requires
                        size > (usize::MAX as u64) / bf_bits_per_entry,
                        bf_bits_per_entry > 0,
                        size == run_capacity(buf_max_entries as int, fanout as int, i as nat),
                ;
                assert(!Self::sizes_fit_spec(buf_max_entries, dep, fanout, bf_bits_per_entry));
                return false;
            }
            assert(size * bf_bits_per_entry <= usize::MAX) by (nonlinear_arith)
                requires
                    bf_bits_per_entry == 0 || size <= (usize::MAX as u64) / bf_bits_per_entry,
            ;
            if i + 1 < dep {
                proof {
                    lemma_capacity_step(buf_max_entries as int, fanout as int, i as nat, (i + 1) as nat);
                }
                if fanout > 0 && size > (usize::MAX / ENTRY_SIZE) as u64 / fanout {
                    assert(run_capacity(buf_max_entries as int, fanout as int, (i + 1) as nat) == size * fanout);
                    assert(size * fanout * ENTRY_SIZE > usize::MAX) by (nonlinear_arith)
                        requires
                            fanout > 0,
                            size > (usize::MAX / ENTRY_SIZE) as u64 / fanout,
                    ;
                    assert(!(run_capacity(buf_max_entries as int, fanout as int, (i + 1) as nat) * ENTRY_SIZE <= usize::MAX));
                    return false;
                }
                assert(size * fanout <= usize::MAX / ENTRY_SIZE) by (nonlinear_arith)
                    requires
                        fanout == 0 || size <= (usize::MAX / ENTRY_SIZE) as u64 / fanout,
                ;
                size = size * fanout;
            }
            i = i + 1;
        }
        true
    }
}

proof fn lemma_capacity_step(b: int, f: int, i: nat, j: nat)
    requires
        j == i + 1,
    ensures
        run_capacity(b, f, j) == run_capacity(b, f, i) * f,
{
}

/// Levels that hold no runs show nothing.
proof fn lemma_no_runs(ls: Seq<Level>)
    requires
        forall|j: int| 0 <= j < ls.len() ==> (#[trigger] ls[j]).runs@.len() == 0,
    ensures
        resolve(all_runs(ls)) == Map::<Seq<u8>, Seq<u8>>::empty(),
        all_runs(ls).len() == 0,
    decreases ls.len(),
{
    if ls.len() > 0 {
        assert forall|j: int| 0 <= j < ls.drop_first().len() implies (#[trigger] ls.drop_first()[j]).runs@.len() == 0 by {
            assert(ls.drop_first()[j] == ls[j + 1]);
        }
        lemma_no_runs(ls.drop_first());
        assert(level_maps(ls[0]) =~= Seq::<KvMap>::empty());
        assert(all_runs(ls) =~= Seq::<KvMap>::empty());
    }
}


/// Reading a key right after a write of it was taken gives the written
/// value's text (a tombstone value deletes instead).
pub proof fn law_put_then_get(a: &LSMTree, b: &LSMTree, k: Seq<u8>, v: Seq<u8>)
    requires
        put_outcome(a, b, k, v, true),
        v != tombstone(),
    ensures
        lookup_text(b@, k) == value_text(v),
{
}

/// After a delete was taken, the key reads as absent, whether or not it was
/// present.
pub proof fn law_del_then_get(a: &LSMTree, b: &LSMTree, k: Seq<u8>)
    requires
        put_outcome(a, b, k, tombstone(), true),
    ensures
        lookup_text(b@, k) == None::<Seq<char>>,
        !b@.contains_key(k),
{
}

/// Deleting a key again changes nothing that reads see.
pub proof fn law_del_idempotent(a: &LSMTree, b: &LSMTree, c: &LSMTree, k: Seq<u8>, r1: bool, r2: bool)
    requires
        put_outcome(a, b, k, tombstone(), r1),
        put_outcome(b, c, k, tombstone(), r2),
        r1,
    ensures
        c@ == b@,
{
    assert(b@.remove(k) =~= b@);
}

/// The newest write of a key wins over an older one, wherever the older one
/// has been flushed or compacted to.
pub proof fn law_newest_wins(a: &LSMTree, b: &LSMTree, c: &LSMTree, k: Seq<u8>, v1: Seq<u8>, v2: Seq<u8>, r1: bool)
    requires
        put_outcome(a, b, k, v1, r1),
        put_outcome(b, c, k, v2, true),
        v2 != tombstone(),
    ensures
        lookup_text(c@, k) == value_text(v2),
{
}

/// Two trees whose buffers are empty and whose levels hold runs with the
/// same entries, run by run, show the same pairs: a tree whose runs are read
/// back from the file images of a closed tree reads as that tree did.
pub proof fn law_reload(a: LSMTree, b: LSMTree)
    requires
        a.wf(),
        b.wf(),
        a.buffer.entries@.len() == 0,
        b.buffer.entries@.len() == 0,
        a.levels@.len() == b.levels@.len(),
        forall|i: int| 0 <= i < a.levels@.len() ==> (#[trigger] a.levels@[i]).runs@.len() == b.levels@[i].runs@.len(),
        forall|i: int, r: int| 0 <= i < a.levels@.len() && 0 <= r < a.levels@[i].runs@.len()
            ==> (#[trigger] a.levels@[i].runs@[r]).pairs() == b.levels@[i].runs@[r].pairs(),
    ensures
        b@ == a@,
{
    lemma_same_runs(a.levels@, b.levels@);
    assert(a.buffer.pairs() =~= Seq::<Pair>::empty());
    assert(b.buffer.pairs() =~= Seq::<Pair>::empty());
    assert(a.raw() =~= b.raw());
}

proof fn lemma_same_runs(a: Seq<Level>, b: Seq<Level>)
    requires
        a.len() == b.len(),
        forall|i: int| 0 <= i < a.len() ==> (#[trigger] a[i]).runs@.len() == b[i].runs@.len(),
        forall|i: int, r: int| 0 <= i < a.len() && 0 <= r < a[i].runs@.len()
            ==> (#[trigger] a[i].runs@[r]).pairs() == b[i].runs@[r].pairs(),
    ensures
        all_runs(a) == all_runs(b),
    decreases a.len(),
{
    if a.len() > 0 {
        assert forall|i: int| 0 <= i < a.drop_first().len() implies (#[trigger] a.drop_first()[i]).runs@.len()
            == b.drop_first()[i].runs@.len() by {
            assert(a.drop_first()[i] == a[i + 1]);
            assert(b.drop_first()[i] == b[i + 1]);
        }
        assert forall|i: int, r: int| 0 <= i < a.drop_first().len() && 0 <= r < a.drop_first()[i].runs@.len()
            implies (#[trigger] a.drop_first()[i].runs@[r]).pairs() == b.drop_first()[i].runs@[r].pairs() by {
            assert(a.drop_first()[i] == a[i + 1]);
            assert(b.drop_first()[i] == b[i + 1]);
        }
        lemma_same_runs(a.drop_first(), b.drop_first());
        assert(level_maps(a[0]) =~= level_maps(b[0])) by {
            assert forall|r: int| 0 <= r < a[0].runs@.len() implies level_maps(a[0])[r] == level_maps(b[0])[r] by {
                assert(a[0].runs@[r].pairs() == b[0].runs@[r].pairs());
            }
        }
    }
}


/// Spaces encode as padding bytes.
proof fn lemma_encode_spaces(n: nat)
    ensures
        vstd::utf8::encode_utf8(Seq::new(n, |i: int| ' ')) == Seq::new(n, |i: int| PAD_BYTE),
    decreases n,
{
    let cs = Seq::new(n, |i: int| ' ');
    if n > 0 {
        lemma_encode_spaces((n - 1) as nat);
        assert(cs.drop_first() =~= Seq::new((n - 1) as nat, |i: int| ' '));
        assert((32u32 & 0x7Fu32) == 32u32) by (bit_vector);
        assert(vstd::utf8::encode_scalar(cs[0] as u32) =~= seq![PAD_BYTE]);
        assert(vstd::utf8::encode_utf8(cs) =~= Seq::new(n, |i: int| PAD_BYTE));
    } else {
        assert(vstd::utf8::encode_utf8(cs) =~= Seq::new(n, |i: int| PAD_BYTE));
    }
}

/// Encoding a concatenation concatenates the encodings.
proof fn lemma_encode_append(a: Seq<char>, b: Seq<char>)
    ensures
        vstd::utf8::encode_utf8(a + b) == vstd::utf8::encode_utf8(a) + vstd::utf8::encode_utf8(b),
    decreases a.len(),
{
    if a.len() > 0 {
        assert((a + b).drop_first() =~= a.drop_first() + b);
        assert((a + b)[0] == a[0]);
        lemma_encode_append(a.drop_first(), b);
        assert(vstd::utf8::encode_utf8(a + b) =~= vstd::utf8::encode_utf8(a) + vstd::utf8::encode_utf8(b));
    } else {
        assert(a + b =~= b);
        assert(vstd::utf8::encode_utf8(a) + vstd::utf8::encode_utf8(b) =~= vstd::utf8::encode_utf8(b));
    }
}

proof fn lemma_trim_start_spaces(s: Seq<char>, n: int, i: int)
    requires
        0 <= i <= n <= s.len(),
        forall|j: int| 0 <= j < n ==> is_white_space(#[trigger] s[j]),
        n == s.len() || !is_white_space(s[n]),
    ensures
        trim_start_at(s, i) == n,
    decreases n - i,
{
    if i < n {
        lemma_trim_start_spaces(s, n, i + 1);
    }
}

/// A stored value reads back as the text it was written from, unless that
/// text has white space at either end (which reads drop, as they drop the
/// padding).
pub proof fn lemma_value_text_of(v: &str)
    requires
        v.spec_bytes().len() <= VALUE_SIZE,
        v@.len() > 0 ==> !is_white_space(v@[0]) && !is_white_space(v@.last()),
    ensures
        value_text(value_of(v)) == Some(v@),
{
    let n = (VALUE_SIZE - v.spec_bytes().len()) as nat;
    let sp = Seq::new(n, |i: int| ' ');
    let cs = sp + v@;
    lemma_encode_spaces(n);
    lemma_encode_append(sp, v@);
    assert(value_of(v) =~= vstd::utf8::encode_utf8(cs));
    vstd::utf8::encode_utf8_valid_utf8(cs);
    vstd::utf8::encode_utf8_decode_utf8(cs);
    assert(' ' as u32 == 32);
    lemma_trim_start_spaces(cs, n as int, 0);
    if v@.len() > 0 {
        assert(cs[cs.len() - 1] == v@.last());
        assert(trim_end_at(cs, cs.len() as int, n as int) == cs.len());
    } else {
        assert(trim_end_at(cs, cs.len() as int, n as int) == cs.len());
    }
    assert(trimmed(cs) =~= v@);
}

/// Reading a key right after writing text for it gives back that text,
/// unless the text has white space at either end or its stored bytes are
/// the tombstone.
pub proof fn law_put_then_get_text(a: &LSMTree, b: &LSMTree, k: &str, v: &str)
    requires
        put_outcome(a, b, key_of(k), value_of(v), true),
        v.spec_bytes().len() <= VALUE_SIZE,
        v@.len() > 0 ==> !is_white_space(v@[0]) && !is_white_space(v@.last()),
        value_of(v) != tombstone(),
    ensures
        lookup_text(b@, key_of(k)) == Some(v@),
{
    lemma_value_text_of(v);
}


/// The visible map after replaying writes `ops` (key, value; a tombstone
/// value deletes) in order over `m`.
pub open spec fn replay(m: KvMap, ops: Seq<(Seq<u8>, Seq<u8>)>) -> KvMap
    decreases ops.len(),
{
    if ops.len() == 0 {
        m
    } else {
        put_visible(replay(m, ops.drop_last()), ops.last().0, ops.last().1)
    }
}

/// Over a history of taken writes, what a tree shows is the replay of that
/// history, as a sorted map would hold it; reads of the last tree (`get`,
/// `range`) are functions of that map.
pub proof fn law_history(ts: Seq<LSMTree>, ops: Seq<(Seq<u8>, Seq<u8>)>)
    requires
        ts.len() == ops.len() + 1,
        forall|i: int| 0 <= i < ops.len() ==> put_outcome(&ts[i], &ts[i + 1], ops[i].0, ops[i].1, true),
    ensures
        ts.last()@ == replay(ts[0]@, ops),
    decreases ops.len(),
{
    if ops.len() > 0 {
        let n = ops.len() as int;
        assert forall|i: int| 0 <= i < ops.drop_last().len() implies put_outcome(
            &ts.drop_last()[i],
            &ts.drop_last()[i + 1],
            ops.drop_last()[i].0,
            ops.drop_last()[i].1,
            true,
        ) by {
            assert(put_outcome(&ts[i], &ts[i + 1], ops[i].0, ops[i].1, true));
        }
        law_history(ts.drop_last(), ops.drop_last());
        assert(put_outcome(&ts[n - 1], &ts[n], ops[n - 1].0, ops[n - 1].1, true));
    }
}

/// Deleting a key any number of times shows what deleting it once shows.
pub proof fn law_del_repeated(ts: Seq<LSMTree>, rs: Seq<bool>, k: Seq<u8>)
    requires
        ts.len() == rs.len() + 1,
        rs.len() >= 1,
        rs[0],
        forall|i: int| 0 <= i < rs.len() ==> put_outcome(&ts[i], &ts[i + 1], k, tombstone(), #[trigger] rs[i]),
    ensures
        forall|i: int| 1 <= i < ts.len() ==> (#[trigger] ts[i])@ == ts[1]@,
{
    assert(put_outcome(&ts[0], &ts[1], k, tombstone(), rs[0]));
    assert(!ts[1]@.contains_key(k));
    assert forall|i: int| 1 <= i < ts.len() implies (#[trigger] ts[i])@ == ts[1]@ by {
        lemma_del_chain(ts, rs, k, i);
    }
}

proof fn lemma_del_chain(ts: Seq<LSMTree>, rs: Seq<bool>, k: Seq<u8>, i: int)
    requires
        ts.len() == rs.len() + 1,
        1 <= i < ts.len(),
        !ts[1]@.contains_key(k),
        forall|j: int| 0 <= j < rs.len() ==> put_outcome(&ts[j], &ts[j + 1], k, tombstone(), #[trigger] rs[j]),
    ensures
        ts[i]@ == ts[1]@,
    decreases i,
{
    if i > 1 {
        lemma_del_chain(ts, rs, k, i - 1);
        assert(put_outcome(&ts[i - 1], &ts[i], k, tombstone(), rs[i - 1]));
        assert(ts[i - 1]@.remove(k) =~= ts[i - 1]@);
    }
}

} // verus!
