use vstd::prelude::*;

verus! {

/// Bytes in every key stored by the tree.
pub const KEY_SIZE: usize = 8;

/// Bytes in every value stored by the tree.
pub const VALUE_SIZE: usize = 32;

/// Bytes taken by one key/value slot of a run image.
pub const ENTRY_SIZE: usize = 40;

/// Byte used to left-pad short keys and values.
pub const PAD_BYTE: u8 = 32;

/// Byte filling the unused slots of a run image. No key that the tree
/// stores starts with it: a padded key starts with a space or with the
/// first byte of a UTF-8 character, and 0xFF is neither.
pub const FILL_BYTE: u8 = 0xFF;

/// Byte repeated over a whole value to mark its key as deleted.
pub const TOMBSTONE_BYTE: u8 = 0;

pub type KeyT = Vec<u8>;

pub type ValueT = Vec<u8>;

/// The abstract key/value pair.
pub type Pair = (Seq<u8>, Seq<u8>);

/// The reserved value meaning "deleted".
pub open spec fn tombstone() -> Seq<u8> {
    Seq::new(VALUE_SIZE as nat, |i: int| TOMBSTONE_BYTE)
}

/// The bytes that an optional vector holds.
pub open spec fn opt_bytes(o: Option<Vec<u8>>) -> Option<Seq<u8>> {
    match o {
        Some(v) => Some(v@),
        None => None,
    }
}

/// Lexicographic order on byte strings, comparing from position `i` onwards.
pub open spec fn lex_lt_at(a: Seq<u8>, b: Seq<u8>, i: int) -> bool
    decreases a.len() - i,
{
    if i >= a.len() {
        i < b.len()
    } else if i >= b.len() {
        false
    } else if a[i] < b[i] {
        true
    } else if a[i] > b[i] {
        false
    } else {
        lex_lt_at(a, b, i + 1)
    }
}

/// `a` sorts strictly before `b` (byte-wise lexicographic, a prefix first).
pub open spec fn key_lt(a: Seq<u8>, b: Seq<u8>) -> bool {
    lex_lt_at(a, b, 0)
}

pub open spec fn key_le(a: Seq<u8>, b: Seq<u8>) -> bool {
    key_lt(a, b) || a == b
}

/// `k` lies in the closed interval `[start, end]`.
pub open spec fn in_range(k: Seq<u8>, start: Seq<u8>, end: Seq<u8>) -> bool {
    key_le(start, k) && key_le(k, end)
}

pub proof fn lemma_lex_irrefl(a: Seq<u8>, i: int)
    requires
        0 <= i,
    ensures
        !lex_lt_at(a, a, i),
    decreases a.len() - i,
{
    if i < a.len() {
        lemma_lex_irrefl(a, i + 1);
    }
}

pub proof fn lemma_lex_asym(a: Seq<u8>, b: Seq<u8>, i: int)
    requires
        0 <= i,
        lex_lt_at(a, b, i),
    ensures
        !lex_lt_at(b, a, i),
    decreases a.len() - i,
{
    if i < a.len() && i < b.len() && a[i] == b[i] {
        lemma_lex_asym(a, b, i + 1);
    }
}

pub proof fn lemma_lex_trans(a: Seq<u8>, b: Seq<u8>, c: Seq<u8>, i: int)
    requires
        0 <= i,
        lex_lt_at(a, b, i),
        lex_lt_at(b, c, i),
    ensures
        lex_lt_at(a, c, i),
    decreases a.len() - i,
{
    if i < a.len() && i < b.len() && i < c.len() && a[i] == b[i] && b[i] == c[i] {
        lemma_lex_trans(a, b, c, i + 1);
    }
}

pub proof fn lemma_lex_total(a: Seq<u8>, b: Seq<u8>, i: int)
    requires
        0 <= i <= a.len(),
        i <= b.len(),
        forall|j: int| 0 <= j < i ==> a[j] == b[j],
        a != b,
    ensures
        lex_lt_at(a, b, i) || lex_lt_at(b, a, i),
    decreases a.len() - i,
{
    if i == a.len() && i == b.len() {
        assert(a =~= b);
    } else if i < a.len() && i < b.len() && a[i] == b[i] {
        lemma_lex_total(a, b, i + 1);
    }
}

/// The key order is a strict total order.
pub proof fn lemma_key_order()
    ensures
        forall|a: Seq<u8>| !key_lt(a, a),
        forall|a: Seq<u8>, b: Seq<u8>| #[trigger] key_lt(a, b) ==> !key_lt(b, a),
        forall|a: Seq<u8>, b: Seq<u8>, c: Seq<u8>|
            #[trigger] key_lt(a, b) && #[trigger] key_lt(b, c) ==> key_lt(a, c),
        forall|a: Seq<u8>, b: Seq<u8>| a != b ==> #[trigger] key_lt(a, b) || key_lt(b, a),
{
    assert forall|a: Seq<u8>| !key_lt(a, a) by {
        lemma_lex_irrefl(a, 0);
    }
    assert forall|a: Seq<u8>, b: Seq<u8>| #[trigger] key_lt(a, b) implies !key_lt(b, a) by {
        lemma_lex_asym(a, b, 0);
    }
    assert forall|a: Seq<u8>, b: Seq<u8>, c: Seq<u8>|
        #[trigger] key_lt(a, b) && #[trigger] key_lt(b, c) implies key_lt(a, c) by {
        lemma_lex_trans(a, b, c, 0);
    }
    assert forall|a: Seq<u8>, b: Seq<u8>| a != b implies #[trigger] key_lt(a, b) || key_lt(b, a) by {
        lemma_lex_total(a, b, 0);
    }
}

/// Three-way comparison of two keys: negative, zero or positive as `a` sorts
/// before, equal to or after `b`.
pub fn compare_keys(a: &[u8], b: &[u8]) -> (r: i8)
    ensures
        r < 0 <==> key_lt(a@, b@),
        r == 0 <==> a@ == b@,
        r > 0 <==> key_lt(b@, a@),
{
    proof {
        lemma_key_order();
    }
    let mut i: usize = 0;
    while i < a.len() && i < b.len()
        invariant
            i <= a.len(),
            i <= b.len(),
            forall|j: int| 0 <= j < i ==> a@[j] == b@[j],
            key_lt(a@, b@) == lex_lt_at(a@, b@, i as int),
            key_lt(b@, a@) == lex_lt_at(b@, a@, i as int),
        decreases a.len() - i,
    {
        if a[i] < b[i] {
            return -1;
        }
        if a[i] > b[i] {
            return 1;
        }
        i = i + 1;
    }
    if a.len() < b.len() {
        -1
    } else if a.len() > b.len() {
        1
    } else {
        assert(a@ =~= b@);
        0
    }
}

/// A key and its value.
#[derive(Debug)]
pub struct Entry {
    pub key: KeyT,
    pub value: ValueT,
}

pub type EntryT = Entry;

impl View for Entry {
    type V = Pair;

    open spec fn view(&self) -> Pair {
        (self.key@, self.value@)
    }
}

/// A byte-for-byte copy of `v`.
pub fn copy_bytes(v: &[u8]) -> (r: Vec<u8>)
    ensures
        r@ == v@,
{
    let mut r: Vec<u8> = Vec::with_capacity(v.len());
    let mut i: usize = 0;
    while i < v.len()
        invariant
            i <= v.len(),
            r@ == v@.subrange(0, i as int),
        decreases v.len() - i,
    {
        r.push(v[i]);
        i = i + 1;
    }
    assert(r@ =~= v@);
    r
}

impl Entry {
    pub fn new(k: KeyT, val: ValueT) -> (r: Entry)
        ensures
            r.key == k,
            r.value == val,
    {
        Entry { key: k, value: val }
    }

    /// A copy of this entry with the same key and value.
    pub fn duplicate(&self) -> (r: Entry)
        ensures
            r@ == self@,
    {
        Entry { key: copy_bytes(self.key.as_slice()), value: copy_bytes(self.value.as_slice()) }
    }
}

impl PartialEq for Entry {
    /// Entries are identified by their key alone.
    fn eq(&self, other: &Entry) -> (r: bool) {
        compare_keys(self.key.as_slice(), other.key.as_slice()) == 0
    }
}

impl vstd::std_specs::cmp::PartialEqSpecImpl for Entry {
    open spec fn obeys_eq_spec() -> bool {
        true
    }

    open spec fn eq_spec(&self, other: &Entry) -> bool {
        self.key@ == other.key@
    }
}

impl PartialOrd for Entry {
    /// Entries are ordered by key alone.
    fn partial_cmp(&self, other: &Entry) -> (r: Option<core::cmp::Ordering>) {
        let c = compare_keys(self.key.as_slice(), other.key.as_slice());
        if c < 0 {
            Some(core::cmp::Ordering::Less)
        } else if c == 0 {
            Some(core::cmp::Ordering::Equal)
        } else {
            Some(core::cmp::Ordering::Greater)
        }
    }
}

impl vstd::std_specs::cmp::PartialOrdSpecImpl for Entry {
    open spec fn obeys_partial_cmp_spec() -> bool {
        true
    }

    open spec fn partial_cmp_spec(&self, other: &Entry) -> Option<core::cmp::Ordering> {
        if key_lt(self.key@, other.key@) {
            Some(core::cmp::Ordering::Less)
        } else if self.key@ == other.key@ {
            Some(core::cmp::Ordering::Equal)
        } else {
            Some(core::cmp::Ordering::Greater)
        }
    }
}

/// The tombstone value as bytes.
pub fn tombstone_value() -> (r: ValueT)
    ensures
        r@ == tombstone(),
{
    let mut r: Vec<u8> = Vec::with_capacity(VALUE_SIZE);
    let mut i: usize = 0;
    while i < VALUE_SIZE
        invariant
            i <= VALUE_SIZE,
            r@ == Seq::new(i as nat, |j: int| TOMBSTONE_BYTE),
        decreases VALUE_SIZE - i,
    {
        r.push(TOMBSTONE_BYTE);
        i = i + 1;
        assert(r@ =~= Seq::new(i as nat, |j: int| TOMBSTONE_BYTE));
    }
    r
}

/// Whether `v` is the tombstone value.
pub fn is_tombstone(v: &[u8]) -> (r: bool)
    ensures
        r == (v@ == tombstone()),
{
    if v.len() != VALUE_SIZE {
        return false;
    }
    let mut i: usize = 0;
    while i < v.len()
        invariant
            v.len() == VALUE_SIZE,
            i <= v.len(),
            forall|j: int| 0 <= j < i ==> v@[j] == TOMBSTONE_BYTE,
        decreases v.len() - i,
    {
        if v[i] != TOMBSTONE_BYTE {
            assert(v@[i as int] != tombstone()[i as int]);
            return false;
        }
        i = i + 1;
    }
    assert(v@ =~= tombstone());
    true
}

} // verus!
