use vstd::prelude::*;
use crate::data_type::{Pair, key_lt, in_range, lemma_key_order};

verus! {

/// Keys strictly ascend along `s` (so no key occurs twice).
pub open spec fn strictly_sorted(s: Seq<Pair>) -> bool {
    forall|i: int, j: int| 0 <= i < j < s.len() ==> key_lt(#[trigger] s[i].0, #[trigger] s[j].0)
}

/// No key occurs twice in `s`.
pub open spec fn keys_unique(s: Seq<Pair>) -> bool {
    forall|i: int, j: int| 0 <= i < s.len() && 0 <= j < s.len() && i != j ==> #[trigger] s[i].0 != #[trigger] s[j].0
}

/// The map from key to value that a sequence of pairs describes; a later
/// pair for the same key wins.
pub open spec fn pairs_map(s: Seq<Pair>) -> Map<Seq<u8>, Seq<u8>>
    decreases s.len(),
{
    if s.len() == 0 {
        Map::empty()
    } else {
        pairs_map(s.drop_last()).insert(s.last().0, s.last().1)
    }
}

/// The pairs of `s` whose key lies in `[start, end]`, in order.
pub open spec fn range_filter(s: Seq<Pair>, start: Seq<u8>, end: Seq<u8>) -> Seq<Pair> {
    s.filter(|p: Pair| in_range(p.0, start, end))
}

pub proof fn lemma_sorted_unique(s: Seq<Pair>)
    requires
        strictly_sorted(s),
    ensures
        keys_unique(s),
{
    lemma_key_order();
    assert forall|i: int, j: int| 0 <= i < s.len() && 0 <= j < s.len() && i != j implies #[trigger] s[i].0 != #[trigger] s[j].0 by {
        if i < j {
            assert(key_lt(s[i].0, s[j].0));
        } else {
            assert(key_lt(s[j].0, s[i].0));
        }
    }
}

/// What a map of pairs with unique keys holds.
pub proof fn lemma_pairs_map(s: Seq<Pair>)
    requires
        keys_unique(s),
    ensures
        forall|i: int| 0 <= i < s.len() ==> #[trigger] pairs_map(s).contains_key(s[i].0)
            && pairs_map(s)[s[i].0] == s[i].1,
        forall|k: Seq<u8>| #[trigger] pairs_map(s).contains_key(k) ==> exists|i: int| 0 <= i < s.len() && s[i].0 == k,
    decreases s.len(),
{
    if s.len() > 0 {
        let t = s.drop_last();
        assert(keys_unique(t));
        lemma_pairs_map(t);
        assert forall|i: int| 0 <= i < s.len() implies #[trigger] pairs_map(s).contains_key(s[i].0)
            && pairs_map(s)[s[i].0] == s[i].1 by {
            assert(pairs_map(s) == pairs_map(t).insert(s.last().0, s.last().1));
            if i < s.len() - 1 {
                assert(t[i] == s[i]);
                assert(s[i].0 != s[s.len() - 1].0);
                assert(pairs_map(t).contains_key(t[i].0));
            }
        }
        assert forall|k: Seq<u8>| #[trigger] pairs_map(s).contains_key(k) implies exists|i: int| 0 <= i < s.len() && s[i].0 == k by {
            if k != s.last().0 {
                assert(pairs_map(t).contains_key(k));
                let i = choose|i: int| 0 <= i < t.len() && t[i].0 == k;
                assert(s[i].0 == k);
            } else {
                assert(s[s.len() - 1].0 == k);
            }
        }
    }
}

/// Strictly sorted sequences with the same map are equal.
pub proof fn lemma_sorted_map_determines(s: Seq<Pair>, t: Seq<Pair>)
    requires
        strictly_sorted(s),
        strictly_sorted(t),
        pairs_map(s) == pairs_map(t),
    ensures
        s == t,
    decreases s.len(),
{
    lemma_key_order();
    lemma_sorted_unique(s);
    lemma_sorted_unique(t);
    lemma_pairs_map(s);
    lemma_pairs_map(t);
    if s.len() == 0 {
        if t.len() > 0 {
            assert(pairs_map(t).contains_key(t[0].0));
        }
        assert(s =~= t);
    } else if t.len() == 0 {
        assert(pairs_map(s).contains_key(s[0].0));
    } else {
        let ks = s.last().0;
        let kt = t.last().0;
        assert(pairs_map(t).contains_key(ks));
        assert(pairs_map(s).contains_key(kt));
        let i = choose|i: int| 0 <= i < t.len() && t[i].0 == ks;
        let j = choose|j: int| 0 <= j < s.len() && s[j].0 == kt;
        if i < t.len() - 1 {
            assert(key_lt(ks, kt));
            if j < s.len() - 1 {
                assert(key_lt(kt, ks));
            }
            assert(false);
        }
        assert(ks == kt);
        assert(s.last().1 == t.last().1);
        let s2 = s.drop_last();
        let t2 = t.drop_last();
        assert(keys_unique(s2));
        assert(keys_unique(t2));
        lemma_pairs_map(s2);
        lemma_pairs_map(t2);
        assert forall|k: Seq<u8>| #[trigger] pairs_map(s2).contains_key(k) implies k != ks by {
            let a = choose|a: int| 0 <= a < s2.len() && s2[a].0 == k;
            assert(s[a].0 == k);
        }
        assert forall|k: Seq<u8>| #[trigger] pairs_map(t2).contains_key(k) implies k != ks by {
            let a = choose|a: int| 0 <= a < t2.len() && t2[a].0 == k;
            assert(t[a].0 == k);
        }
        assert(pairs_map(s2) =~= pairs_map(s).remove(ks));
        assert(pairs_map(t2) =~= pairs_map(t).remove(ks));
        lemma_sorted_map_determines(s2, t2);
        assert(s =~= s2.push(s.last()));
        assert(t =~= t2.push(t.last()));
    }
}

/// Appending a pair whose key is above every key keeps a sequence sorted.
pub proof fn lemma_sorted_push(s: Seq<Pair>, p: Pair)
    requires
        strictly_sorted(s),
        s.len() > 0 ==> key_lt(s.last().0, p.0),
    ensures
        strictly_sorted(s.push(p)),
{
    lemma_key_order();
    let t = s.push(p);
    assert forall|i: int, j: int| 0 <= i < j < t.len() implies key_lt(#[trigger] t[i].0, #[trigger] t[j].0) by {
        if j == t.len() - 1 && i < s.len() - 1 {
            assert(key_lt(s[i].0, s[s.len() - 1].0));
        }
    }
}

/// The filter over a prefix grows by the next element when it passes.
pub proof fn lemma_range_filter_step(s: Seq<Pair>, start: Seq<u8>, end: Seq<u8>, i: int)
    requires
        0 <= i < s.len(),
    ensures
        range_filter(s.subrange(0, i + 1), start, end) == (if in_range(s[i].0, start, end) {
            range_filter(s.subrange(0, i), start, end).push(s[i])
        } else {
            range_filter(s.subrange(0, i), start, end)
        }),
{
    let pred = |p: Pair| in_range(p.0, start, end);
    let a = s.subrange(0, i + 1);
    assert(a.drop_last() =~= s.subrange(0, i));
    reveal(Seq::filter);
    assert(a.filter(pred) == {
        let rest = a.drop_last().filter(pred);
        if pred(a.last()) {
            rest.push(a.last())
        } else {
            rest
        }
    });
}

/// Filtering a sorted sequence by a key interval leaves it sorted, and its map
/// is the unfiltered map cut down to the interval.
pub proof fn lemma_range_filter_props(s: Seq<Pair>, start: Seq<u8>, end: Seq<u8>)
    requires
        strictly_sorted(s),
    ensures
        strictly_sorted(range_filter(s, start, end)),
        forall|k: Seq<u8>| #[trigger] pairs_map(range_filter(s, start, end)).contains_key(k)
            <==> pairs_map(s).contains_key(k) && in_range(k, start, end),
        forall|k: Seq<u8>| #[trigger] pairs_map(range_filter(s, start, end)).contains_key(k)
            ==> pairs_map(range_filter(s, start, end))[k] == pairs_map(s)[k],
    decreases s.len(),
{
    let pred = |p: Pair| in_range(p.0, start, end);
    lemma_key_order();
    if s.len() > 0 {
        let t = s.drop_last();
        assert(strictly_sorted(t));
        lemma_range_filter_props(t, start, end);
        assert(s.subrange(0, s.len() - 1) =~= t);
        assert(s.subrange(0, s.len() as int) =~= s);
        lemma_range_filter_step(s, start, end, s.len() - 1);
        let ft = range_filter(t, start, end);
        let fs = range_filter(s, start, end);
        lemma_sorted_unique(s);
        lemma_sorted_unique(t);
        lemma_pairs_map(s);
        lemma_pairs_map(t);
        lemma_sorted_unique(ft);
        lemma_pairs_map(ft);
        if pred(s.last()) {
            assert forall|k: Seq<u8>| #[trigger] pairs_map(ft).contains_key(k) implies key_lt(k, s.last().0) by {
                let a = choose|a: int| 0 <= a < t.len() && t[a].0 == k;
                assert(s[a].0 == k);
            }
            if ft.len() > 0 {
                assert(pairs_map(ft).contains_key(ft.last().0));
            }
            lemma_sorted_push(ft, s.last());
        }
        assert forall|k: Seq<u8>| #[trigger] pairs_map(t).contains_key(k) implies k != s.last().0 by {
            let a = choose|a: int| 0 <= a < t.len() && t[a].0 == k;
            assert(s[a].0 == k);
        }
        assert(pairs_map(s) == pairs_map(t).insert(s.last().0, s.last().1));
        if pred(s.last()) {
            assert(fs == ft.push(s.last()));
            assert(fs.drop_last() =~= ft);
            assert(pairs_map(fs) == pairs_map(ft).insert(s.last().0, s.last().1));
        } else {
            assert(fs == ft);
        }
        assert forall|k: Seq<u8>| #[trigger] pairs_map(fs).contains_key(k)
            <==> pairs_map(s).contains_key(k) && in_range(k, start, end) by {
            if k != s.last().0 {
                assert(pairs_map(ft).contains_key(k) <==> pairs_map(t).contains_key(k) && in_range(k, start, end));
            }
        }
        assert forall|k: Seq<u8>| #[trigger] pairs_map(fs).contains_key(k)
            implies pairs_map(fs)[k] == pairs_map(s)[k] by {
            if k != s.last().0 {
                assert(pairs_map(ft).contains_key(k));
            }
        }
    } else {
        reveal(Seq::filter);
        assert(range_filter(s, start, end) =~= Seq::<Pair>::empty());
    }
}

} // verus!
