use vstd::prelude::*;
use crate::data_type::tombstone;
use crate::level::{level_maps, Level};
use crate::run::Run;

verus! {

pub type KvMap = Map<Seq<u8>, Seq<u8>>;

/// The map that a stack of maps shows, newest first: for each key, the value
/// of the first map that holds it.
pub open spec fn resolve(ms: Seq<KvMap>) -> KvMap
    decreases ms.len(),
{
    if ms.len() == 0 {
        Map::empty()
    } else {
        resolve(ms.drop_first()).union_prefer_right(ms[0])
    }
}

/// The maps of all runs of a sequence of levels, newest first.
pub open spec fn all_runs(ls: Seq<Level>) -> Seq<KvMap>
    decreases ls.len(),
{
    if ls.len() == 0 {
        Seq::empty()
    } else {
        level_maps(ls[0]) + all_runs(ls.drop_first())
    }
}

/// A map with its tombstoned keys taken out: what reads see.
pub open spec fn visible(m: KvMap) -> KvMap {
    Map::new(|k: Seq<u8>| m.contains_key(k) && m[k] != tombstone(), |k: Seq<u8>| m[k])
}

/// A map cut down to the keys in `[start, end]`.
pub open spec fn restrict_range(m: KvMap, start: Seq<u8>, end: Seq<u8>) -> KvMap {
    Map::new(
        |k: Seq<u8>| m.contains_key(k) && crate::data_type::in_range(k, start, end),
        |k: Seq<u8>| m[k],
    )
}

/// Resolving a stack split in two: the upper part wins over the lower.
pub proof fn lemma_resolve_append(a: Seq<KvMap>, b: Seq<KvMap>)
    ensures
        resolve(a + b) == resolve(b).union_prefer_right(resolve(a)),
    decreases a.len(),
{
    if a.len() == 0 {
        assert(a + b =~= b);
        assert(resolve(b).union_prefer_right(resolve(a)) =~= resolve(b));
    } else {
        assert((a + b).drop_first() =~= a.drop_first() + b);
        assert((a + b)[0] == a[0]);
        lemma_resolve_append(a.drop_first(), b);
        assert(resolve(a + b) =~= resolve(b).union_prefer_right(resolve(a)));
    }
}

/// A key shows in a stack exactly when some map of it holds the key.
pub proof fn lemma_resolve_contains(ms: Seq<KvMap>, k: Seq<u8>)
    ensures
        resolve(ms).contains_key(k) <==> exists|i: int| 0 <= i < ms.len() && #[trigger] ms[i].contains_key(k),
    decreases ms.len(),
{
    if ms.len() > 0 {
        let t = ms.drop_first();
        lemma_resolve_contains(t, k);
        if resolve(ms).contains_key(k) && !ms[0].contains_key(k) {
            let i = choose|i: int| 0 <= i < t.len() && #[trigger] t[i].contains_key(k);
            assert(ms[i + 1] == t[i]);
        }
        if exists|i: int| 0 <= i < ms.len() && #[trigger] ms[i].contains_key(k) {
            let i = choose|i: int| 0 <= i < ms.len() && #[trigger] ms[i].contains_key(k);
            if i > 0 {
                assert(t[i - 1] == ms[i]);
            }
        }
    }
}

/// The value a stack shows for a key is that of the first map holding it.
pub proof fn lemma_resolve_first(ms: Seq<KvMap>, k: Seq<u8>, i: int)
    requires
        0 <= i < ms.len(),
        ms[i].contains_key(k),
        forall|j: int| 0 <= j < i ==> !(#[trigger] ms[j].contains_key(k)),
    ensures
        resolve(ms).contains_key(k),
        resolve(ms)[k] == ms[i][k],
    decreases ms.len(),
{
    if i > 0 {
        let t = ms.drop_first();
        assert forall|j: int| 0 <= j < i - 1 implies !(#[trigger] t[j].contains_key(k)) by {
            assert(t[j] == ms[j + 1]);
        }
        assert(t[i - 1] == ms[i]);
        lemma_resolve_first(t, k, i - 1);
        assert(!ms[0].contains_key(k));
    }
}

/// The runs of a sequence of levels split in two are the runs of each part.
pub proof fn lemma_all_runs_append(a: Seq<Level>, b: Seq<Level>)
    ensures
        all_runs(a + b) == all_runs(a) + all_runs(b),
    decreases a.len(),
{
    if a.len() == 0 {
        assert(a + b =~= b);
        assert(all_runs(a) + all_runs(b) =~= all_runs(b));
    } else {
        assert((a + b).drop_first() =~= a.drop_first() + b);
        assert((a + b)[0] == a[0]);
        lemma_all_runs_append(a.drop_first(), b);
        assert(all_runs(a + b) =~= all_runs(a) + all_runs(b));
    }
}

/// The runs of the levels, seen around level `i`.
pub proof fn lemma_all_runs_split(ls: Seq<Level>, i: int)
    requires
        0 <= i < ls.len(),
    ensures
        all_runs(ls) == all_runs(ls.take(i)) + level_maps(ls[i]) + all_runs(ls.skip(i + 1)),
{
    assert(ls =~= ls.take(i) + ls.skip(i));
    lemma_all_runs_append(ls.take(i), ls.skip(i));
    assert(ls.skip(i).drop_first() =~= ls.skip(i + 1));
    assert(ls.skip(i)[0] == ls[i]);
    assert(all_runs(ls.skip(i)) == level_maps(ls[i]) + all_runs(ls.skip(i + 1)));
    assert(all_runs(ls.take(i)) + (level_maps(ls[i]) + all_runs(ls.skip(i + 1))) =~= all_runs(ls.take(i))
        + level_maps(ls[i]) + all_runs(ls.skip(i + 1)));
}

/// Levels past the end hold no runs.
pub proof fn lemma_all_runs_take_all(ls: Seq<Level>)
    ensures
        ls.take(ls.len() as int) == ls,
        ls.skip(ls.len() as int) == Seq::<Level>::empty(),
        all_runs(Seq::<Level>::empty()) == Seq::<KvMap>::empty(),
{
    assert(ls.take(ls.len() as int) =~= ls);
    assert(ls.skip(ls.len() as int) =~= Seq::<Level>::empty());
}

/// Restricting every map of a stack to a key interval restricts what it shows.
pub proof fn lemma_restrict_union(a: KvMap, b: KvMap, start: Seq<u8>, end: Seq<u8>)
    ensures
        restrict_range(a, start, end).union_prefer_right(restrict_range(b, start, end))
            == restrict_range(a.union_prefer_right(b), start, end),
{
    assert(restrict_range(a, start, end).union_prefer_right(restrict_range(b, start, end))
        =~= restrict_range(a.union_prefer_right(b), start, end));
}


/// The runs of the levels after level `i` is replaced by `a`.
pub proof fn lemma_all_runs_update(ls: Seq<Level>, i: int, a: Level)
    requires
        0 <= i < ls.len(),
    ensures
        all_runs(ls.update(i, a)) == all_runs(ls.take(i)) + level_maps(a) + all_runs(ls.skip(i + 1)),
{
    let u = ls.update(i, a);
    lemma_all_runs_split(u, i);
    assert(u.take(i) =~= ls.take(i));
    assert(u.skip(i + 1) =~= ls.skip(i + 1));
}

/// The runs of the levels after levels `i` and `i + 1` are replaced by `a`
/// and `b`.
pub proof fn lemma_all_runs_update2(ls: Seq<Level>, i: int, a: Level, b: Level)
    requires
        0 <= i,
        i + 1 < ls.len(),
    ensures
        all_runs(ls.update(i, a).update(i + 1, b)) == all_runs(ls.take(i)) + level_maps(a) + level_maps(b)
            + all_runs(ls.skip(i + 2)),
{
    let u = ls.update(i, a);
    lemma_all_runs_update(u, i + 1, b);
    assert(u.take(i + 1) =~= ls.take(i).push(a));
    assert(u.skip(i + 2) =~= ls.skip(i + 2));
    lemma_all_runs_append(ls.take(i), seq![a]);
    assert(ls.take(i).push(a) =~= ls.take(i) + seq![a]);
    assert(seq![a].drop_first() =~= Seq::<Level>::empty());
    assert(seq![a][0] == a);
    assert(all_runs(Seq::<Level>::empty()) =~= Seq::<KvMap>::empty());
    assert(all_runs(seq![a]) =~= level_maps(a));
}

/// A stack of one map shows that map.
pub proof fn lemma_resolve_single(m: KvMap)
    ensures
        resolve(seq![m]) == m,
{
    assert(seq![m].drop_first() =~= Seq::<KvMap>::empty());
    assert(seq![m][0] == m);
    assert(resolve(Seq::<KvMap>::empty()) == Map::<Seq<u8>, Seq<u8>>::empty());
    assert(resolve(seq![m]) =~= m);
}

/// Replacing a block of a stack by one map that shows the same leaves the
/// stack showing the same.
pub proof fn lemma_resolve_replace_block(a: Seq<KvMap>, b: Seq<KvMap>, m: KvMap, d: Seq<KvMap>)
    requires
        m == resolve(b),
    ensures
        resolve(a + b + d) == resolve(a + seq![m] + d),
{
    assert(a + b + d =~= a + (b + d));
    assert(a + seq![m] + d =~= a + (seq![m] + d));
    lemma_resolve_append(a, b + d);
    lemma_resolve_append(a, seq![m] + d);
    lemma_resolve_append(b, d);
    lemma_resolve_append(seq![m], d);
    lemma_resolve_single(m);
}


/// The runs of the first `j + 1` levels are those of the first `j`, then
/// those of level `j`.
pub proof fn lemma_all_runs_take_next(ls: Seq<Level>, j: int)
    requires
        0 <= j < ls.len(),
    ensures
        all_runs(ls.take(j + 1)) == all_runs(ls.take(j)) + level_maps(ls[j]),
{
    assert(ls.take(j + 1) =~= ls.take(j) + seq![ls[j]]);
    lemma_all_runs_append(ls.take(j), seq![ls[j]]);
    assert(seq![ls[j]].drop_first() =~= Seq::<Level>::empty());
    assert(seq![ls[j]][0] == ls[j]);
    assert(all_runs(Seq::<Level>::empty()) =~= Seq::<KvMap>::empty());
    assert(all_runs(seq![ls[j]]) =~= level_maps(ls[j]));
}

/// The runs themselves of a sequence of levels, newest first.
pub open spec fn all_run_values(ls: Seq<Level>) -> Seq<Run>
    decreases ls.len(),
{
    if ls.len() == 0 {
        Seq::empty()
    } else {
        ls[0].runs@ + all_run_values(ls.drop_first())
    }
}

/// The maps of the listed runs are the listed maps.
pub proof fn lemma_run_values_view(ls: Seq<Level>)
    ensures
        all_run_values(ls).len() == all_runs(ls).len(),
        forall|x: int| 0 <= x < all_runs(ls).len() ==> (#[trigger] all_run_values(ls)[x])@ == all_runs(ls)[x],
    decreases ls.len(),
{
    if ls.len() > 0 {
        lemma_run_values_view(ls.drop_first());
        let a = ls[0].runs@;
        let rest = all_run_values(ls.drop_first());
        assert forall|x: int| 0 <= x < all_runs(ls).len() implies (#[trigger] all_run_values(ls)[x])@ == all_runs(ls)[x] by {
            if x < a.len() {
                assert(all_run_values(ls)[x] == a[x]);
                assert(all_runs(ls)[x] == level_maps(ls[0])[x]);
            } else {
                assert(all_run_values(ls)[x] == rest[x - a.len()]);
                assert(all_runs(ls)[x] == all_runs(ls.drop_first())[x - a.len()]);
            }
        }
    }
}

/// The runs of the first `j + 1` levels are those of the first `j`, then
/// those of level `j`.
pub proof fn lemma_run_values_take_next(ls: Seq<Level>, j: int)
    requires
        0 <= j < ls.len(),
    ensures
        all_run_values(ls.take(j + 1)) == all_run_values(ls.take(j)) + ls[j].runs@,
{
    lemma_run_values_append(ls.take(j), seq![ls[j]]);
    assert(ls.take(j + 1) =~= ls.take(j) + seq![ls[j]]);
    assert(seq![ls[j]].drop_first() =~= Seq::<Level>::empty());
    assert(seq![ls[j]][0] == ls[j]);
    assert(all_run_values(Seq::<Level>::empty()) =~= Seq::<Run>::empty());
    assert(all_run_values(seq![ls[j]]) =~= ls[j].runs@);
}

pub proof fn lemma_run_values_append(a: Seq<Level>, b: Seq<Level>)
    ensures
        all_run_values(a + b) == all_run_values(a) + all_run_values(b),
    decreases a.len(),
{
    if a.len() == 0 {
        assert(a + b =~= b);
        assert(all_run_values(a) + all_run_values(b) =~= all_run_values(b));
    } else {
        assert((a + b).drop_first() =~= a.drop_first() + b);
        assert((a + b)[0] == a[0]);
        lemma_run_values_append(a.drop_first(), b);
        assert(all_run_values(a + b) =~= all_run_values(a) + all_run_values(b));
    }
}

} // verus!
