//! Lists of indices.
use vstd::prelude::*;

verus! {

/// Whether `s` ascends without repetition.
pub open spec fn ascending(s: Seq<usize>) -> bool {
    forall|i: int, j: int| 0 <= i < j < s.len() ==> s[i] < s[j]
}

/// Whether `v` holds `x`.
pub fn contains(v: &[usize], x: usize) -> (r: bool)
    ensures
        r == v@.contains(x),
{
    let mut i: usize = 0;
    while i < v.len()
        invariant
            i <= v@.len(),
            forall|j: int| 0 <= j < i ==> v@[j] != x,
        decreases v.len() - i,
    {
        if v[i] == x {
            return true;
        }
        i += 1;
    }
    false
}

/// Puts `x` at its place in the ascending `v`, unless it is there already.
pub fn insert(v: &mut Vec<usize>, x: usize)
    requires
        ascending(old(v)@),
    ensures
        ascending(final(v)@),
        forall|y: usize| #[trigger] final(v)@.contains(y) <==> old(v)@.contains(y) || y == x,
{
    let ghost g0 = v@;
    let mut i: usize = 0;
    while i < v.len() && v[i] < x
        invariant
            i <= v@.len(),
            v@ == g0,
            forall|j: int| 0 <= j < i ==> g0[j] < x,
        decreases v.len() - i,
    {
        i += 1;
    }
    if i < v.len() && v[i] == x {
        assert(g0[i as int] == x);
        return;
    }
    assert forall|j: int| i <= j < g0.len() implies x < g0[j] by {
        if j > i {
            assert(g0[i as int] < g0[j]);
        }
    }
    v.insert(i, x);
    let ghost g1 = v@;
    assert(g1 =~= g0.insert(i as int, x));
    assert forall|a: int, b: int| 0 <= a < b < g1.len() implies g1[a] < g1[b] by {
        if b < i {
            assert(g0[a] < g0[b]);
        } else if a < i && b > i {
            assert(g1[b] == g0[b - 1]);
        } else if a > i {
            assert(g1[a] == g0[a - 1] && g1[b] == g0[b - 1]);
        }
    }
    assert forall|y: usize| #[trigger] g1.contains(y) <==> g0.contains(y) || y == x by {
        if g1.contains(y) {
            let k = choose|k: int| 0 <= k < g1.len() && g1[k] == y;
            if k < i {
                assert(g0[k] == y);
            } else if k > i {
                assert(g0[k - 1] == y);
            }
        }
        if g0.contains(y) {
            let k = choose|k: int| 0 <= k < g0.len() && g0[k] == y;
            if k < i {
                assert(g1[k] == y);
            } else {
                assert(g1[k + 1] == y);
            }
        }
        if y == x {
            assert(g1[i as int] == y);
        }
    }
}

/// Pushing adds one member.
pub proof fn lemma_push_member(v: Seq<usize>, x: usize, y: usize)
    ensures
        v.push(x).contains(y) <==> v.contains(y) || y == x,
{
    let w = v.push(x);
    if v.contains(y) {
        let k = choose|k: int| 0 <= k < v.len() && v[k] == y;
        assert(w[k] == y);
    }
    if y == x {
        assert(w[v.len() as int] == y);
    }
    if w.contains(y) {
        let k = choose|k: int| 0 <= k < w.len() && w[k] == y;
        if k < v.len() {
            assert(v[k] == y);
        }
    }
}

/// The indices `v` in ascending order, each once.
pub fn sorted(v: &[usize]) -> (r: Vec<usize>)
    ensures
        ascending(r@),
        forall|x: usize| #[trigger] r@.contains(x) <==> v@.contains(x),
{
    let mut out: Vec<usize> = Vec::new();
    let mut i: usize = 0;
    while i < v.len()
        invariant
            i <= v@.len(),
            ascending(out@),
            forall|x: usize| #[trigger] out@.contains(x) <==> v@.take(i as int).contains(x),
        decreases v.len() - i,
    {
        let ghost o0 = out@;
        insert(&mut out, v[i]);
        assert(v@.take(i + 1) =~= v@.take(i as int).push(v@[i as int]));
        assert forall|x: usize| #[trigger] out@.contains(x) <==> v@.take(i + 1).contains(x) by {
            assert(o0.contains(x) <==> v@.take(i as int).contains(x));
            lemma_push_member(v@.take(i as int), v@[i as int], x);
        }
        i += 1;
    }
    assert(v@.take(i as int) =~= v@);
    out
}

/// Whether `at` names, in ascending order, exactly the places of `from..to` that
/// have the property `p`.
pub open spec fn lists(at: Seq<int>, from: int, to: int, p: spec_fn(int) -> bool) -> bool {
    &&& forall|a: int, b: int| 0 <= a < b < at.len() ==> at[a] < at[b]
    &&& forall|k: int| 0 <= k < at.len() ==> from <= #[trigger] at[k] < to && p(at[k])
    &&& forall|x: int| from <= x < to && p(x) ==> #[trigger] at.contains(x)
}

/// There is such a list for every property.
pub proof fn lemma_listing(from: int, to: int, p: spec_fn(int) -> bool) -> (at: Seq<int>)
    ensures
        lists(at, from, to, p),
    decreases to - from,
{
    if to <= from {
        Seq::<int>::empty()
    } else {
        let init = lemma_listing(from, to - 1, p);
        if p(to - 1) {
            let at = init.push(to - 1);
            assert forall|x: int| from <= x < to && p(x) implies #[trigger] at.contains(x) by {
                if x < to - 1 {
                    assert(init.contains(x));
                    let k = choose|k: int| 0 <= k < init.len() && init[k] == x;
                    assert(at[k] == x);
                } else {
                    assert(at[init.len() as int] == x);
                }
            }
            at
        } else {
            init
        }
    }
}

/// A list up to `to` is one up to the place before, with that place behind it where
/// it has the property.
pub proof fn lemma_lists_step(at: Seq<int>, from: int, to: int, p: spec_fn(int) -> bool)
    requires
        lists(at, from, to, p),
    ensures
        to <= from ==> at.len() == 0,
        from < to && p(to - 1) ==> at.len() > 0 && at.last() == to - 1 && lists(
            at.drop_last(),
            from,
            to - 1,
            p,
        ),
        from < to && !p(to - 1) ==> lists(at, from, to - 1, p),
{
    if to <= from && at.len() > 0 {
        assert(from <= at[0] < to);
    }
    if from < to && p(to - 1) {
        assert(at.contains(to - 1));
        let k = choose|k: int| 0 <= k < at.len() && at[k] == to - 1;
        if k < at.len() - 1 {
            assert(at[k] < at[at.len() - 1]);
        }
        let init = at.drop_last();
        assert forall|k: int| 0 <= k < init.len() implies from <= #[trigger] init[k] < to - 1
            && p(init[k]) by {
            assert(init[k] == at[k]);
            assert(at[k] < at[at.len() - 1]);
        }
        assert forall|x: int| from <= x < to - 1 && p(x) implies #[trigger] init.contains(x) by {
            assert(at.contains(x));
            let j = choose|j: int| 0 <= j < at.len() && at[j] == x;
            assert(init[j] == x);
        }
    }
    if from < to && !p(to - 1) {
        assert forall|k: int| 0 <= k < at.len() implies from <= #[trigger] at[k] < to - 1 && p(
            at[k],
        ) by {}
    }
}

} // verus!
