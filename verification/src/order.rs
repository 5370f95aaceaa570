//! Texts in order: the order of characters, one by one, and lists kept in it.
use crate::text;
use vstd::prelude::*;

verus! {

/// Whether `a` comes before `b` in the order of their characters.
pub open spec fn text_lt(a: Seq<char>, b: Seq<char>) -> bool
    decreases a.len(),
{
    if b.len() == 0 {
        false
    } else if a.len() == 0 {
        true
    } else if a[0] != b[0] {
        a[0] < b[0]
    } else {
        text_lt(a.skip(1), b.skip(1))
    }
}

/// No text comes before itself.
pub proof fn lemma_lt_irreflexive(a: Seq<char>)
    ensures
        !text_lt(a, a),
    decreases a.len(),
{
    if a.len() > 0 {
        lemma_lt_irreflexive(a.skip(1));
    }
}

/// The order is transitive.
pub proof fn lemma_lt_transitive(a: Seq<char>, b: Seq<char>, c: Seq<char>)
    requires
        text_lt(a, b),
        text_lt(b, c),
    ensures
        text_lt(a, c),
    decreases a.len(),
{
    if a.len() > 0 && a[0] == b[0] && b[0] == c[0] {
        lemma_lt_transitive(a.skip(1), b.skip(1), c.skip(1));
    }
}

/// Of two different texts one comes before the other.
pub proof fn lemma_lt_total(a: Seq<char>, b: Seq<char>)
    ensures
        a == b || text_lt(a, b) || text_lt(b, a),
    decreases a.len(),
{
    if a.len() > 0 && b.len() > 0 && a[0] == b[0] {
        lemma_lt_total(a.skip(1), b.skip(1));
        if a.skip(1) == b.skip(1) {
            assert(a =~= seq![a[0]] + a.skip(1));
            assert(b =~= seq![b[0]] + b.skip(1));
        }
    } else if a.len() == 0 && b.len() == 0 {
        assert(a =~= b);
    }
}

/// Whether `a` comes before `b`.
pub fn chars_less(a: &Vec<char>, b: &Vec<char>) -> (r: bool)
    ensures
        r == text_lt(a@, b@),
{
    let mut i: usize = 0;
    assert(a@.skip(0) =~= a@);
    assert(b@.skip(0) =~= b@);
    while i < a.len() && i < b.len()
        invariant
            i <= a@.len(),
            i <= b@.len(),
            text_lt(a@, b@) == text_lt(a@.skip(i as int), b@.skip(i as int)),
        decreases a.len() - i,
    {
        assert(a@.skip(i as int)[0] == a@[i as int]);
        assert(b@.skip(i as int)[0] == b@[i as int]);
        if a[i] != b[i] {
            return a[i] < b[i];
        }
        assert(a@.skip(i as int).skip(1) =~= a@.skip(i + 1));
        assert(b@.skip(i as int).skip(1) =~= b@.skip(i + 1));
        i += 1;
    }
    i < b.len()
}

/// Whether `a` comes before `b`.
pub fn text_less(a: &str, b: &str) -> (r: bool)
    ensures
        r == text_lt(a@, b@),
{
    chars_less(&text::chars_of(a), &text::chars_of(b))
}

/// Whether the texts stand in order, none twice.
pub open spec fn ordered(v: Seq<Seq<char>>) -> bool {
    forall|i: int, j: int| 0 <= i < j < v.len() ==> text_lt(#[trigger] v[i], #[trigger] v[j])
}

/// Whether `out` is `before` with `x` among its members.
pub open spec fn with_member(before: Seq<Seq<char>>, out: Seq<Seq<char>>, x: Seq<char>) -> bool {
    forall|y: Seq<char>| #[trigger] out.contains(y) <==> before.contains(y) || y == x
}

/// Puts `name` at its place among the ordered `v`, unless it is there already.
pub fn insert_ordered(v: &mut Vec<String>, name: &str)
    requires
        ordered(text::texts(old(v)@)),
    ensures
        ordered(text::texts(final(v)@)),
        with_member(text::texts(old(v)@), text::texts(final(v)@), name@),
{
    let ghost g0 = text::texts(v@);
    let mut i: usize = 0;
    while i < v.len() && text_less(v[i].as_str(), name)
        invariant
            i <= v@.len(),
            g0 == text::texts(v@),
            forall|j: int| 0 <= j < i ==> text_lt(#[trigger] g0[j], name@),
        decreases v.len() - i,
    {
        assert(g0[i as int] == v@[i as int]@);
        i += 1;
    }
    if i < v.len() && text::same_text(v[i].as_str(), name) {
        assert(g0[i as int] == name@);
        assert(with_member(g0, g0, name@)) by {
            assert(g0.contains(g0[i as int]));
        }
        return;
    }
    let ghost ov = v@;
    proof {
        if i < g0.len() {
            assert(g0[i as int] == ov[i as int]@);
            lemma_lt_total(name@, g0[i as int]);
        }
        assert forall|j: int| i <= j < g0.len() implies text_lt(name@, #[trigger] g0[j]) by {
            if j > i {
                lemma_lt_transitive(name@, g0[i as int], g0[j]);
            }
        }
    }
    v.insert(i, name.to_string());
    let ghost g1 = text::texts(v@);
    assert(g1 =~= g0.insert(i as int, name@));
    proof {
        assert forall|a: int, b: int| 0 <= a < b < g1.len() implies text_lt(
            #[trigger] g1[a],
            #[trigger] g1[b],
        ) by {
            if a < i && b < i {
                assert(g1[a] == g0[a] && g1[b] == g0[b]);
            } else if a < i && b == i {
                assert(g1[a] == g0[a]);
            } else if a < i {
                assert(g1[a] == g0[a] && g1[b] == g0[b - 1]);
            } else if a == i {
                assert(g1[b] == g0[b - 1]);
            } else {
                assert(g1[a] == g0[a - 1] && g1[b] == g0[b - 1]);
            }
        }
        assert forall|y: Seq<char>| #[trigger] g1.contains(y) <==> g0.contains(y) || y == name@ by {
            if g1.contains(y) {
                let k = choose|k: int| 0 <= k < g1.len() && g1[k] == y;
                if k < i {
                    assert(g0[k] == y);
                } else if k > i {
                    assert(g0[k - 1] == y);
                }
            }
            if g0.contains(y) {
                let k = choose|k: int| 0 <= k < g0.len() && g0[k] == y;
                if k < i {
                    assert(g1[k] == y);
                } else {
                    assert(g1[k + 1] == y);
                }
            }
            if y == name@ {
                assert(g1[i as int] == y);
            }
        }
    }
}

/// Two ordered lists with the same members are the same list.
pub proof fn lemma_ordered_unique(a: Seq<Seq<char>>, b: Seq<Seq<char>>)
    requires
        ordered(a),
        ordered(b),
        forall|y: Seq<char>| #[trigger] a.contains(y) <==> b.contains(y),
    ensures
        a == b,
    decreases a.len(),
{
    if a.len() == 0 {
        if b.len() > 0 {
            assert(b.contains(b[0]));
            assert(a.contains(b[0]));
        }
        assert(a =~= b);
    } else {
        assert(a.contains(a[0]));
        assert(b.contains(a[0]));
        let k = choose|k: int| 0 <= k < b.len() && b[k] == a[0];
        assert(b.contains(b[0]));
        assert(a.contains(b[0]));
        let m = choose|m: int| 0 <= m < a.len() && a[m] == b[0];
        if k > 0 {
            assert(text_lt(b[0], b[k]));
            if m > 0 {
                assert(text_lt(a[0], a[m]));
                lemma_lt_transitive(a[0], b[0], a[0]);
            }
            lemma_lt_irreflexive(a[0]);
        }
        assert(a[0] == b[0]);
        let a1 = a.skip(1);
        let b1 = b.skip(1);
        assert forall|y: Seq<char>| #[trigger] a1.contains(y) <==> b1.contains(y) by {
            lemma_tail_members(a, y);
            lemma_tail_members(b, y);
        }
        assert forall|i: int, j: int| 0 <= i < j < a1.len() implies text_lt(
            #[trigger] a1[i],
            #[trigger] a1[j],
        ) by {
            assert(a1[i] == a[i + 1] && a1[j] == a[j + 1]);
        }
        assert forall|i: int, j: int| 0 <= i < j < b1.len() implies text_lt(
            #[trigger] b1[i],
            #[trigger] b1[j],
        ) by {
            assert(b1[i] == b[i + 1] && b1[j] == b[j + 1]);
        }
        lemma_ordered_unique(a1, b1);
        assert(a =~= seq![a[0]] + a1);
        assert(b =~= seq![b[0]] + b1);
    }
}

proof fn lemma_tail_members(a: Seq<Seq<char>>, y: Seq<char>)
    requires
        a.len() > 0,
        ordered(a),
    ensures
        a.skip(1).contains(y) <==> a.contains(y) && y != a[0],
{
    let a1 = a.skip(1);
    if a1.contains(y) {
        let i = choose|i: int| 0 <= i < a1.len() && a1[i] == y;
        assert(a[i + 1] == y);
        assert(text_lt(a[0], a[i + 1]));
        lemma_lt_irreflexive(y);
    }
    if a.contains(y) && y != a[0] {
        let i = choose|i: int| 0 <= i < a.len() && a[i] == y;
        assert(a1[i - 1] == y);
    }
}

/// Texts are ordered by the first character in which they differ, and a text comes
/// before those that go on from it.
pub proof fn law_the_first_difference_decides(
    common: Seq<char>,
    a: char,
    b: char,
    x: Seq<char>,
    y: Seq<char>,
)
    requires
        a < b,
    ensures
        text_lt(common.push(a) + x, common.push(b) + y),
        !text_lt(common.push(b) + y, common.push(a) + x),
        text_lt(common, common.push(b) + y),
        !text_lt(common.push(b) + y, common),
    decreases common.len(),
{
    let (s, t) = (common.push(a) + x, common.push(b) + y);
    if common.len() > 0 {
        let rest = common.skip(1);
        law_the_first_difference_decides(rest, a, b, x, y);
        assert(s.skip(1) =~= rest.push(a) + x);
        assert(t.skip(1) =~= rest.push(b) + y);
        assert(s[0] == common[0] && t[0] == common[0]);
    } else {
        assert(s[0] == a && t[0] == b);
    }
}

} // verus!
