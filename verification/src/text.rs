//! Text as sequences of characters: splitting into lines, joining, trimming and
//! decimal numbers, each an executable function proved against a `spec` model.
use vstd::prelude::*;

verus! {

/// The views of a sequence of character vectors.
pub open spec fn deep(v: Seq<Vec<char>>) -> Seq<Seq<char>> {
    v.map_values(|x: Vec<char>| x@)
}

/// The views of a sequence of strings.
pub open spec fn texts(v: Seq<String>) -> Seq<Seq<char>> {
    v.map_values(|x: String| x@)
}

/// The view of an optional string.
pub open spec fn opt_text(v: Option<String>) -> Option<Seq<char>> {
    match v {
        Some(s) => Some(s@),
        None => None,
    }
}

/// `String::push`: appends one character to the end of the string.
#[verifier::external_body]
pub(crate) fn push_char(s: &mut String, c: char)
    ensures
        final(s)@ == old(s)@.push(c),
{
    s.push(c)
}

/// The characters of `s`, in order.
pub fn chars_of(s: &str) -> (r: Vec<char>)
    ensures
        r@ == s@,
{
    let mut v: Vec<char> = Vec::new();
    for c in it: s.chars()
        invariant
            v@ == it.seq().take(it.index() as int),
            it.seq() == s@,
    {
        v.push(c);
    }
    v
}

/// The string made of `v`'s characters.
pub fn string_of(v: &Vec<char>) -> (r: String)
    ensures
        r@ == v@,
{
    let mut s = String::new();
    let mut i: usize = 0;
    while i < v.len()
        invariant
            i <= v.len(),
            s@ == v@.take(i as int),
        decreases v.len() - i,
    {
        push_char(&mut s, v[i]);
        i += 1;
    }
    assert(v@.take(i as int) =~= v@);
    s
}

/// The characters `v[from..to]`.
pub fn slice_of(v: &Vec<char>, from: usize, to: usize) -> (r: Vec<char>)
    requires
        from <= to <= v.len(),
    ensures
        r@ == v@.subrange(from as int, to as int),
{
    let mut out: Vec<char> = Vec::new();
    let mut i: usize = from;
    while i < to
        invariant
            from <= i <= to <= v.len(),
            out@ == v@.subrange(from as int, i as int),
        decreases to - i,
    {
        out.push(v[i]);
        i += 1;
    }
    out
}

/// A copy of `v`.
pub fn copy_of(v: &Vec<char>) -> (r: Vec<char>)
    ensures
        r@ == v@,
{
    let r = slice_of(v, 0, v.len());
    assert(v@.subrange(0, v@.len() as int) =~= v@);
    r
}

/// Appends `other` to `v`.
pub fn push_all(v: &mut Vec<char>, other: &Vec<char>)
    ensures
        final(v)@ == old(v)@ + other@,
{
    let mut i: usize = 0;
    let ghost before = v@;
    while i < other.len()
        invariant
            i <= other.len(),
            v@ == before + other@.take(i as int),
        decreases other.len() - i,
    {
        v.push(other[i]);
        i += 1;
        assert(v@ =~= before + other@.take(i as int));
    }
    assert(other@.take(i as int) =~= other@);
}

/// Appends the characters of `other` to `v`.
pub fn push_text(v: &mut Vec<char>, other: &str)
    ensures
        final(v)@ == old(v)@ + other@,
{
    let o = chars_of(other);
    push_all(v, &o);
}

/// Whether two character vectors hold the same text.
pub fn same_chars(a: &Vec<char>, b: &Vec<char>) -> (r: bool)
    ensures
        r == (a@ == b@),
{
    if a.len() != b.len() {
        return false;
    }
    let mut i: usize = 0;
    while i < a.len()
        invariant
            i <= a.len(),
            a.len() == b.len(),
            a@.take(i as int) == b@.take(i as int),
        decreases a.len() - i,
    {
        if a[i] != b[i] {
            assert(a@[i as int] != b@[i as int]);
            return false;
        }
        assert(a@.take(i + 1) =~= a@.take(i as int).push(a@[i as int]));
        assert(b@.take(i + 1) =~= b@.take(i as int).push(b@[i as int]));
        i += 1;
    }
    assert(a@.take(i as int) =~= a@);
    assert(b@.take(i as int) =~= b@);
    true
}

/// Whether two texts are equal.
pub fn same_text(a: &str, b: &str) -> (r: bool)
    ensures
        r == (a@ == b@),
{
    same_chars(&chars_of(a), &chars_of(b))
}

/// Whether two optional texts are equal.
pub fn same_opt_text(a: &Option<String>, b: &Option<String>) -> (r: bool)
    ensures
        r == (opt_text(*a) == opt_text(*b)),
{
    match (a, b) {
        (Some(x), Some(y)) => *x == *y,
        (None, None) => true,
        _ => false,
    }
}

/// Whether `p` stands in `v` at `at`.
pub open spec fn occurs_at(v: Seq<char>, at: int, p: Seq<char>) -> bool {
    0 <= at && at + p.len() <= v.len() && v.subrange(at, at + p.len()) == p
}

/// Whether `p` stands in `v` at position `at`.
pub fn matches_at(v: &Vec<char>, at: usize, p: &Vec<char>) -> (r: bool)
    requires
        at <= v.len(),
    ensures
        r == occurs_at(v@, at as int, p@),
{
    if p.len() > v.len() - at {
        return false;
    }
    let mut i: usize = 0;
    while i < p.len()
        invariant
            i <= p.len(),
            at + p.len() <= v.len(),
            forall|j: int| 0 <= j < i ==> v@[at + j] == p@[j],
        decreases p.len() - i,
    {
        if v[at + i] != p[i] {
            assert(v@.subrange(at as int, at + p.len())[i as int] != p@[i as int]);
            return false;
        }
        i += 1;
    }
    assert(v@.subrange(at as int, at + p.len()) =~= p@);
    true
}

/// Whether `v` begins with `p`.
pub fn starts_with(v: &Vec<char>, p: &str) -> (r: bool)
    ensures
        r == p@.is_prefix_of(v@),
{
    let pc = chars_of(p);
    let r = matches_at(v, 0, &pc);
    r
}

/// The first position at or behind `i` where `p` stands in `s`.
pub open spec fn find_from(s: Seq<char>, p: Seq<char>, i: int) -> Option<int>
    decreases s.len() + 1 - i,
{
    if i < 0 || i + p.len() > s.len() {
        None
    } else if occurs_at(s, i, p) {
        Some(i)
    } else {
        find_from(s, p, i + 1)
    }
}

/// The first place at which `p` stands is the one that is found.
pub proof fn lemma_find_first(s: Seq<char>, p: Seq<char>, from: int, at: int)
    requires
        0 <= from <= at,
        occurs_at(s, at, p),
        forall|i: int| from <= i < at ==> !#[trigger] occurs_at(s, i, p),
    ensures
        find_from(s, p, from) == Some(at),
    decreases at - from,
{
    if from < at {
        assert(!occurs_at(s, from, p));
        lemma_find_first(s, p, from + 1, at);
    }
}

/// The first position at or behind `from` where `p` stands in `v`.
pub fn find_chars(v: &Vec<char>, p: &Vec<char>, from: usize) -> (r: Option<usize>)
    requires
        from <= v.len(),
    ensures
        (match r {
            Some(i) => find_from(v@, p@, from as int) == Some(i as int) && occurs_at(
                v@,
                i as int,
                p@,
            ) && from <= i,
            None => find_from(v@, p@, from as int) is None,
        }),
{
    let mut i: usize = from;
    while i <= v.len() && p.len() <= v.len() - i
        invariant
            from <= i <= v.len() + 1,
            find_from(v@, p@, from as int) == find_from(v@, p@, i as int),
        decreases v.len() + 1 - i,
    {
        if matches_at(v, i, p) {
            return Some(i);
        }
        if i == v.len() {
            assert(p@.len() == 0);
            assert(v@.subrange(i as int, i as int) =~= p@);
        }
        i += 1;
    }
    None
}

/// The pieces of `s` between occurrences of `sep`; `n` separators make `n + 1` pieces.
pub open spec fn split_on(s: Seq<char>, sep: char) -> Seq<Seq<char>>
    decreases s.len(),
{
    if s.len() == 0 {
        seq![Seq::<char>::empty()]
    } else {
        let init = split_on(s.drop_last(), sep);
        if s.last() == sep {
            init.push(Seq::<char>::empty())
        } else {
            init.drop_last().push(init.last().push(s.last()))
        }
    }
}

/// The lines of `s`: its pieces between newlines.
pub open spec fn lines(s: Seq<char>) -> Seq<Seq<char>> {
    split_on(s, '\n')
}

/// A split text has at least one piece.
pub proof fn lemma_split_nonempty(s: Seq<char>, sep: char)
    ensures
        split_on(s, sep).len() >= 1,
    decreases s.len(),
{
    if s.len() > 0 {
        lemma_split_nonempty(s.drop_last(), sep);
    }
}

/// The pieces of `v` between occurrences of `sep`.
pub fn split_chars(v: &Vec<char>, sep: char) -> (r: Vec<Vec<char>>)
    ensures
        deep(r@) == split_on(v@, sep),
{
    let mut out: Vec<Vec<char>> = Vec::new();
    let mut cur: Vec<char> = Vec::new();
    let mut i: usize = 0;
    assert(v@.take(0) =~= Seq::<char>::empty());
    assert(deep(out@).push(cur@) =~= split_on(v@.take(0), sep));
    while i < v.len()
        invariant
            i <= v.len(),
            deep(out@).push(cur@) == split_on(v@.take(i as int), sep),
        decreases v.len() - i,
    {
        let c = v[i];
        assert(v@.take(i + 1).drop_last() =~= v@.take(i as int));
        assert(v@.take(i + 1).last() == c);
        let ghost before = deep(out@);
        assert(before.push(cur@).drop_last() =~= before);
        if c == sep {
            let done = cur;
            cur = Vec::new();
            let ghost od = out@;
            out.push(done);
            assert(deep(out@) =~= deep(od).push(done@));
        } else {
            cur.push(c);
        }
        i += 1;
        assert(deep(out@).push(cur@) =~= split_on(v@.take(i as int), sep));
    }
    assert(v@.take(i as int) =~= v@);
    let ghost od = out@;
    out.push(cur);
    assert(deep(out@) =~= deep(od).push(cur@));
    out
}

/// The lines of `text`.
pub fn lines_of(text: &str) -> (r: Vec<Vec<char>>)
    ensures
        deep(r@) == lines(text@),
        r@.len() == lines(text@).len(),
{
    let v = chars_of(text);
    let r = split_chars(&v, '\n');
    assert(deep(r@).len() == r@.len());
    r
}

/// `parts` one after the other with `sep` between them.
pub open spec fn join_with(parts: Seq<Seq<char>>, sep: char) -> Seq<char>
    decreases parts.len(),
{
    if parts.len() == 0 {
        Seq::<char>::empty()
    } else if parts.len() == 1 {
        parts[0]
    } else {
        join_with(parts.drop_last(), sep).push(sep) + parts.last()
    }
}

/// Joins `parts` with `sep` between them.
pub fn join_chars(parts: &Vec<Vec<char>>, sep: char) -> (r: Vec<char>)
    ensures
        r@ == join_with(deep(parts@), sep),
{
    let mut out: Vec<char> = Vec::new();
    let mut i: usize = 0;
    while i < parts.len()
        invariant
            i <= parts.len(),
            out@ == join_with(deep(parts@).take(i as int), sep),
        decreases parts.len() - i,
    {
        let ghost head = deep(parts@).take(i + 1);
        assert(head.drop_last() =~= deep(parts@).take(i as int));
        assert(head.last() == parts@[i as int]@);
        if i > 0 {
            out.push(sep);
        }
        push_all(&mut out, &parts[i]);
        assert(out@ =~= join_with(head, sep));
        i += 1;
    }
    assert(deep(parts@).take(i as int) =~= deep(parts@));
    out
}

/// Whether `s` holds no `sep`.
pub open spec fn free_of(s: Seq<char>, sep: char) -> bool {
    !s.contains(sep)
}

/// A text without the separator is one piece.
pub proof fn lemma_split_free(s: Seq<char>, sep: char)
    requires
        free_of(s, sep),
    ensures
        split_on(s, sep) == seq![s],
    decreases s.len(),
{
    if s.len() > 0 {
        let t = s.drop_last();
        assert forall|c: char| t.contains(c) implies s.contains(c) by {
            let i = choose|i: int| 0 <= i < t.len() && t[i] == c;
            assert(s[i] == c);
        }
        lemma_split_free(t, sep);
        assert(s.contains(s[s.len() - 1]));
        assert(t.push(s.last()) =~= s);
        assert(seq![t].drop_last() =~= Seq::<Seq<char>>::empty());
        assert(split_on(s, sep) =~= seq![s]);
    } else {
        assert(s =~= Seq::<char>::empty());
    }
}

/// Splitting `a`, the separator and a separator-free `b` adds `b` as one more piece.
pub proof fn lemma_split_append(a: Seq<char>, b: Seq<char>, sep: char)
    requires
        free_of(b, sep),
    ensures
        split_on(a.push(sep) + b, sep) == split_on(a, sep).push(b),
    decreases b.len(),
{
    let s = a.push(sep) + b;
    if b.len() == 0 {
        assert(s =~= a.push(sep));
        assert(s.drop_last() =~= a);
        assert(b =~= Seq::<char>::empty());
    } else {
        let t = b.drop_last();
        assert forall|c: char| t.contains(c) implies b.contains(c) by {
            let i = choose|i: int| 0 <= i < t.len() && t[i] == c;
            assert(b[i] == c);
        }
        lemma_split_append(a, t, sep);
        assert(s.drop_last() =~= a.push(sep) + t);
        assert(b.contains(b[b.len() - 1]));
        assert(s.last() == b.last());
        assert(split_on(a, sep).push(t).drop_last() =~= split_on(a, sep));
        assert(t.push(b.last()) =~= b);
    }
}

/// Splitting joined separator-free pieces gives the pieces back.
pub proof fn lemma_split_join(parts: Seq<Seq<char>>, sep: char)
    requires
        parts.len() >= 1,
        forall|i: int| 0 <= i < parts.len() ==> free_of(#[trigger] parts[i], sep),
    ensures
        split_on(join_with(parts, sep), sep) == parts,
    decreases parts.len(),
{
    if parts.len() == 1 {
        lemma_split_free(parts[0], sep);
        assert(seq![parts[0]] =~= parts);
    } else {
        let init = parts.drop_last();
        lemma_split_join(init, sep);
        lemma_split_append(join_with(init, sep), parts.last(), sep);
        assert(init.push(parts.last()) =~= parts);
    }
}

/// No piece of a split text holds the separator.
pub proof fn lemma_split_pieces_free(s: Seq<char>, sep: char)
    ensures
        forall|i: int|
            0 <= i < split_on(s, sep).len() ==> free_of(#[trigger] split_on(s, sep)[i], sep),
    decreases s.len(),
{
    if s.len() > 0 {
        let t = s.drop_last();
        lemma_split_pieces_free(t, sep);
        lemma_split_nonempty(t, sep);
        let init = split_on(t, sep);
        let r = split_on(s, sep);
        assert forall|i: int| 0 <= i < r.len() implies free_of(#[trigger] r[i], sep) by {
            if s.last() == sep {
                if i < init.len() {
                    assert(r[i] == init[i]);
                }
            } else if i < init.len() - 1 {
                assert(r[i] == init[i]);
            } else {
                assert(free_of(init[init.len() - 1], sep));
                assert(r[i] == init.last().push(s.last()));
                assert forall|j: int| 0 <= j < r[i].len() implies r[i][j] != sep by {
                    if j < init.last().len() {
                        assert(init.last().contains(init.last()[j]));
                    }
                }
            }
        }
    }
}

/// The first position of `c` in `s`.
pub open spec fn find_char(s: Seq<char>, c: char) -> Option<int>
    decreases s.len(),
{
    if s.len() == 0 {
        None
    } else {
        match find_char(s.drop_last(), c) {
            Some(i) => Some(i),
            None => if s.last() == c {
                Some(s.len() - 1)
            } else {
                None
            },
        }
    }
}

/// What `find_char` finds: the first position, if the character occurs at all.
pub proof fn lemma_find_char(s: Seq<char>, c: char)
    ensures
        find_char(s, c) matches Some(i) ==> 0 <= i < s.len() && s[i] == c && forall|j: int|
            0 <= j < i ==> s[j] != c,
        find_char(s, c) is None ==> free_of(s, c),
    decreases s.len(),
{
    if s.len() > 0 {
        lemma_find_char(s.drop_last(), c);
        if find_char(s, c) is None {
            assert forall|j: int| 0 <= j < s.len() implies s[j] != c by {
                if j < s.len() - 1 {
                    assert(s.drop_last()[j] == s[j]);
                    assert(s.drop_last().contains(s.drop_last()[j]));
                }
            }
        } else if find_char(s.drop_last(), c) is None {
            assert forall|j: int| 0 <= j < s.len() - 1 implies s[j] != c by {
                assert(s.drop_last().contains(s.drop_last()[j]));
            }
        } else {
            let i = find_char(s.drop_last(), c)->0;
            assert forall|j: int| 0 <= j < i implies s[j] != c by {
                assert(s.drop_last()[j] == s[j]);
            }
        }
    }
}

/// A character that stands at `i` and nowhere before is found there.
pub proof fn lemma_found_at(s: Seq<char>, c: char, i: int)
    requires
        0 <= i < s.len(),
        s[i] == c,
        forall|j: int| 0 <= j < i ==> s[j] != c,
    ensures
        find_char(s, c) == Some(i),
{
    lemma_find_char(s, c);
    assert(s.contains(s[i]));
    let k = find_char(s, c)->0;
    assert(s[k] == c);
}

/// The first position of `c` in `v`.
pub fn index_of(v: &Vec<char>, c: char) -> (r: Option<usize>)
    ensures
        (match r {
            Some(i) => find_char(v@, c) == Some(i as int) && i < v@.len() && v@[i as int] == c,
            None => find_char(v@, c) is None,
        }),
{
    let mut i: usize = 0;
    while i < v.len()
        invariant
            i <= v@.len(),
            find_char(v@.take(i as int), c) is None,
        decreases v.len() - i,
    {
        if v[i] == c {
            proof {
                lemma_find_char(v@.take(i as int), c);
                assert forall|j: int| 0 <= j < i implies v@[j] != c by {
                    assert(v@.take(i as int).contains(v@.take(i as int)[j]));
                }
                lemma_found_at(v@, c, i as int);
            }
            return Some(i);
        }
        assert(v@.take(i + 1).drop_last() =~= v@.take(i as int));
        i += 1;
    }
    assert(v@.take(i as int) =~= v@);
    None
}

/// What stands before and behind the first `c` in `s`.
pub open spec fn cut(s: Seq<char>, c: char) -> Option<(Seq<char>, Seq<char>)> {
    match find_char(s, c) {
        Some(i) => Some((s.take(i), s.skip(i + 1))),
        None => None,
    }
}

/// Cutting `a`, the separator and `b` gives the two back, where `a` is free of it.
pub proof fn lemma_cut_at(a: Seq<char>, c: char, b: Seq<char>)
    requires
        free_of(a, c),
    ensures
        cut(a.push(c) + b, c) == Some((a, b)),
{
    let s = a.push(c) + b;
    assert forall|j: int| 0 <= j < a.len() implies s[j] != c by {
        assert(a.contains(a[j]));
    }
    lemma_found_at(s, c, a.len() as int);
    assert(s.take(a.len() as int) =~= a);
    assert(s.skip(a.len() as int + 1) =~= b);
}

/// What stands before and behind the first `c` in `v`.
pub fn cut_chars(v: &Vec<char>, c: char) -> (r: Option<(Vec<char>, Vec<char>)>)
    ensures
        (match r {
            Some(p) => cut(v@, c) == Some((p.0@, p.1@)),
            None => cut(v@, c) is None,
        }),
{
    match index_of(v, c) {
        Some(i) => {
            let n: usize = v.len();
            let a = slice_of(v, 0, i);
            let b = slice_of(v, i + 1, n);
            assert(a@ =~= v@.take(i as int));
            assert(b@ =~= v@.skip(i + 1));
            Some((a, b))
        },
        None => None,
    }
}

/// `l` without one trailing carriage return.
pub open spec fn strip_cr(l: Seq<char>) -> Seq<char> {
    if l.len() > 0 && l.last() == '\r' {
        l.drop_last()
    } else {
        l
    }
}

/// The lines of a text whose lines end with a newline, or with a carriage return
/// and a newline; the last line need not be ended.
pub open spec fn ended_lines(s: Seq<char>) -> Seq<Seq<char>> {
    let p = lines(s);
    let ended = Seq::new((p.len() - 1) as nat, |i: int| strip_cr(p[i]));
    if p.last().len() == 0 {
        ended
    } else {
        ended.push(p.last())
    }
}

/// The lines of ended lines that were joined: the lines themselves, where none
/// holds a newline or ends with a carriage return.
pub proof fn lemma_ended_lines_join(ls: Seq<Seq<char>>)
    requires
        forall|i: int|
            0 <= i < ls.len() ==> free_of(#[trigger] ls[i], '\n') && strip_cr(ls[i]) == ls[i],
    ensures
        ended_lines(join_with(ls.push(Seq::<char>::empty()), '\n')) == ls,
{
    let all = ls.push(Seq::<char>::empty());
    assert forall|i: int| 0 <= i < all.len() implies free_of(#[trigger] all[i], '\n') by {
        if i < ls.len() {
            assert(all[i] == ls[i]);
        }
    }
    lemma_split_join(all, '\n');
    assert(ended_lines(join_with(all, '\n')) =~= ls);
}

/// The lines of `text`, without their line ends.
pub fn ended_lines_of(text: &str) -> (r: Vec<Vec<char>>)
    ensures
        deep(r@) == ended_lines(text@),
        r@.len() == ended_lines(text@).len(),
{
    let p = lines_of(text);
    let ghost gp = lines(text@);
    proof {
        lemma_split_nonempty(text@, '\n');
    }
    let n: usize = p.len() - 1;
    let mut out: Vec<Vec<char>> = Vec::new();
    let mut i: usize = 0;
    while i < n
        invariant
            i <= n,
            n == p@.len() - 1,
            deep(p@) == gp,
            gp.len() == p@.len(),
            deep(out@) == Seq::new(i as nat, |k: int| strip_cr(gp[k])),
        decreases n - i,
    {
        assert(gp[i as int] == p@[i as int]@);
        let l = &p[i];
        let m: usize = if l.len() > 0 && l[l.len() - 1] == '\r' {
            l.len() - 1
        } else {
            l.len()
        };
        let piece = slice_of(l, 0, m);
        assert(piece@ =~= strip_cr(gp[i as int]));
        let ghost od = out@;
        out.push(piece);
        assert(deep(out@) =~= deep(od).push(piece@));
        i += 1;
        assert(deep(out@) =~= Seq::new(i as nat, |k: int| strip_cr(gp[k])));
    }
    assert(gp.last() == p@[n as int]@);
    if p[n].len() > 0 {
        let piece = copy_of(&p[n]);
        let ghost od = out@;
        out.push(piece);
        assert(deep(out@) =~= deep(od).push(piece@));
    }
    assert(deep(out@) =~= ended_lines(text@));
    assert(deep(out@).len() == out@.len());
    out
}

/// A copy of a list of texts.
pub fn copy_texts(v: &Vec<String>) -> (r: Vec<String>)
    ensures
        texts(r@) == texts(v@),
{
    let mut out: Vec<String> = Vec::new();
    let mut i: usize = 0;
    while i < v.len()
        invariant
            i <= v@.len(),
            texts(out@) == texts(v@.take(i as int)),
        decreases v.len() - i,
    {
        let ghost od = out@;
        out.push(v[i].clone());
        assert(texts(out@) =~= texts(od).push(v@[i as int]@));
        i += 1;
        assert(texts(v@.take(i as int)) =~= texts(v@.take(i - 1)).push(v@[i - 1]@));
    }
    assert(v@.take(i as int) =~= v@);
    out
}

/// The texts in a row with `sep` between two.
pub open spec fn list_with(parts: Seq<Seq<char>>, sep: Seq<char>) -> Seq<char>
    decreases parts.len(),
{
    if parts.len() == 0 {
        Seq::<char>::empty()
    } else if parts.len() == 1 {
        parts[0]
    } else {
        list_with(parts.drop_last(), sep) + sep + parts.last()
    }
}

/// The texts in a row with `sep` between two.
pub fn list_texts(parts: &Vec<String>, sep: &str) -> (r: String)
    ensures
        r@ == list_with(texts(parts@), sep@),
{
    let ghost gp = texts(parts@);
    let mut out: Vec<char> = Vec::new();
    let mut i: usize = 0;
    while i < parts.len()
        invariant
            i <= parts@.len(),
            gp == texts(parts@),
            out@ == list_with(gp.take(i as int), sep@),
        decreases parts.len() - i,
    {
        assert(gp[i as int] == parts@[i as int]@);
        assert(gp.take(i + 1).drop_last() =~= gp.take(i as int));
        if i > 0 {
            push_text(&mut out, sep);
        } else {
            assert(gp.take(1)[0] == gp[0]);
        }
        push_text(&mut out, parts[i].as_str());
        i += 1;
    }
    assert(gp.take(i as int) =~= gp);
    string_of(&out)
}

/// Whether the text `one` occurs in `v`.
pub fn contains_text(v: &[String], one: &str) -> (r: bool)
    ensures
        r == texts(v@).contains(one@),
{
    let ghost gv = texts(v@);
    let mut i: usize = 0;
    while i < v.len()
        invariant
            i <= v@.len(),
            gv == texts(v@),
            forall|j: int| 0 <= j < i ==> gv[j] != one@,
        decreases v.len() - i,
    {
        if same_text(v[i].as_str(), one) {
            assert(gv[i as int] == one@);
            return true;
        }
        i += 1;
    }
    false
}

} // verus!
