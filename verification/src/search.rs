//! Searching commit subjects: a case-insensitive match of whole terms, and the
//! markup that paints the characters it found.
use crate::indices;
use crate::numbers;
use crate::text;
use crate::unicode;
use crate::white;
use vstd::prelude::*;

verus! {

/// `c` case-folded to one character: the first of its lower-case form.
pub open spec fn folded_char(c: char) -> char {
    if unicode::char_lower(c).len() > 0 {
        unicode::char_lower(c)[0]
    } else {
        c
    }
}

/// `s` with every character case-folded, so positions stay those of `s`.
pub open spec fn folded(s: Seq<char>) -> Seq<char> {
    s.map_values(|c: char| folded_char(c))
}

/// Whether `needle` occurs in `hay`.
pub open spec fn occurs(hay: Seq<char>, needle: Seq<char>) -> bool {
    exists|start: int| #[trigger] text::occurs_at(hay, start, needle)
}

/// Whether some occurrence of `needle` in `hay` covers position `i`.
pub open spec fn covered_by(hay: Seq<char>, needle: Seq<char>, i: int) -> bool {
    exists|start: int|
        #[trigger] text::occurs_at(hay, start, needle) && start <= i < start + needle.len()
}

/// Whether there is a needle, none is empty, and every one occurs in `hay`.
pub open spec fn all_occur(hay: Seq<char>, needles: Seq<Seq<char>>) -> bool {
    &&& needles.len() > 0
    &&& forall|k: int|
        0 <= k < needles.len() ==> (#[trigger] needles[k]).len() > 0 && occurs(hay, needles[k])
}

/// Whether an occurrence of some needle covers position `i` of `hay`.
pub open spec fn marked(hay: Seq<char>, needles: Seq<Seq<char>>, i: int) -> bool {
    exists|k: int| 0 <= k < needles.len() && covered_by(hay, #[trigger] needles[k], i)
}

/// Whether `r` lists exactly the positions of `hay` that the needles mark.
pub open spec fn lists_marks(r: Seq<usize>, hay: Seq<char>, needles: Seq<Seq<char>>) -> bool {
    &&& indices::ascending(r)
    &&& forall|i: usize| #[trigger] r.contains(i) <==> i < hay.len() && marked(hay, needles, i as int)
}

/// Case-folds one character.
pub fn fold(c: char) -> (r: char)
    ensures
        r == folded_char(c),
{
    let l = unicode::to_lower(c);
    if l.len() > 0 {
        l[0]
    } else {
        c
    }
}

/// `v` with every character case-folded.
pub fn fold_chars(v: &Vec<char>) -> (r: Vec<char>)
    ensures
        r@ == folded(v@),
{
    let mut out: Vec<char> = Vec::new();
    let mut i: usize = 0;
    while i < v.len()
        invariant
            i <= v@.len(),
            out@ == folded(v@.take(i as int)),
        decreases v.len() - i,
    {
        out.push(fold(v[i]));
        i += 1;
        assert(out@ =~= folded(v@.take(i as int)));
    }
    assert(v@.take(i as int) =~= v@);
    out
}

/// Marks every occurrence of `needle` in `hay`; whether there is one.
fn mark_needle(hay: &Vec<char>, needle: &Vec<char>, mask: &mut Vec<bool>) -> (r: bool)
    requires
        old(mask)@.len() == hay@.len(),
        needle@.len() > 0,
    ensures
        r == occurs(hay@, needle@),
        final(mask)@.len() == hay@.len(),
        forall|i: int|
            0 <= i < hay@.len() ==> #[trigger] final(mask)@[i] == (old(mask)@[i] || covered_by(
                hay@,
                needle@,
                i,
            )),
{
    let mut found = false;
    let mut start: usize = 0;
    let ghost before = mask@;
    let n: usize = needle.len();
    let len: usize = hay.len();
    while start < len
        invariant
            start <= hay@.len(),
            n == needle@.len(),
            len == hay@.len(),
            n > 0,
            before.len() == hay@.len(),
            mask@.len() == hay@.len(),
            found == exists|s: int|
                0 <= s < start && #[trigger] text::occurs_at(hay@, s, needle@),
            forall|i: int|
                0 <= i < hay@.len() ==> #[trigger] mask@[i] == (before[i] || exists|s: int|
                    0 <= s < start && #[trigger] text::occurs_at(hay@, s, needle@) && s <= i < s
                        + n),
        decreases len - start,
    {
        let ghost m0 = mask@;
        if text::matches_at(hay, start, needle) {
            found = true;
            assert(text::occurs_at(hay@, start as int, needle@));
            let mut j: usize = 0;
            while j < n
                invariant
                    j <= n,
                    start + n <= len,
                    len == hay@.len(),
                    mask@.len() == hay@.len(),
                    m0.len() == hay@.len(),
                    forall|i: int|
                        0 <= i < hay@.len() ==> #[trigger] mask@[i] == (m0[i] || start <= i < start
                            + j),
                decreases n - j,
            {
                mask.set(start + j, true);
                j += 1;
            }
            assert forall|i: int| 0 <= i < hay@.len() implies #[trigger] mask@[i] == (before[i]
                || exists|s: int|
                0 <= s < start + 1 && #[trigger] text::occurs_at(hay@, s, needle@) && s <= i < s
                    + n) by {
                if m0[i] && !before[i] {
                    let s = choose|s: int|
                        0 <= s < start && #[trigger] text::occurs_at(hay@, s, needle@) && s <= i < s
                            + n;
                    assert(text::occurs_at(hay@, s, needle@));
                }
            }
        } else {
            assert forall|i: int| 0 <= i < hay@.len() implies #[trigger] mask@[i] == (before[i]
                || exists|s: int|
                0 <= s < start + 1 && #[trigger] text::occurs_at(hay@, s, needle@) && s <= i < s
                    + n) by {
                assert(m0[i] == mask@[i]);
            }
        }
        start += 1;
    }
    proof {
        if occurs(hay@, needle@) {
            let s = choose|s: int| #[trigger] text::occurs_at(hay@, s, needle@);
            assert(0 <= s < start);
        }
        assert forall|i: int| 0 <= i < hay@.len() implies #[trigger] mask@[i] == (before[i]
            || covered_by(hay@, needle@, i)) by {
            if covered_by(hay@, needle@, i) {
                let s = choose|s: int|
                    #[trigger] text::occurs_at(hay@, s, needle@) && s <= i < s + needle@.len();
                assert(0 <= s < start && text::occurs_at(hay@, s, needle@) && s <= i < s + n);
            }
        }
    }
    found
}

/// The positions of `hay` that the needles mark, if there are needles and every
/// one occurs.
pub fn match_folded(hay: &Vec<char>, needles: &Vec<Vec<char>>) -> (r: Option<Vec<usize>>)
    ensures
        r is Some <==> all_occur(hay@, text::deep(needles@)),
        r matches Some(p) ==> lists_marks(p@, hay@, text::deep(needles@)),
{
    let ghost gn = text::deep(needles@);
    if needles.len() == 0 {
        return None;
    }
    let mut mask: Vec<bool> = Vec::new();
    let mut i: usize = 0;
    while i < hay.len()
        invariant
            i <= hay@.len(),
            mask@.len() == i,
            forall|j: int| 0 <= j < i ==> !#[trigger] mask@[j],
        decreases hay.len() - i,
    {
        mask.push(false);
        i += 1;
    }
    let mut k: usize = 0;
    while k < needles.len()
        invariant
            k <= needles@.len(),
            gn == text::deep(needles@),
            mask@.len() == hay@.len(),
            forall|m: int| 0 <= m < k ==> (#[trigger] gn[m]).len() > 0 && occurs(hay@, gn[m]),
            forall|j: int|
                0 <= j < hay@.len() ==> #[trigger] mask@[j] == (exists|m: int|
                    0 <= m < k && covered_by(hay@, #[trigger] gn[m], j)),
        decreases needles.len() - k,
    {
        assert(gn[k as int] == needles@[k as int]@);
        if needles[k].len() == 0 {
            return None;
        }
        let ghost m0 = mask@;
        if !mark_needle(hay, &needles[k], &mut mask) {
            return None;
        }
        assert forall|j: int| 0 <= j < hay@.len() implies #[trigger] mask@[j] == (exists|m: int|
            0 <= m < k + 1 && covered_by(hay@, #[trigger] gn[m], j)) by {
            if m0[j] {
                let m = choose|m: int| 0 <= m < k && covered_by(hay@, #[trigger] gn[m], j);
                assert(covered_by(hay@, gn[m], j));
            } else if mask@[j] {
                assert(covered_by(hay@, gn[k as int], j));
            }
        }
        k += 1;
    }
    let mut out: Vec<usize> = Vec::new();
    let mut p: usize = 0;
    while p < hay.len()
        invariant
            p <= hay@.len(),
            mask@.len() == hay@.len(),
            indices::ascending(out@),
            forall|j: int| 0 <= j < out@.len() ==> #[trigger] out@[j] < p,
            forall|q: usize| #[trigger] out@.contains(q) <==> q < p && mask@[q as int],
        decreases hay.len() - p,
    {
        let ghost o0 = out@;
        if mask[p] {
            out.push(p);
        }
        assert forall|q: usize| #[trigger] out@.contains(q) <==> q < p + 1 && mask@[q as int] by {
            if out@.contains(q) {
                let j = choose|j: int| 0 <= j < out@.len() && out@[j] == q;
                if j < o0.len() {
                    assert(o0[j] == q);
                    assert(o0.contains(q));
                }
            }
            if q < p + 1 && mask@[q as int] {
                if q == p {
                    assert(out@[out@.len() - 1] == p);
                } else {
                    assert(o0.contains(q));
                    let j = choose|j: int| 0 <= j < o0.len() && o0[j] == q;
                    assert(out@[j] == q);
                }
            }
        }
        p += 1;
    }
    Some(out)
}

/// The needles of a query: its words, case-folded.
pub open spec fn query_needles(query: Seq<char>) -> Seq<Seq<char>> {
    white::words(query).map_values(|w: Seq<char>| folded(w))
}

/// The character positions of `haystack` that `query` matches: every word of the
/// query must occur, whatever the case and the order; `None` where one does not
/// or the query has no word.
pub fn search_match(haystack: &str, query: &str) -> (r: Option<Vec<usize>>)
    ensures
        r is Some <==> all_occur(folded(haystack@), query_needles(query@)),
        r matches Some(p) ==> lists_marks(p@, folded(haystack@), query_needles(query@)),
{
    let hay = fold_chars(&text::chars_of(haystack));
    let terms = white::words_of(&text::chars_of(query));
    let mut needles: Vec<Vec<char>> = Vec::new();
    let mut i: usize = 0;
    let ghost gt = text::deep(terms@);
    while i < terms.len()
        invariant
            i <= terms@.len(),
            gt == text::deep(terms@),
            text::deep(needles@) == gt.take(i as int).map_values(|w: Seq<char>| folded(w)),
        decreases terms.len() - i,
    {
        assert(gt[i as int] == terms@[i as int]@);
        let f = fold_chars(&terms[i]);
        let ghost od = needles@;
        needles.push(f);
        assert(text::deep(needles@) =~= text::deep(od).push(f@));
        i += 1;
        assert(text::deep(needles@) =~= gt.take(i as int).map_values(|w: Seq<char>| folded(w)));
    }
    assert(gt.take(i as int) =~= gt);
    match_folded(&hay, &needles)
}

/// Whether `c` is a control character that markup writes as a reference.
pub open spec fn is_escaped_control(c: char) -> bool {
    let u = c as u32;
    ||| 0x1 <= u <= 0x8
    ||| 0xb <= u <= 0xc
    ||| 0xe <= u <= 0x1f
    ||| 0x7f <= u <= 0x84
    ||| 0x86 <= u <= 0x9f
}

/// `c` as markup text.
pub open spec fn escaped(c: char) -> Seq<char> {
    if c == '&' {
        "&amp;"@
    } else if c == '<' {
        "&lt;"@
    } else if c == '>' {
        "&gt;"@
    } else if c == '\'' {
        "&apos;"@
    } else if c == '"' {
        "&quot;"@
    } else if is_escaped_control(c) {
        let u = c as int;
        "&#x"@ + (if u < 16 {
            seq![numbers::hex_digit(u)]
        } else {
            seq![numbers::hex_digit(u / 16), numbers::hex_digit(u % 16)]
        }) + ";"@
    } else {
        seq![c]
    }
}

/// `c` as markup text.
pub fn escape_char(c: char) -> (r: Vec<char>)
    ensures
        r@ == escaped(c),
{
    let u: u32 = c as u32;
    if c == '&' {
        text::chars_of("&amp;")
    } else if c == '<' {
        text::chars_of("&lt;")
    } else if c == '>' {
        text::chars_of("&gt;")
    } else if c == '\'' {
        text::chars_of("&apos;")
    } else if c == '"' {
        text::chars_of("&quot;")
    } else if (0x1 <= u && u <= 0x8) || (0xb <= u && u <= 0xc) || (0xe <= u && u <= 0x1f) || (0x7f
        <= u && u <= 0x84) || (0x86 <= u && u <= 0x9f) {
        let mut v = text::chars_of("&#x");
        let ghost head = v@;
        if u >= 16 {
            v.push(numbers::write_hex_digit((u / 16) as u8));
            v.push(numbers::write_hex_digit((u % 16) as u8));
            assert(v@ =~= head + seq![
                numbers::hex_digit(u as int / 16),
                numbers::hex_digit(u as int % 16),
            ]);
        } else {
            v.push(numbers::write_hex_digit(u as u8));
            assert(v@ =~= head + seq![numbers::hex_digit(u as int)]);
        }
        text::push_text(&mut v, ";");
        v
    } else {
        let mut v: Vec<char> = Vec::new();
        v.push(c);
        assert(v@ =~= seq![c]);
        v
    }
}

/// How many of `positions` the characters before `i` have used up, taking them in
/// order.
pub open spec fn used_up(positions: Seq<usize>, i: int) -> nat
    decreases i,
{
    if i <= 0 {
        0
    } else {
        let before = used_up(positions, i - 1);
        if before < positions.len() && positions[before as int] == i - 1 {
            before + 1
        } else {
            before
        }
    }
}

/// Whether the character at `i` is highlighted.
pub open spec fn is_lit(positions: Seq<usize>, i: int) -> bool {
    let n = used_up(positions, i);
    0 <= i && n < positions.len() && positions[n as int] == i
}

/// The tag that opens a highlighted run.
pub open spec fn open_tag() -> Seq<char> {
    "<span background=\"#f6d32d\" foreground=\"#000000\" weight=\"bold\">"@
}

/// The markup of the first `n` pieces: each highlighted run in one span.
pub open spec fn markup_prefix(
    pieces: Seq<Seq<char>>,
    positions: Seq<usize>,
    n: int,
) -> Seq<char>
    decreases n,
{
    if n <= 0 {
        Seq::<char>::empty()
    } else {
        let i = n - 1;
        let tag = if is_lit(positions, i) && !is_lit(positions, i - 1) {
            open_tag()
        } else if !is_lit(positions, i) && is_lit(positions, i - 1) {
            "</span>"@
        } else {
            Seq::<char>::empty()
        };
        markup_prefix(pieces, positions, i) + tag + pieces[i]
    }
}

/// The markup of all pieces, with a run that reaches the end closed.
pub open spec fn markup(pieces: Seq<Seq<char>>, positions: Seq<usize>) -> Seq<char> {
    markup_prefix(pieces, positions, pieces.len() as int) + if is_lit(
        positions,
        pieces.len() - 1,
    ) {
        "</span>"@
    } else {
        Seq::<char>::empty()
    }
}

/// The markup of a subject whose characters, already escaped, are `pieces`, with
/// the characters at `positions` highlighted.
pub fn markup_pieces(pieces: &Vec<Vec<char>>, positions: &[usize]) -> (r: String)
    ensures
        r@ == markup(text::deep(pieces@), positions@),
{
    let ghost gp = text::deep(pieces@);
    let mut out: Vec<char> = Vec::new();
    let mut next: usize = 0;
    let mut in_span = false;
    let mut i: usize = 0;
    while i < pieces.len()
        invariant
            i <= pieces@.len(),
            gp == text::deep(pieces@),
            next <= positions@.len(),
            next == used_up(positions@, i as int),
            in_span == is_lit(positions@, i - 1),
            out@ == markup_prefix(gp, positions@, i as int),
        decreases pieces.len() - i,
    {
        assert(gp[i as int] == pieces@[i as int]@);
        let ghost before = out@;
        let lit = next < positions.len() && positions[next] == i;
        if lit {
            next += 1;
        }
        if lit && !in_span {
            text::push_text(
                &mut out,
                "<span background=\"#f6d32d\" foreground=\"#000000\" weight=\"bold\">",
            );
        } else if !lit && in_span {
            text::push_text(&mut out, "</span>");
        } else {
            assert(out@ =~= before + Seq::<char>::empty());
        }
        in_span = lit;
        text::push_all(&mut out, &pieces[i]);
        i += 1;
        assert(out@ =~= markup_prefix(gp, positions@, i as int));
    }
    let ghost before = out@;
    if in_span {
        text::push_text(&mut out, "</span>");
    } else {
        assert(out@ =~= before + Seq::<char>::empty());
    }
    text::string_of(&out)
}

/// The escaped characters of `s`.
pub open spec fn escaped_pieces(s: Seq<char>) -> Seq<Seq<char>> {
    s.map_values(|c: char| escaped(c))
}

/// The markup of `subject` with the characters at `positions` highlighted; every
/// character is escaped.
pub fn highlight_markup(subject: &str, positions: &[usize]) -> (r: String)
    requires
        text::free_of(subject@, '\0'),
    ensures
        r@ == markup(escaped_pieces(subject@), positions@),
{
    let v = text::chars_of(subject);
    let mut pieces: Vec<Vec<char>> = Vec::new();
    let mut i: usize = 0;
    while i < v.len()
        invariant
            i <= v@.len(),
            text::deep(pieces@) == escaped_pieces(v@.take(i as int)),
        decreases v.len() - i,
    {
        let e = escape_char(v[i]);
        let ghost od = pieces@;
        pieces.push(e);
        assert(text::deep(pieces@) =~= text::deep(od).push(e@));
        i += 1;
        assert(text::deep(pieces@) =~= escaped_pieces(v@.take(i as int)));
    }
    assert(v@.take(i as int) =~= v@);
    markup_pieces(&pieces, positions)
}

proof fn lemma_used_up(positions: Seq<usize>, i: int)
    requires
        indices::ascending(positions),
        0 <= i,
    ensures
        used_up(positions, i) <= positions.len(),
        forall|k: int| 0 <= k < used_up(positions, i) ==> #[trigger] positions[k] < i,
        forall|k: int| used_up(positions, i) <= k < positions.len() ==> #[trigger] positions[k] >= i,
    decreases i,
{
    if i > 0 {
        lemma_used_up(positions, i - 1);
        let n = used_up(positions, i - 1);
        assert forall|k: int| used_up(positions, i) <= k < positions.len() implies
            #[trigger] positions[k] >= i by {
            if n < positions.len() && k > n {
                assert(positions[n as int] < positions[k]);
            }
        }
    }
}

/// Given ascending positions, exactly the characters at those positions light up.
pub proof fn law_exactly_positions_light_up(positions: Seq<usize>, i: usize)
    requires
        indices::ascending(positions),
    ensures
        is_lit(positions, i as int) <==> positions.contains(i),
{
    lemma_used_up(positions, i as int);
    if positions.contains(i) {
        let k = choose|k: int| 0 <= k < positions.len() && positions[k] == i;
        let n = used_up(positions, i as int);
        assert(k >= n);
        if k > n {
            assert(positions[n as int] < positions[k]);
        }
    }
}

/// The order of a query's words does not matter: two queries with the same words
/// match the same subjects at the same positions.
pub proof fn law_word_order_is_free(hay: Seq<char>, a: Seq<Seq<char>>, b: Seq<Seq<char>>, i: int)
    requires
        a.len() > 0 <==> b.len() > 0,
        forall|w: Seq<char>| #[trigger] a.contains(w) <==> b.contains(w),
    ensures
        all_occur(hay, a) <==> all_occur(hay, b),
        marked(hay, a, i) <==> marked(hay, b, i),
{
    lemma_same_words(hay, a, b, i);
    lemma_same_words(hay, b, a, i);
}

proof fn lemma_same_words(hay: Seq<char>, a: Seq<Seq<char>>, b: Seq<Seq<char>>, i: int)
    requires
        a.len() > 0 <==> b.len() > 0,
        forall|w: Seq<char>| #[trigger] a.contains(w) <==> b.contains(w),
    ensures
        all_occur(hay, a) ==> all_occur(hay, b),
        marked(hay, a, i) ==> marked(hay, b, i),
{
    if all_occur(hay, a) {
        assert forall|k: int| 0 <= k < b.len() implies (#[trigger] b[k]).len() > 0 && occurs(
            hay,
            b[k],
        ) by {
            assert(b.contains(b[k]));
            assert(a.contains(b[k]));
            let m = choose|m: int| 0 <= m < a.len() && a[m] == b[k];
            assert(a[m].len() > 0);
        }
    }
    if marked(hay, a, i) {
        let k = choose|k: int| 0 <= k < a.len() && covered_by(hay, #[trigger] a[k], i);
        assert(a.contains(a[k]));
        assert(b.contains(a[k]));
        let m = choose|m: int| 0 <= m < b.len() && b[m] == a[k];
        assert(covered_by(hay, b[m], i));
    }
}

/// A query without a word matches nothing.
pub proof fn law_blank_query_matches_nothing(haystack: Seq<char>, query: Seq<char>)
    requires
        white::all_white(query),
    ensures
        !all_occur(folded(haystack), query_needles(query)),
    decreases query.len(),
{
    lemma_white_has_no_words(query);
}

proof fn lemma_white_has_no_words(s: Seq<char>)
    requires
        white::all_white(s),
    ensures
        white::words(s).len() == 0,
    decreases s.len(),
{
    if s.len() > 0 {
        assert(white::is_white(s[s.len() - 1]));
        assert forall|i: int| 0 <= i < s.drop_last().len() implies white::is_white(
            #[trigger] s.drop_last()[i],
        ) by {
            assert(s.drop_last()[i] == s[i]);
        }
        lemma_white_has_no_words(s.drop_last());
    }
}

/// Two texts that differ only in the case of ASCII letters fold to the same.
pub proof fn law_case_does_not_matter(a: Seq<char>, b: Seq<char>)
    requires
        a.len() == b.len(),
        forall|i: int|
            0 <= i < a.len() ==> #[trigger] a[i] == b[i] || (unicode::is_ascii_char(a[i])
                && unicode::is_ascii_char(b[i]) && unicode::ascii_to_lower(a[i])
                == unicode::ascii_to_lower(b[i])),
    ensures
        folded(a) == folded(b),
{
    assert forall|i: int| 0 <= i < a.len() implies folded(a)[i] == #[trigger] folded(b)[i] by {
        assert(a[i] == b[i] || unicode::ascii_to_lower(a[i]) == unicode::ascii_to_lower(b[i]));
    }
    assert(folded(a) =~= folded(b));
}

/// A match needs every word of the query, wherever in the text it stands, and lights
/// up exactly the characters that some word covers: word `w` of the query stands at
/// `start` of the text, up to case.
pub proof fn law_a_match_lights_up_its_words(
    haystack: &str,
    query: &str,
    r: Option<Vec<usize>>,
    w: int,
    start: int,
    i: usize,
)
    requires
        call_ensures(search_match, (haystack, query), r),
        r is Some,
        0 <= w < white::words(query@).len(),
        0 <= start,
        start + white::words(query@)[w].len() <= haystack@.len(),
        forall|k: int|
            0 <= k < white::words(query@)[w].len() ==> folded_char(haystack@[start + k])
                == folded_char(#[trigger] white::words(query@)[w][k]),
        start <= i < start + white::words(query@)[w].len(),
    ensures
        r->0@.contains(i),
{
    let hay = folded(haystack@);
    let needles = query_needles(query@);
    let word = white::words(query@)[w];
    let n = needles[w];
    assert(n == folded(word));
    assert(hay.subrange(start, start + n.len()) =~= n) by {
        assert forall|k: int| 0 <= k < n.len() implies hay.subrange(start, start + n.len())[k]
            == n[k] by {
            assert(word[k] == word[k]);
            assert(hay[start + k] == folded_char(haystack@[start + k]));
        }
    }
    assert(text::occurs_at(hay, start, n));
    assert(covered_by(hay, needles[w], i as int));
    assert(marked(hay, needles, i as int));
}

/// A text in which some word of the query stands nowhere is no match, and neither is
/// any text for a query without words; all others are.
pub proof fn law_every_word_is_needed(haystack: &str, query: &str, r: Option<Vec<usize>>)
    requires
        call_ensures(search_match, (haystack, query), r),
    ensures
        r is Some ==> white::words(query@).len() > 0 && forall|w: int|
            0 <= w < white::words(query@).len() ==> stands_in(
                haystack@,
                #[trigger] white::words(query@)[w],
            ),
        white::words(query@).len() > 0 && (forall|w: int|
            0 <= w < white::words(query@).len() ==> (#[trigger] white::words(query@)[w]).len() > 0
                && stands_in(haystack@, white::words(query@)[w])) ==> r is Some,
{
    let hay = folded(haystack@);
    let needles = query_needles(query@);
    let words = white::words(query@);
    if r is Some {
        assert forall|w: int| 0 <= w < words.len() implies stands_in(
            haystack@,
            #[trigger] words[w],
        ) by {
            assert(occurs(hay, needles[w]));
            let s = choose|s: int| #[trigger] text::occurs_at(hay, s, needles[w]);
            assert(stands_at(haystack@, words[w], s)) by {
                assert forall|k: int| 0 <= k < words[w].len() implies folded_char(
                    haystack@[s + k],
                ) == folded_char(#[trigger] words[w][k]) by {
                    assert(hay.subrange(s, s + needles[w].len())[k] == needles[w][k]);
                    assert(hay[s + k] == folded_char(haystack@[s + k]));
                }
            }
        }
    }
    if words.len() > 0 && (forall|w: int|
        0 <= w < words.len() ==> (#[trigger] words[w]).len() > 0 && stands_in(haystack@, words[w])) {
        assert forall|k: int| 0 <= k < needles.len() implies (#[trigger] needles[k]).len() > 0
            && occurs(hay, needles[k]) by {
            assert(words[k].len() > 0 && stands_in(haystack@, words[k]));
            let s = choose|s: int| stands_at(haystack@, words[k], s);
            assert(hay.subrange(s, s + needles[k].len()) =~= needles[k]) by {
                assert forall|j: int| 0 <= j < needles[k].len() implies hay.subrange(
                    s,
                    s + needles[k].len(),
                )[j] == needles[k][j] by {
                    assert(words[k][j] == words[k][j]);
                    assert(hay[s + j] == folded_char(haystack@[s + j]));
                }
            }
            assert(text::occurs_at(hay, s, needles[k]));
        }
    }
}

/// Whether `word` stands at `start` of `s`, up to case.
pub open spec fn stands_at(s: Seq<char>, word: Seq<char>, start: int) -> bool {
    0 <= start && start + word.len() <= s.len() && forall|k: int|
        0 <= k < word.len() ==> folded_char(s[start + k]) == folded_char(#[trigger] word[k])
}

/// Whether `word` stands anywhere in `s`, up to case.
pub open spec fn stands_in(s: Seq<char>, word: Seq<char>) -> bool {
    exists|start: int| stands_at(s, word, start)
}

/// Pieces one after the other.
pub open spec fn run(pieces: Seq<Seq<char>>, from: int, to: int) -> Seq<char>
    decreases to - from,
{
    if to <= from {
        Seq::<char>::empty()
    } else {
        run(pieces, from, to - 1) + pieces[to - 1]
    }
}

proof fn lemma_steady_run(pieces: Seq<Seq<char>>, positions: Seq<usize>, a: int, b: int)
    requires
        0 <= a <= b <= pieces.len(),
        forall|i: int| a <= i < b ==> is_lit(positions, i) == #[trigger] is_lit(positions, i - 1),
    ensures
        markup_prefix(pieces, positions, b) == markup_prefix(pieces, positions, a) + run(
            pieces,
            a,
            b,
        ),
    decreases b - a,
{
    if a < b {
        lemma_steady_run(pieces, positions, a, b - 1);
        let i = b - 1;
        assert(is_lit(positions, i) == is_lit(positions, i - 1));
        assert(markup_prefix(pieces, positions, b) =~= markup_prefix(pieces, positions, a) + run(
            pieces,
            a,
            b,
        ));
    } else {
        assert(run(pieces, a, b) =~= Seq::<char>::empty());
        assert(markup_prefix(pieces, positions, a) + run(pieces, a, b) =~= markup_prefix(
            pieces,
            positions,
            a,
        ));
    }
}

/// A text in which nothing is lit is shown as it is; and a stretch `a..b` that is lit
/// as a whole, between characters that are not, is shown between one opening and one
/// closing tag, with nothing lost.
pub proof fn law_lit_stretches_are_wrapped(
    pieces: Seq<Seq<char>>,
    positions: Seq<usize>,
    a: int,
    b: int,
)
    requires
        indices::ascending(positions),
        0 <= a < b <= pieces.len() <= usize::MAX,
        forall|i: int| 0 <= i < pieces.len() ==> (#[trigger] positions.contains(i as usize) <==> a
            <= i < b),
    ensures
        markup(pieces, positions) == run(pieces, 0, a)
            + "<span background=\"#f6d32d\" foreground=\"#000000\" weight=\"bold\">"@ + run(
            pieces,
            a,
            b,
        ) + "</span>"@ + run(pieces, b, pieces.len() as int),
{
    let n = pieces.len() as int;
    let tag = "<span background=\"#f6d32d\" foreground=\"#000000\" weight=\"bold\">"@;
    assert forall|i: int| 0 <= i < n implies (#[trigger] is_lit(positions, i) <==> a <= i < b) by {
        law_exactly_positions_light_up(positions, i as usize);
        assert(positions.contains(i as usize) <==> a <= i < b);
    }
    assert(!is_lit(positions, -1));
    assert forall|i: int| 0 <= i < a implies is_lit(positions, i) == #[trigger] is_lit(
        positions,
        i - 1,
    ) by {
        if i > 0 {
            assert(!is_lit(positions, i - 1));
        }
        assert(!is_lit(positions, i));
    }
    lemma_steady_run(pieces, positions, 0, a);
    let first = markup_prefix(pieces, positions, a + 1);
    assert(is_lit(positions, a));
    assert(!is_lit(positions, a - 1)) by {
        if a > 0 {
            assert(!is_lit(positions, a - 1));
        }
    }
    assert(first =~= markup_prefix(pieces, positions, a) + tag + pieces[a]);
    assert forall|i: int| a + 1 <= i < b implies is_lit(positions, i) == #[trigger] is_lit(
        positions,
        i - 1,
    ) by {
        assert(is_lit(positions, i) && is_lit(positions, i - 1));
    }
    lemma_steady_run(pieces, positions, a + 1, b);
    lemma_run_front(pieces, a, b);
    let lit = markup_prefix(pieces, positions, b);
    assert(lit =~= run(pieces, 0, a) + tag + run(pieces, a, b));
    if b < n {
        assert(!is_lit(positions, b) && is_lit(positions, b - 1));
        let next = markup_prefix(pieces, positions, b + 1);
        assert(next =~= lit + "</span>"@ + pieces[b]);
        assert forall|i: int| b + 1 <= i < n implies is_lit(positions, i) == #[trigger] is_lit(
            positions,
            i - 1,
        ) by {
            assert(!is_lit(positions, i) && !is_lit(positions, i - 1));
        }
        lemma_steady_run(pieces, positions, b + 1, n);
        lemma_run_front(pieces, b, n);
        assert(!is_lit(positions, n - 1));
        assert(markup(pieces, positions) =~= lit + "</span>"@ + run(pieces, b, n));
    } else {
        assert(is_lit(positions, n - 1));
        assert(run(pieces, b, n) =~= Seq::<char>::empty());
        assert(markup(pieces, positions) =~= lit + "</span>"@ + run(pieces, b, n));
    }
}

proof fn lemma_run_front(pieces: Seq<Seq<char>>, a: int, b: int)
    requires
        a < b,
    ensures
        run(pieces, a, b) == pieces[a] + run(pieces, a + 1, b),
    decreases b - a,
{
    if a + 1 < b {
        lemma_run_front(pieces, a, b - 1);
        assert(run(pieces, a, b) =~= pieces[a] + run(pieces, a + 1, b));
    } else {
        assert(run(pieces, a, a) =~= Seq::<char>::empty());
        assert(run(pieces, a + 1, b) =~= Seq::<char>::empty());
        assert(run(pieces, a, b) =~= pieces[a] + run(pieces, a + 1, b));
    }
}

/// What is escaped cannot be taken for markup: no angle bracket and no quote is left,
/// an ampersand only in front, and of the characters that markup gives a meaning no
/// two are shown alike.
pub proof fn law_escaped_text_is_no_markup(c: char, other: char, k: int)
    requires
        0 <= k < escaped(c).len(),
    ensures
        escaped(c)[k] != '<' && escaped(c)[k] != '>' && escaped(c)[k] != '\'' && escaped(c)[k]
            != '"',
        escaped(c)[k] == '&' ==> k == 0,
        !is_escaped_control(c) && !is_escaped_control(other) && escaped(c) == escaped(other) ==> c
            == other,
{
    reveal_strlit("&amp;");
    reveal_strlit("&lt;");
    reveal_strlit("&gt;");
    reveal_strlit("&apos;");
    reveal_strlit("&quot;");
    reveal_strlit("&#x");
    reveal_strlit(";");
    if !is_escaped_control(c) && !is_escaped_control(other) && escaped(c) == escaped(other) {
        assert(escaped(c).len() == escaped(other).len());
        if escaped(c).len() > 1 {
            assert(escaped(c)[1] == escaped(other)[1]);
            assert(escaped(c)[2] == escaped(other)[2]);
        } else {
            assert(escaped(c)[0] == escaped(other)[0]);
        }
    }
}

/// A control character is spelled out in hexadecimal, but for the tab, the ends of
/// lines and the next-line character; every other character that markup gives no
/// meaning stays.
pub proof fn law_control_characters_are_spelled_out(c: char)
    ensures
        1 <= c as int <= 0x9f && (c as int <= 0x1f || c as int >= 0x7f) && c != '\t' && c != '\n'
            && c != '\r' && c as int != 0x85 ==> escaped(c).len() > 3 && escaped(c)[0] == '&'
            && escaped(c)[1] == '#' && escaped(c)[2] == 'x' && escaped(c).last() == ';',
        c as int >= 0xa0 || c == '\t' || c == '\n' || c == '\r' || c as int == 0x85 ==> escaped(c)
            == seq![c],
        0x20 <= c as int <= 0x7e && c != '&' && c != '<' && c != '>' && c != '\'' && c != '"'
            ==> escaped(c) == seq![c],
{
    reveal_strlit("&#x");
    reveal_strlit(";");
}

} // verus!
