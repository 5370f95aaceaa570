//! Laws of the diff gutter: a button is drawn exactly where a click on it does
//! something, and splitting a hunk leaves every line's numbers as they were.
use crate::diff_cues;
use crate::diff_cues::FilePlace;
use crate::indices;
use crate::linenums;
use crate::model::{FileChange, HunkInfo};
use crate::numbers;
use crate::text;
use crate::white;
use vstd::prelude::*;

verus! {

/// A line that begins with a space is context.
pub proof fn lemma_space_is_context(l: Seq<char>)
    ensures
        diff_cues::context_line(l) <==> l.len() > 0 && l[0] == ' ',
{
    reveal_strlit("@@");
    reveal_strlit("diff ");
    reveal_strlit("--- ");
    reveal_strlit("+++ ");
    reveal_strlit("index ");
    if l.len() > 0 && l[0] == ' ' {
        if linenums::hunk_header(l) {
            assert("@@"@[0] == l.subrange(0, 2)[0]);
        }
        if "diff "@.is_prefix_of(l) {
            assert("diff "@[0] == l.subrange(0, 5)[0]);
        }
        if "--- "@.is_prefix_of(l) {
            assert("--- "@[0] == l.subrange(0, 4)[0]);
        }
        if "+++ "@.is_prefix_of(l) {
            assert("+++ "@[0] == l.subrange(0, 4)[0]);
        }
        if "index "@.is_prefix_of(l) {
            assert("index "@[0] == l.subrange(0, 6)[0]);
        }
    }
}

/// A change line begins neither a hunk nor a file.
proof fn lemma_change_no_boundary(l: Seq<char>)
    ensures
        diff_cues::change_line(l) || diff_cues::context_line(l) ==> !diff_cues::boundary(l),
{
    diff_cues::lemma_sep_is_meta(l);
}

proof fn lemma_groups_grow(ls: Seq<Seq<char>>, from: int, i: int, j: int)
    requires
        from <= i <= j,
    ensures
        diff_cues::groups(ls, from, i) <= diff_cues::groups(ls, from, j),
    decreases j - i,
{
    if i < j {
        lemma_groups_grow(ls, from, i, j - 1);
    }
}

/// Groups are counted only where change lines stand.
proof fn lemma_groups_need_change(ls: Seq<Seq<char>>, from: int, i: int, j: int) -> (at: int)
    requires
        from <= i <= j,
        diff_cues::groups(ls, from, i) < diff_cues::groups(ls, from, j),
    ensures
        i <= at < j,
        diff_cues::change_line(ls[at]),
    decreases j - i,
{
    if diff_cues::groups(ls, from, i) < diff_cues::groups(ls, from, j - 1) {
        lemma_groups_need_change(ls, from, i, j - 1)
    } else {
        j - 1
    }
}

/// A change line makes a group, or belongs to one that is open already.
proof fn lemma_change_makes_group(ls: Seq<Seq<char>>, from: int, i: int, at: int)
    requires
        from <= i <= at,
        !diff_cues::in_group(ls, from, i),
        diff_cues::change_line(ls[at]),
    ensures
        diff_cues::groups(ls, from, at + 1) > diff_cues::groups(ls, from, i),
    decreases at - i,
{
    if diff_cues::in_group(ls, from, at) {
        lemma_open_group_counted(ls, from, i, at);
    } else {
        lemma_groups_grow(ls, from, i, at);
    }
}

proof fn lemma_open_group_counted(ls: Seq<Seq<char>>, from: int, i: int, at: int)
    requires
        from <= i <= at,
        !diff_cues::in_group(ls, from, i),
        diff_cues::in_group(ls, from, at),
    ensures
        diff_cues::groups(ls, from, at) > diff_cues::groups(ls, from, i),
    decreases at - i,
{
    if i < at {
        if diff_cues::in_group(ls, from, at - 1) {
            lemma_open_group_counted(ls, from, i, at - 1);
        } else {
            lemma_groups_grow(ls, from, i, at - 1);
        }
    }
}

/// Every point at which a hunk can be split carries the split button.
pub proof fn law_split_is_offered(ls: Seq<Seq<char>>, files: Seq<FilePlace>, line: int)
    requires
        diff_cues::can_split(ls, files, line),
    ensures
        diff_cues::expand_kind(ls, files, false, line) == Some(diff_cues::CueKind::Split),
{
    let h = diff_cues::last_header(ls, line);
    let from = h + 1;
    let end = diff_cues::section_end(ls, from);
    lemma_space_is_context(ls[line]);
    diff_cues::lemma_last_header(ls, line);
    diff_cues::lemma_section_end(ls, from);
    let a = lemma_groups_need_change(ls, from, from, line);
    assert(diff_cues::change_line(ls[a]));
    assert(forall|m: int| a < m < line ==> !diff_cues::boundary(#[trigger] ls[m]));
    assert(diff_cues::change_above(ls, line));
    let b = lemma_groups_need_change(ls, from, line, end);
    assert(diff_cues::change_line(ls[b]));
    assert(b != line);
    assert(forall|m: int| line < m < b ==> !diff_cues::boundary(#[trigger] ls[m]));
    assert(diff_cues::change_below(ls, line));
    lemma_change_no_boundary(ls[line]);
}

/// A split button under the header of a known hunk stands where a split works.
pub proof fn law_offered_split_works(ls: Seq<Seq<char>>, files: Seq<FilePlace>, line: int)
    requires
        0 <= line < ls.len(),
        diff_cues::expand_kind(ls, files, false, line) == Some(diff_cues::CueKind::Split),
        diff_cues::last_header(ls, line) >= 0,
        diff_cues::headers_before(ls, line) <= diff_cues::flat_hunks(files).len(),
        forall|m: int|
            diff_cues::last_header(ls, line) < m < line ==> !diff_cues::file_sep(#[trigger] ls[m]),
    ensures
        diff_cues::can_split(ls, files, line),
{
    let h = diff_cues::last_header(ls, line);
    let from = h + 1;
    let end = diff_cues::section_end(ls, from);
    assert(!linenums::hunk_header(ls[line]));
    assert(diff_cues::separates_groups(ls, line));
    lemma_space_is_context(ls[line]);
    lemma_change_no_boundary(ls[line]);
    diff_cues::lemma_last_header(ls, line);
    diff_cues::lemma_section_end(ls, from);
    assert(line < end) by {
        if end <= line {
            assert(diff_cues::boundary(ls[end]));
            if end < line {
                assert(!linenums::hunk_header(ls[end]));
                assert(!diff_cues::file_sep(ls[end]));
            }
        }
    }
    let a = choose|j: int|
        #![trigger diff_cues::change_line(ls[j])]
        0 <= j < line && diff_cues::change_line(ls[j]) && forall|m: int|
            j < m < line ==> !diff_cues::boundary(#[trigger] ls[m]);
    assert(diff_cues::change_line(ls[a]));
    lemma_change_no_boundary(ls[a]);
    assert(a > h) by {
        if a < h {
            assert(!diff_cues::boundary(ls[h]));
        }
    }
    lemma_change_makes_group(ls, from, from, a);
    lemma_groups_grow(ls, from, a + 1, line);
    let b = choose|j: int|
        #![trigger diff_cues::change_line(ls[j])]
        line < j < ls.len() && diff_cues::change_line(ls[j]) && forall|m: int|
            line < m < j ==> !diff_cues::boundary(#[trigger] ls[m]);
    assert(diff_cues::change_line(ls[b]));
    lemma_change_no_boundary(ls[b]);
    assert(b < end) by {
        if end <= b {
            assert(diff_cues::boundary(ls[end]));
            assert(end > line);
            if end < b {
                assert(!diff_cues::boundary(ls[end]));
            }
        }
    }
    assert(!diff_cues::in_group(ls, from, line + 1));
    lemma_change_makes_group(ls, from, line + 1, b);
    lemma_groups_grow(ls, from, line, line + 1);
    lemma_groups_grow(ls, from, b + 1, end);
}

/// A button on a hunk header or a file separator always has its target: a click
/// on it finds the hunk or the file that the button was drawn for.
pub proof fn law_buttons_have_targets(
    ls: Seq<Seq<char>>,
    files: Seq<FilePlace>,
    changes: Seq<FileChange>,
    read_only: bool,
    line: int,
)
    requires
        0 <= line < ls.len(),
    ensures
        linenums::hunk_header(ls[line]) && (diff_cues::expand_kind(ls, files, read_only, line)
            is Some || diff_cues::revert_kind(ls, files, changes, read_only, line) is Some)
            ==> diff_cues::hunk_at(ls, files, line) is Some,
        diff_cues::revert_kind(ls, files, changes, read_only, line) == Some(
            diff_cues::CueKind::RevertFile,
        ) ==> diff_cues::file_at(ls, files, line) is Some,
{
}

/// A read-only diff offers neither reverting nor splitting.
pub proof fn law_read_only_offers_no_edit(
    ls: Seq<Seq<char>>,
    files: Seq<FilePlace>,
    changes: Seq<FileChange>,
    line: int,
)
    ensures
        diff_cues::revert_kind(ls, files, changes, true, line) is None,
        diff_cues::expand_kind(ls, files, true, line) != Some(diff_cues::CueKind::Split),
{
}

proof fn lemma_no_white(s: Seq<char>)
    requires
        forall|i: int| 0 <= i < s.len() ==> !white::is_white(#[trigger] s[i]),
    ensures
        s.len() > 0 ==> white::words(s) == seq![s],
        s.len() == 0 ==> white::words(s) == Seq::<Seq<char>>::empty(),
    decreases s.len(),
{
    if s.len() > 0 {
        let t = s.drop_last();
        lemma_no_white(t);
        assert(!white::is_white(s[s.len() - 1]));
        if t.len() > 0 {
            assert(t.last() == s[s.len() - 2]);
            assert(seq![t].drop_last() =~= Seq::<Seq<char>>::empty());
            assert(white::words(s) =~= seq![t.push(s.last())]);
            assert(t.push(s.last()) =~= s);
        } else {
            assert(white::words(s) =~= seq![seq![s.last()]]);
            assert(seq![s.last()] =~= s);
        }
    }
}

/// The words of two texts set side by side, where white space stands between.
proof fn lemma_words_concat(x: Seq<char>, y: Seq<char>)
    requires
        x.len() == 0 || white::is_white(x.last()) || y.len() == 0 || white::is_white(y[0]),
    ensures
        white::words(x + y) == white::words(x) + white::words(y),
    decreases y.len(),
{
    if y.len() == 0 {
        assert(x + y =~= x);
        assert(white::words(x) + white::words(y) =~= white::words(x));
    } else {
        let t = y.drop_last();
        let s = x + y;
        assert(s.drop_last() =~= x + t);
        assert(s.last() == y.last());
        lemma_words_concat(x, t);
        if !white::is_white(y.last()) {
            if t.len() > 0 && !white::is_white(t.last()) {
                white::lemma_words_nonempty(t);
                assert((x + t).last() == t.last());
                assert(white::words(s) =~= white::words(x) + white::words(y));
            } else {
                assert((x + t).len() == 0 || white::is_white((x + t).last())) by {
                    if t.len() > 0 {
                        assert((x + t).last() == t.last());
                    } else if x.len() > 0 {
                        assert((x + t).last() == x.last());
                    }
                }
                assert(white::words(s) =~= white::words(x) + white::words(y));
            }
        }
    }
}

proof fn lemma_decimal_plain(n: nat)
    ensures
        forall|i: int|
            0 <= i < numbers::decimal(n).len() ==> !white::is_white(
                #[trigger] numbers::decimal(n)[i],
            ) && numbers::decimal(n)[i] != ',',
        text::free_of(numbers::decimal(n), ','),
{
    numbers::lemma_decimal_reads_back(n);
    assert forall|i: int| 0 <= i < numbers::decimal(n).len() implies !white::is_white(
        #[trigger] numbers::decimal(n)[i],
    ) && numbers::decimal(n)[i] != ',' by {
        assert(numbers::is_digit(numbers::decimal(n)[i]));
    }
}

/// One `-a,b` or `+c,d` part of a header: a word that names its start.
proof fn lemma_header_part(sign: char, a: nat, b: nat)
    requires
        sign == '-' || sign == '+',
        a <= u32::MAX,
    ensures
        ({
            let part = seq![sign] + numbers::decimal(a) + seq![','] + numbers::decimal(b);
            white::words(seq![' '] + part) == seq![part] && linenums::signed_start(part, sign)
                == Some(a)
        }),
{
    let da = numbers::decimal(a);
    let db = numbers::decimal(b);
    let part = seq![sign] + da + seq![','] + db;
    lemma_decimal_plain(a);
    lemma_decimal_plain(b);
    assert forall|i: int| 0 <= i < part.len() implies !white::is_white(#[trigger] part[i]) by {
        if 1 <= i < 1 + da.len() {
            assert(part[i] == da[i - 1]);
        } else if i > 1 + da.len() {
            assert(part[i] == db[i - 2 - da.len()]);
        }
    }
    lemma_no_white(part);
    reveal_with_fuel(white::words, 2);
    assert(white::words(seq![' ']) =~= Seq::<Seq<char>>::empty());
    lemma_words_concat(seq![' '], part);
    assert(white::words(seq![' '] + part) =~= seq![part]);
    assert(part.skip(1) =~= da.push(',') + db);
    text::lemma_split_append(da, db, ',');
    text::lemma_split_free(da, ',');
    assert(text::split_on(part.skip(1), ',')[0] == da);
    numbers::lemma_parse_decimal(a, u32::MAX as nat);
}

/// A written hunk header, with any heading behind it, names the starts it was
/// written with.
pub proof fn law_header_reads_back(a: nat, b: nat, c: nat, d: nat, tail: Seq<char>)
    requires
        a <= u32::MAX,
        c <= u32::MAX,
    ensures
        linenums::hunk_starts(diff_cues::header_text(a, b, c, d) + tail) == Some((a, c)),
{
    reveal_strlit("@@ -");
    reveal_strlit(",");
    reveal_strlit(" +");
    reveal_strlit(" @@");
    reveal_strlit("@@");
    let l = diff_cues::header_text(a, b, c, d) + tail;
    let p1 = seq!['-'] + numbers::decimal(a) + seq![','] + numbers::decimal(b);
    let p2 = seq!['+'] + numbers::decimal(c) + seq![','] + numbers::decimal(d);
    let rest = " @@"@ + tail;
    assert(l.skip(2) =~= (seq![' '] + p1) + ((seq![' '] + p2) + rest));
    assert(l.subrange(0, 2) =~= "@@"@);
    lemma_header_part('-', a, b);
    lemma_header_part('+', c, d);
    lemma_words_concat(seq![' '] + p2, rest);
    lemma_words_concat(seq![' '] + p1, (seq![' '] + p2) + rest);
    let ws = white::words(l.skip(2));
    assert(ws =~= seq![p1] + (seq![p2] + white::words(rest)));
    assert(ws[0] == p1 && ws[1] == p2);
}

/// Splitting a hunk changes no line number: above the cut every line keeps its
/// place and numbers, from the cut on every line keeps its numbers one line down.
pub proof fn law_split_keeps_numbers(
    ls: Seq<Seq<char>>,
    files: Seq<FilePlace>,
    line: int,
    i: int,
)
    requires
        diff_cues::can_split(ls, files, line),
        linenums::counters_fit(ls),
        0 <= i < ls.len(),
        i != diff_cues::last_header(ls, line),
    ensures
        i < line ==> diff_cues::split_lines(ls, line)[i] == ls[i] && linenums::line_number(
            diff_cues::split_lines(ls, line),
            i,
        ) == linenums::line_number(ls, i),
        i >= line ==> diff_cues::split_lines(ls, line)[i + 1] == ls[i] && linenums::line_number(
            diff_cues::split_lines(ls, line),
            i + 1,
        ) == linenums::line_number(ls, i),
{
    lemma_split_counters(ls, files, line, i);
}

proof fn lemma_split_counters(ls: Seq<Seq<char>>, files: Seq<FilePlace>, line: int, i: int)
    requires
        diff_cues::can_split(ls, files, line),
        linenums::counters_fit(ls),
        0 <= i <= ls.len(),
    ensures
        i <= line ==> linenums::counters(diff_cues::split_lines(ls, line), i)
            == linenums::counters(ls, i),
        i >= line ==> linenums::counters(diff_cues::split_lines(ls, line), i + 1)
            == linenums::counters(ls, i),
    decreases i,
{
    let out = diff_cues::split_lines(ls, line);
    let h = diff_cues::last_header(ls, line);
    let end = diff_cues::section_end(ls, h + 1);
    diff_cues::lemma_last_header(ls, line);
    assert(linenums::counters(ls, h + 1).0 <= u32::MAX && linenums::counters(ls, h + 1).1
        <= u32::MAX);
    assert(linenums::counters(ls, line).0 <= u32::MAX && linenums::counters(ls, line).1
        <= u32::MAX);
    if i > 0 {
        lemma_split_counters(ls, files, line, i - 1);
        if i > line {
            assert(out[i] == ls[i - 1]);
        } else if i - 1 == h {
            let c = linenums::counters(ls, h + 1);
            law_header_reads_back(
                c.0,
                linenums::old_lines(ls, h + 1, line),
                c.1,
                linenums::new_lines(ls, h + 1, line),
                diff_cues::heading(ls[h]),
            );
        } else {
            assert(out[i - 1] == ls[i - 1]);
        }
    }
    if i == line {
        let c = linenums::counters(ls, line);
        let b = linenums::old_lines(ls, line, end);
        let d = linenums::new_lines(ls, line, end);
        law_header_reads_back(c.0, b, c.1, d, Seq::<char>::empty());
        assert(diff_cues::header_text(c.0, b, c.1, d) + Seq::<char>::empty()
            =~= diff_cues::header_text(c.0, b, c.1, d));
        assert(out[line] == diff_cues::header_text(c.0, b, c.1, d));
    }
}

/// Lines that stand `shift` further down count towards the same sides.
proof fn lemma_same_sides(
    ls: Seq<Seq<char>>,
    out: Seq<Seq<char>>,
    from: int,
    to: int,
    shift: int,
)
    requires
        forall|i: int| from <= i < to ==> out[i + shift] == #[trigger] ls[i],
    ensures
        linenums::old_lines(out, from + shift, to + shift) == linenums::old_lines(ls, from, to),
        linenums::new_lines(out, from + shift, to + shift) == linenums::new_lines(ls, from, to),
    decreases to - from,
{
    if from < to {
        lemma_same_sides(ls, out, from, to - 1, shift);
        assert(out[to - 1 + shift] == ls[to - 1]);
    }
}

/// A section ends at the first boundary.
proof fn lemma_section_ends_at(ls: Seq<Seq<char>>, from: int, end: int)
    requires
        0 <= from <= end <= ls.len(),
        forall|i: int| from <= i < end ==> !diff_cues::boundary(#[trigger] ls[i]),
        end < ls.len() ==> diff_cues::boundary(ls[end]),
    ensures
        diff_cues::section_end(ls, from) == end,
{
    diff_cues::lemma_section_end(ls, from);
    let s = diff_cues::section_end(ls, from);
    if s < end {
        assert(diff_cues::boundary(ls[s]));
    } else if end < s {
        assert(!diff_cues::boundary(ls[end]));
    }
}

/// What is found lies within the text.
proof fn lemma_found_within(s: Seq<char>, p: Seq<char>, from: int)
    ensures
        text::find_from(s, p, from) matches Some(i) ==> 0 <= i && i + p.len() <= s.len(),
    decreases s.len() + 1 - from,
{
    if 0 <= from && from + p.len() <= s.len() && !text::occurs_at(s, from, p) {
        lemma_found_within(s, p, from + 1);
    }
}

/// A heading stands on the line of its header.
proof fn lemma_heading_free(l: Seq<char>)
    requires
        text::free_of(l, '\n'),
    ensures
        text::free_of(diff_cues::heading(l), '\n'),
{
    reveal_strlit("@@");
    lemma_found_within(l, "@@"@, 2);
    let tail = diff_cues::heading(l);
    if tail.contains('\n') {
        let i = choose|i: int| 0 <= i < tail.len() && tail[i] == '\n';
        assert(tail[i] == l[i + l.len() - tail.len()]);
    }
}

/// A written header is a hunk header on one line, with the heading that was put
/// behind it.
proof fn lemma_header_shape(a: nat, b: nat, c: nat, d: nat, tail: Seq<char>)
    requires
        text::free_of(tail, '\n'),
    ensures
        ({
            let l = diff_cues::header_text(a, b, c, d) + tail;
            linenums::hunk_header(l) && diff_cues::heading(l) == tail && text::free_of(l, '\n')
        }),
{
    reveal_strlit("@@ -");
    reveal_strlit(",");
    reveal_strlit(" +");
    reveal_strlit(" @@");
    reveal_strlit("@@");
    let head = diff_cues::header_text(a, b, c, d);
    let l = head + tail;
    let n = head.len() as int;
    let (da, db) = (numbers::decimal(a), numbers::decimal(b));
    let (dc, dd) = (numbers::decimal(c), numbers::decimal(d));
    let p1: int = 4;
    let p2 = p1 + da.len() + 1;
    let p3 = p2 + db.len() + 2;
    let p4 = p3 + dc.len() + 1;
    numbers::lemma_decimal_reads_back(a);
    numbers::lemma_decimal_reads_back(b);
    numbers::lemma_decimal_reads_back(c);
    numbers::lemma_decimal_reads_back(d);
    assert(n == p4 + dd.len() + 3);
    assert forall|i: int| 0 <= i < n implies l[i] != '\n' && (2 <= i < n - 2 ==> l[i] != '@') by {
        if p1 <= i < p1 + da.len() {
            assert(l[i] == da[i - p1]);
            assert(numbers::is_digit(da[i - p1]));
        } else if p2 <= i < p2 + db.len() {
            assert(l[i] == db[i - p2]);
            assert(numbers::is_digit(db[i - p2]));
        } else if p3 <= i < p3 + dc.len() {
            assert(l[i] == dc[i - p3]);
            assert(numbers::is_digit(dc[i - p3]));
        } else if p4 <= i < p4 + dd.len() {
            assert(l[i] == dd[i - p4]);
            assert(numbers::is_digit(dd[i - p4]));
        }
    }
    assert(text::free_of(l, '\n')) by {
        if l.contains('\n') {
            let i = choose|i: int| 0 <= i < l.len() && l[i] == '\n';
            assert(i >= n);
            assert(tail[i - n] == '\n');
        }
    }
    assert(l.subrange(0, 2) =~= "@@"@);
    assert(l.subrange(n - 2, n) =~= "@@"@);
    assert forall|i: int| 2 <= i < n - 2 implies !#[trigger] text::occurs_at(l, i, "@@"@) by {
        if text::occurs_at(l, i, "@@"@) {
            assert(l.subrange(i, i + 2)[0] == '@');
        }
    }
    text::lemma_find_first(l, "@@"@, 2, n - 2);
    assert(l.skip(n) =~= tail);
}

/// The lines of the text that a split gives are the split lines.
proof fn lemma_split_text(text: Seq<char>, files: Seq<FilePlace>, line: int)
    requires
        diff_cues::can_split(text::lines(text), files, line),
    ensures
        text::lines(text::join_with(diff_cues::split_lines(text::lines(text), line), '\n'))
            == diff_cues::split_lines(text::lines(text), line),
        linenums::hunk_header(
            diff_cues::split_lines(text::lines(text), line)[diff_cues::last_header(
                text::lines(text),
                line,
            )],
        ),
        linenums::hunk_header(diff_cues::split_lines(text::lines(text), line)[line]),
{
    let ls = text::lines(text);
    let out = diff_cues::split_lines(ls, line);
    let h = diff_cues::last_header(ls, line);
    let end = diff_cues::section_end(ls, h + 1);
    let tail = diff_cues::heading(ls[h]);
    diff_cues::lemma_last_header(ls, line);
    text::lemma_split_pieces_free(text, '\n');
    lemma_heading_free(ls[h]);
    let c1 = linenums::counters(ls, h + 1);
    let c2 = linenums::counters(ls, line);
    let none = Seq::<char>::empty();
    let bare = diff_cues::header_text(
        c2.0,
        linenums::old_lines(ls, line, end),
        c2.1,
        linenums::new_lines(ls, line, end),
    );
    lemma_header_shape(
        c1.0,
        linenums::old_lines(ls, h + 1, line),
        c1.1,
        linenums::new_lines(ls, h + 1, line),
        tail,
    );
    lemma_header_shape(
        c2.0,
        linenums::old_lines(ls, line, end),
        c2.1,
        linenums::new_lines(ls, line, end),
        none,
    );
    assert(bare + none =~= bare);
    assert(out[line] == bare);
    assert forall|i: int| 0 <= i < out.len() implies text::free_of(#[trigger] out[i], '\n') by {
        if i < line && i != h {
            assert(out[i] == ls[i]);
        } else if i > line {
            assert(out[i] == ls[i - 1]);
        }
    }
    text::lemma_split_join(out, '\n');
}

/// What a split makes of the diff as a whole. One line is new, a bare hunk header at
/// the cut, without numbers; all others are the old ones with the numbers they had,
/// but for the header of the hunk that was split, which keeps its heading. Each of
/// the two headers counts the lines of either side under it, up to the next boundary.
pub proof fn law_split_keeps_the_diff(text: Seq<char>, files: Seq<FilePlace>, line: int)
    requires
        diff_cues::can_split(text::lines(text), files, line),
        linenums::counters_fit(text::lines(text)),
    ensures
        ({
            let ls = text::lines(text);
            let out = text::lines(text::join_with(diff_cues::split_lines(ls, line), '\n'));
            let h = diff_cues::last_header(ls, line);
            let end = diff_cues::section_end(out, line + 1);
            &&& 0 <= h < line < ls.len()
            &&& out.len() == ls.len() + 1
            &&& out.remove(line) == ls.update(h, out[h])
            &&& linenums::counters_fit(out)
            &&& linenums::line_number(out, line) == linenums::unnumbered()
            &&& forall|i: int|
                0 <= i < ls.len() ==> #[trigger] linenums::line_number(ls, i)
                    == linenums::line_number(
                    out,
                    if i < line {
                        i
                    } else {
                        i + 1
                    },
                )
            &&& diff_cues::section_end(out, h + 1) == line
            &&& out[h] == diff_cues::header_text(
                linenums::counters(out, h + 1).0,
                linenums::old_lines(out, h + 1, line),
                linenums::counters(out, h + 1).1,
                linenums::new_lines(out, h + 1, line),
            ) + diff_cues::heading(ls[h])
            &&& diff_cues::heading(out[h]) == diff_cues::heading(ls[h])
            &&& out[line] == diff_cues::header_text(
                linenums::counters(out, line + 1).0,
                linenums::old_lines(out, line + 1, end),
                linenums::counters(out, line + 1).1,
                linenums::new_lines(out, line + 1, end),
            )
        }),
{
    let ls = text::lines(text);
    let out = diff_cues::split_lines(ls, line);
    let h = diff_cues::last_header(ls, line);
    let end = diff_cues::section_end(ls, h + 1);
    let tail = diff_cues::heading(ls[h]);
    diff_cues::lemma_last_header(ls, line);
    diff_cues::lemma_section_end(ls, h + 1);
    text::lemma_split_pieces_free(text, '\n');
    lemma_heading_free(ls[h]);
    let c1 = linenums::counters(ls, h + 1);
    let c2 = linenums::counters(ls, line);
    let none = Seq::<char>::empty();
    let bare = diff_cues::header_text(
        c2.0,
        linenums::old_lines(ls, line, end),
        c2.1,
        linenums::new_lines(ls, line, end),
    );
    lemma_header_shape(
        c1.0,
        linenums::old_lines(ls, h + 1, line),
        c1.1,
        linenums::new_lines(ls, h + 1, line),
        tail,
    );
    lemma_header_shape(
        c2.0,
        linenums::old_lines(ls, line, end),
        c2.1,
        linenums::new_lines(ls, line, end),
        none,
    );
    assert(bare + none =~= bare);
    assert(out[line] == bare);
    assert forall|i: int| 0 <= i < out.len() implies text::free_of(#[trigger] out[i], '\n') by {
        if i < line && i != h {
            assert(out[i] == ls[i]);
        } else if i > line {
            assert(out[i] == ls[i - 1]);
        }
    }
    text::lemma_split_join(out, '\n');
    assert(out.remove(line) =~= ls.update(h, out[h]));

    assert forall|i: int| 0 <= i < ls.len() implies #[trigger] linenums::line_number(ls, i)
        == linenums::line_number(
        out,
        if i < line {
            i
        } else {
            i + 1
        },
    ) by {
        lemma_split_counters(ls, files, line, i);
        if i < line && i != h {
            assert(out[i] == ls[i]);
        } else if i >= line {
            assert(out[i + 1] == ls[i]);
        }
    }
    assert forall|j: int| 0 <= j <= out.len() implies (#[trigger] linenums::counters(out, j)).0
        <= u32::MAX && linenums::counters(out, j).1 <= u32::MAX by {
        let i = if j <= line {
            j
        } else {
            j - 1
        };
        lemma_split_counters(ls, files, line, i);
        assert(linenums::counters(ls, i).0 <= u32::MAX);
    }

    assert forall|i: int| h + 1 <= i < line implies out[i + 0] == #[trigger] ls[i] by {}
    lemma_same_sides(ls, out, h + 1, line, 0);
    assert forall|i: int| line <= i < end implies out[i + 1] == #[trigger] ls[i] by {}
    lemma_same_sides(ls, out, line, end, 1);
    assert forall|i: int| h + 1 <= i < line implies !diff_cues::boundary(#[trigger] out[i]) by {
        assert(!diff_cues::boundary(ls[i]));
    }
    lemma_section_ends_at(out, h + 1, line);
    assert forall|i: int| line + 1 <= i < end + 1 implies !diff_cues::boundary(
        #[trigger] out[i],
    ) by {
        assert(!diff_cues::boundary(ls[i - 1]));
    }
    if end < ls.len() {
        assert(out[end + 1] == ls[end]);
    }
    lemma_section_ends_at(out, line + 1, end + 1);
    lemma_split_counters(ls, files, line, h + 1);
    lemma_split_counters(ls, files, line, line);
}

/// Files with as many hunks each have the same flattened hunks.
proof fn lemma_flat_same(files: Seq<FilePlace>, out: Seq<FilePlace>)
    requires
        out.len() == files.len(),
        forall|i: int|
            0 <= i < files.len() ==> (#[trigger] out[i]).hunks.len() == files[i].hunks.len(),
    ensures
        diff_cues::flat_hunks(out) == diff_cues::flat_hunks(files),
    decreases files.len(),
{
    if files.len() > 0 {
        lemma_flat_same(files.drop_last(), out.drop_last());
        assert(out[out.len() - 1].hunks.len() == files[files.len() - 1].hunks.len());
        assert(diff_cues::flat_hunks(out) =~= diff_cues::flat_hunks(files));
    }
}

/// One more hunk in file `f`, behind its hunk `h`: the flattened hunks up to there
/// stay, the new one follows, and the others come one later.
proof fn lemma_flat_grown(files: Seq<FilePlace>, out: Seq<FilePlace>, k: int, j: int)
    requires
        out.len() == files.len(),
        0 <= k < diff_cues::flat_hunks(files).len(),
        0 <= j < diff_cues::flat_hunks(files).len(),
        ({
            let f = diff_cues::flat_hunks(files)[k].0;
            &&& 0 <= f < files.len()
            &&& out[f].hunks.len() == files[f].hunks.len() + 1
            &&& forall|i: int|
                0 <= i < files.len() && i != f ==> (#[trigger] out[i]).hunks.len()
                    == files[i].hunks.len()
        }),
    ensures
        ({
            let flat = diff_cues::flat_hunks(files);
            let grown = diff_cues::flat_hunks(out);
            let at = flat[k];
            &&& grown.len() == flat.len() + 1
            &&& j <= k ==> grown[j] == flat[j]
            &&& grown[k + 1] == (at.0, at.1 + 1)
            &&& j > k ==> grown[j + 1] == if flat[j].0 == at.0 {
                (flat[j].0, flat[j].1 + 1)
            } else {
                flat[j]
            }
            &&& j > k && flat[j].0 == at.0 ==> flat[j].1 > at.1
            &&& j > k ==> flat[j].0 >= at.0
            &&& j < k ==> flat[j].0 <= at.0 && (flat[j].0 == at.0 ==> flat[j].1 < at.1)
        }),
    decreases files.len(),
{
    let flat = diff_cues::flat_hunks(files);
    let grown = diff_cues::flat_hunks(out);
    let last = files.len() - 1;
    let fi = files.drop_last();
    let oi = out.drop_last();
    let init = diff_cues::flat_hunks(fi);
    let f = flat[k].0;
    diff_cues::lemma_flat_hunks(files, k);
    diff_cues::lemma_flat_hunks(files, j);
    if k < init.len() {
        diff_cues::lemma_flat_hunks(fi, k);
        assert(flat[k] == init[k]);
        assert(f < last);
        assert(out[last].hunks.len() == files[last].hunks.len());
        assert(oi[f] == out[f] && fi[f] == files[f]);
        assert forall|i: int| 0 <= i < fi.len() && i != f implies (#[trigger] oi[i]).hunks.len()
            == fi[i].hunks.len() by {
            assert(oi[i] == out[i] && fi[i] == files[i]);
        }
        if j < init.len() {
            lemma_flat_grown(fi, oi, k, j);
            diff_cues::lemma_flat_hunks(fi, j);
            assert(flat[j] == init[j]);
        } else {
            lemma_flat_grown(fi, oi, k, k);
            assert(flat[j] == (last as int, j - init.len()));
        }
    } else {
        assert(flat[k] == (last as int, k - init.len()));
        assert(f == last);
        assert forall|i: int| 0 <= i < fi.len() implies (#[trigger] oi[i]).hunks.len()
            == fi[i].hunks.len() by {
            assert(oi[i] == out[i] && fi[i] == files[i]);
        }
        lemma_flat_same(fi, oi);
        if j < init.len() {
            diff_cues::lemma_flat_hunks(fi, j);
            assert(flat[j] == init[j]);
        } else {
            assert(flat[j] == (last as int, j - init.len()));
        }
    }
}

/// The headers before a line of the split diff.
proof fn lemma_split_headers(text: Seq<char>, files: Seq<FilePlace>, line: int, i: int)
    requires
        diff_cues::can_split(text::lines(text), files, line),
        0 <= i <= text::lines(text).len(),
    ensures
        ({
            let ls = text::lines(text);
            let out = diff_cues::split_lines(ls, line);
            &&& i <= line ==> diff_cues::headers_before(out, i) == diff_cues::headers_before(ls, i)
            &&& i >= line ==> diff_cues::headers_before(out, i + 1) == diff_cues::headers_before(
                ls,
                i,
            ) + 1
        }),
    decreases i,
{
    let ls = text::lines(text);
    let out = diff_cues::split_lines(ls, line);
    let h = diff_cues::last_header(ls, line);
    diff_cues::lemma_last_header(ls, line);
    lemma_split_text(text, files, line);
    if i > 0 {
        lemma_split_headers(text, files, line, i - 1);
        if i > line {
            assert(out[i] == ls[i - 1]);
        } else if i - 1 != h {
            assert(out[i - 1] == ls[i - 1]);
        }
    }
}

/// The headers before a line are those before an earlier one and those between.
proof fn lemma_headers_grow(ls: Seq<Seq<char>>, i: int, j: int)
    requires
        0 <= i <= j,
    ensures
        diff_cues::headers_before(ls, i) <= diff_cues::headers_before(ls, j),
        i < j && linenums::hunk_header(ls[i]) ==> diff_cues::headers_before(ls, i)
            < diff_cues::headers_before(ls, j),
        (forall|m: int| i <= m < j ==> !linenums::hunk_header(#[trigger] ls[m]))
            ==> diff_cues::headers_before(ls, i) == diff_cues::headers_before(ls, j),
    decreases j - i,
{
    if i < j {
        lemma_headers_grow(ls, i, j - 1);
        if forall|m: int| i <= m < j ==> !linenums::hunk_header(#[trigger] ls[m]) {
            assert(!linenums::hunk_header(ls[j - 1]));
        }
    }
}

/// Where a header that is named by its place stands.
proof fn lemma_header_place(ls: Seq<Seq<char>>, line: int, h: int)
    requires
        0 <= h < line <= ls.len(),
        linenums::hunk_header(ls[h]),
        forall|m: int| h < m < line ==> !linenums::hunk_header(#[trigger] ls[m]),
    ensures
        diff_cues::last_header(ls, line) == h,
        diff_cues::headers_before(ls, line) == diff_cues::headers_before(ls, h) + 1,
{
    diff_cues::lemma_last_header(ls, line);
    let l = diff_cues::last_header(ls, line);
    if l < h {
        assert(!linenums::hunk_header(ls[h]));
    } else if l > h {
        assert(!linenums::hunk_header(ls[l]));
    }
    lemma_headers_grow(ls, h + 1, line);
    assert(diff_cues::headers_before(ls, h + 1) == diff_cues::headers_before(ls, h) + 1);
}

/// The target of a header of the split diff, by its place among all hunks.
proof fn lemma_split_target(text: Seq<char>, files: Seq<FilePlace>, line: int, i: int)
    requires
        diff_cues::can_split(text::lines(text), files, line),
        0 <= i < text::lines(text).len(),
        linenums::hunk_header(text::lines(text)[i]),
        i != diff_cues::last_header(text::lines(text), line),
    ensures
        ({
            let ls = text::lines(text);
            let out = diff_cues::split_lines(ls, line);
            let after = diff_cues::split_places(ls, files, line);
            let to = if i < line {
                i
            } else {
                i + 1
            };
            &&& diff_cues::hunk_at(out, after, to) == diff_cues::hunk_at(ls, files, i)
            &&& forall|ro: bool|
                diff_cues::expand_kind(out, after, ro, to) == #[trigger] diff_cues::expand_kind(
                    ls,
                    files,
                    ro,
                    i,
                )
        }),
{
    let ls = text::lines(text);
    let out = diff_cues::split_lines(ls, line);
    let after = diff_cues::split_places(ls, files, line);
    let h = diff_cues::last_header(ls, line);
    let flat = diff_cues::flat_hunks(files);
    let k = diff_cues::headers_before(ls, line) - 1;
    let at = flat[k];
    let to = if i < line {
        i
    } else {
        i + 1
    };
    diff_cues::lemma_last_header(ls, line);
    diff_cues::lemma_flat_hunks(files, k);
    lemma_split_headers(text, files, line, i);
    if i < line {
        assert(out[i] == ls[i]);
        assert(i < h) by {
            if i > h {
                assert(!linenums::hunk_header(ls[i]));
            }
        }
        lemma_headers_grow(ls, i, h);
        lemma_headers_grow(ls, h, line);
    } else {
        assert(out[i + 1] == ls[i]);
        lemma_headers_grow(ls, line, i);
    }
    let j = diff_cues::headers_before(ls, i) as int;
    lemma_flat_grown(files, after, k, k);
    if j < flat.len() {
        diff_cues::lemma_flat_hunks(files, j);
        lemma_flat_grown(files, after, k, j);
        let a = flat[j];
        let hunk = files[a.0].hunks[a.1];
        if j > k {
            if a.0 == at.0 {
                assert(after[a.0].hunks[a.1 + 1] == diff_cues::hunk_below(hunk));
            } else {
                assert(after[a.0].hunks[a.1] == diff_cues::hunk_below(hunk));
            }
        } else {
            assert(j < k);
            assert(after[a.0].hunks[a.1] == hunk);
        }
    }
}

/// A split parts the change groups of a hunk between its two halves. A click on the
/// upper header then means the groups above the cut, one on the lower header those
/// below it, of the same file: the halves begin and end where the hunk did, the lower
/// one begins right behind the upper one, and each spans as many groups as stand
/// under its header. Every other header means what it meant. `h` is the header of the
/// hunk, `end` where the hunk ends, and `all`, `upper` and `lower` list where the
/// change groups of the hunk and of its halves begin.
pub proof fn law_split_parts_the_groups(
    text: Seq<char>,
    files: Seq<FilePlace>,
    line: int,
    h: int,
    end: int,
    all: Seq<int>,
    upper: Seq<int>,
    lower: Seq<int>,
)
    requires
        diff_cues::can_split(text::lines(text), files, line),
        diff_cues::room_to_split(text::lines(text), files, line),
        0 <= h < line < end <= text::lines(text).len(),
        linenums::hunk_header(text::lines(text)[h]),
        forall|m: int| h < m < end ==> !diff_cues::boundary(#[trigger] text::lines(text)[m]),
        end < text::lines(text).len() ==> diff_cues::boundary(text::lines(text)[end]),
        indices::lists(
            all,
            h + 1,
            end,
            |p: int| diff_cues::begins_group(text::lines(text), h + 1, p),
        ),
        ({
            let out = text::lines(
                text::join_with(diff_cues::split_lines(text::lines(text), line), '\n'),
            );
            &&& indices::lists(
                upper,
                h + 1,
                line,
                |p: int| diff_cues::begins_group(out, h + 1, p),
            )
            &&& indices::lists(
                lower,
                line + 1,
                end + 1,
                |p: int| diff_cues::begins_group(out, line + 1, p),
            )
        }),
    ensures
        ({
            let ls = text::lines(text);
            let out = text::lines(text::join_with(diff_cues::split_lines(ls, line), '\n'));
            let after = diff_cues::split_places(ls, files, line);
            let was = diff_cues::hunk_at(ls, files, h);
            let up = diff_cues::hunk_at(out, after, h);
            let low = diff_cues::hunk_at(out, after, line);
            &&& all.len() == upper.len() + lower.len()
            &&& upper.len() > 0 && lower.len() > 0
            &&& match (was, up, low) {
                (Some(w), Some(u), Some(l)) => {
                    &&& u.2 == w.2 && l.2 == w.2
                    &&& u.0 == w.0
                    &&& l.0 == u.1 + 1
                    &&& l.1 == w.1
                    &&& u.1 - u.0 + 1 == upper.len()
                    &&& w.1 - w.0 + 1 == all.len() ==> l.1 - l.0 + 1 == lower.len()
                },
                _ => false,
            }
            &&& forall|i: int|
                0 <= i < ls.len() && i != h && linenums::hunk_header(#[trigger] ls[i])
                    ==> diff_cues::hunk_at(
                    out,
                    after,
                    if i < line {
                        i
                    } else {
                        i + 1
                    },
                ) == diff_cues::hunk_at(ls, files, i)
        }),
{
    let ls = text::lines(text);
    let out = diff_cues::split_lines(ls, line);
    let after = diff_cues::split_places(ls, files, line);
    let flat = diff_cues::flat_hunks(files);
    assert forall|m: int| h < m < line implies !linenums::hunk_header(#[trigger] ls[m]) by {
        assert(!diff_cues::boundary(ls[m]));
    }
    lemma_header_place(ls, line, h);
    lemma_section_ends_at(ls, h + 1, end);
    lemma_split_text(text, files, line);
    let k = diff_cues::headers_before(ls, line) - 1;
    let at = flat[k];
    diff_cues::lemma_flat_hunks(files, k);
    lemma_split_headers(text, files, line, h);
    lemma_split_headers(text, files, line, line);
    lemma_flat_grown(files, after, k, k);
    let hunk = files[at.0].hunks[at.1];
    let g = diff_cues::groups(ls, h + 1, line);
    assert(after[at.0].hunks[at.1] == diff_cues::upper_half(hunk, h, g));
    assert(after[at.0].hunks[at.1 + 1] == diff_cues::lower_half(hunk, line, g));
    assert(diff_cues::hunk_at(ls, files, h) == Some(
        (hunk.first_group, hunk.last_group, files[at.0].path),
    ));
    assert(diff_cues::headers_before(out, line) == k + 1) by {
        lemma_split_headers(text, files, line, line);
    }

    diff_cues::law_groups_are_counted(ls, h + 1, end, all);
    diff_cues::law_groups_are_counted(out, h + 1, line, upper);
    diff_cues::law_groups_are_counted(out, line + 1, end + 1, lower);
    assert forall|m: int| h + 1 <= m < line implies out[m + 0] == #[trigger] ls[m] by {}
    lemma_groups_shifted(ls, out, h + 1, line, 0);
    assert forall|m: int| line <= m < end implies out[m + 1] == #[trigger] ls[m] by {}
    lemma_groups_shifted(ls, out, line, end, 1);
    lemma_space_is_context(ls[line]);
    lemma_groups_cut(ls, h + 1, line, end);

    assert forall|i: int|
        0 <= i < ls.len() && i != h && linenums::hunk_header(#[trigger] ls[i]) implies
        diff_cues::hunk_at(
        out,
        after,
        if i < line {
            i
        } else {
            i + 1
        },
    ) == diff_cues::hunk_at(ls, files, i) by {
        lemma_split_target(text, files, line, i);
    }
}

/// Lines that stand `shift` further down make the same groups.
proof fn lemma_groups_shifted(
    ls: Seq<Seq<char>>,
    out: Seq<Seq<char>>,
    from: int,
    to: int,
    shift: int,
)
    requires
        forall|m: int| from <= m < to ==> out[m + shift] == #[trigger] ls[m],
    ensures
        diff_cues::groups(out, from + shift, to + shift) == diff_cues::groups(ls, from, to),
        diff_cues::in_group(out, from + shift, to + shift) == diff_cues::in_group(ls, from, to),
    decreases to - from,
{
    if from < to {
        lemma_groups_shifted(ls, out, from, to - 1, shift);
        assert(out[to - 1 + shift] == ls[to - 1]);
    }
}

/// A context line parts the groups: those above it and those from it on are all.
proof fn lemma_groups_cut(ls: Seq<Seq<char>>, from: int, cut: int, to: int)
    requires
        from <= cut < to,
        diff_cues::context_line(ls[cut]),
    ensures
        diff_cues::groups(ls, from, to) == diff_cues::groups(ls, from, cut) + diff_cues::groups(
            ls,
            cut,
            to,
        ),
        diff_cues::in_group(ls, from, to) == diff_cues::in_group(ls, cut, to),
    decreases to - cut,
{
    if cut + 1 < to {
        lemma_groups_cut(ls, from, cut, to - 1);
    } else {
        assert(!diff_cues::change_line(ls[cut]));
        assert(diff_cues::groups(ls, cut, cut) == 0);
        assert(!diff_cues::in_group(ls, cut, cut + 1));
    }
}

/// A split leaves the numbering of a file's change groups whole: where its hunks
/// number them without gap or overlap, they still do, from the same first to the same
/// last. No file comes, goes or changes its path, and no other file's numbering moves.
pub proof fn law_split_keeps_the_numbering(
    ls: Seq<Seq<char>>,
    files: Seq<FilePlace>,
    line: int,
    f: int,
)
    requires
        diff_cues::can_split(ls, files, line),
        diff_cues::room_to_split(ls, files, line),
        0 <= f < files.len(),
        forall|i: int, j: int|
            0 <= i < j < files[f].hunks.len() && j == i + 1 ==> (
            #[trigger] files[f].hunks[i]).last_group + 1 == (
            #[trigger] files[f].hunks[j]).first_group,
    ensures
        ({
            let after = diff_cues::split_places(ls, files, line);
            let was = files[f].hunks;
            let now = after[f].hunks;
            &&& after.len() == files.len()
            &&& after[f].path == files[f].path
            &&& after[f].editable == files[f].editable
            &&& forall|i: int, j: int|
                0 <= i < j < now.len() && j == i + 1 ==> (#[trigger] now[i]).last_group + 1 == (
                #[trigger] now[j]).first_group
            &&& was.len() > 0 ==> now.len() > 0 && now[0].first_group == was[0].first_group
                && now.last().last_group == was.last().last_group
            &&& was.len() == 0 ==> now.len() == 0
        }),
{
    let after = diff_cues::split_places(ls, files, line);
    let k = diff_cues::headers_before(ls, line) - 1;
    let at = diff_cues::flat_hunks(files)[k];
    let h = diff_cues::last_header(ls, line);
    let g = diff_cues::groups(ls, h + 1, line);
    diff_cues::lemma_last_header(ls, line);
    diff_cues::lemma_flat_hunks(files, k);
    let was = files[f].hunks;
    let now = after[f].hunks;
    if f == at.0 {
        let hunk = was[at.1];
        assert forall|j: int, n: int| 0 <= j < n < now.len() && n == j + 1 implies (
        #[trigger] now[j]).last_group + 1 == (#[trigger] now[n]).first_group by {
            if j < at.1 {
                assert(now[j] == was[j]);
                assert(was[j].last_group + 1 == was[j + 1].first_group);
                if j + 1 < at.1 {
                    assert(now[j + 1] == was[j + 1]);
                } else {
                    assert(now[j + 1] == diff_cues::upper_half(hunk, h, g));
                }
            } else if j == at.1 {
                assert(now[j] == diff_cues::upper_half(hunk, h, g));
                assert(now[j + 1] == diff_cues::lower_half(hunk, line, g));
            } else {
                assert(was[j - 1].last_group + 1 == was[j].first_group);
                assert(now[j + 1] == diff_cues::hunk_below(was[j]));
                if j == at.1 + 1 {
                    assert(now[j] == diff_cues::lower_half(hunk, line, g));
                } else {
                    assert(now[j] == diff_cues::hunk_below(was[j - 1]));
                }
            }
        }
    } else if f > at.0 {
        assert forall|j: int, n: int| 0 <= j < n < now.len() && n == j + 1 implies (
        #[trigger] now[j]).last_group + 1 == (#[trigger] now[n]).first_group by {
            assert(now[j] == diff_cues::hunk_below(was[j]));
            assert(now[j + 1] == diff_cues::hunk_below(was[j + 1]));
        }
    }
}

/// Whether every known hunk and file is recorded where it stands in the diff.
pub open spec fn placed(ls: Seq<Seq<char>>, files: Seq<FilePlace>) -> bool {
    &&& forall|i: int|
        0 <= i < ls.len() && linenums::hunk_header(#[trigger] ls[i]) && diff_cues::headers_before(
            ls,
            i,
        ) < diff_cues::flat_hunks(files).len() ==> hunk_record(ls, files, i).header_line == i
    &&& forall|i: int|
        0 <= i < ls.len() && diff_cues::file_sep(#[trigger] ls[i]) && diff_cues::seps_before(ls, i)
            < files.len() ==> files[diff_cues::seps_before(ls, i) as int].start_line == i
}

/// The record of the hunk whose header stands at line `i`.
pub open spec fn hunk_record(ls: Seq<Seq<char>>, files: Seq<FilePlace>, i: int) -> HunkInfo {
    let at = diff_cues::flat_hunks(files)[diff_cues::headers_before(ls, i) as int];
    files[at.0].hunks[at.1]
}

proof fn lemma_seps_shifted(text: Seq<char>, files: Seq<FilePlace>, line: int, i: int)
    requires
        diff_cues::can_split(text::lines(text), files, line),
        0 <= i <= text::lines(text).len(),
    ensures
        ({
            let ls = text::lines(text);
            let out = diff_cues::split_lines(ls, line);
            &&& i <= line ==> diff_cues::seps_before(out, i) == diff_cues::seps_before(ls, i)
            &&& i >= line ==> diff_cues::seps_before(out, i + 1) == diff_cues::seps_before(ls, i)
        }),
    decreases i,
{
    let ls = text::lines(text);
    let out = diff_cues::split_lines(ls, line);
    let h = diff_cues::last_header(ls, line);
    diff_cues::lemma_last_header(ls, line);
    lemma_split_text(text, files, line);
    lemma_header_no_sep(out[h]);
    lemma_header_no_sep(out[line]);
    lemma_header_no_sep(ls[h]);
    if i > 0 {
        lemma_seps_shifted(text, files, line, i - 1);
        if i > line {
            assert(out[i] == ls[i - 1]);
        } else {
            if i - 1 != h {
                assert(out[i - 1] == ls[i - 1]);
            }
            assert(diff_cues::seps_before(out, i) == diff_cues::seps_before(ls, i));
            if i == line {
                assert(diff_cues::seps_before(out, i + 1) == diff_cues::seps_before(out, i));
            }
        }
    }
}

/// A hunk header begins no file.
proof fn lemma_header_no_sep(l: Seq<char>)
    ensures
        linenums::hunk_header(l) ==> !diff_cues::file_sep(l),
{
    reveal_strlit("@@");
    reveal_strlit("diff --git ");
    if linenums::hunk_header(l) && diff_cues::file_sep(l) {
        assert(l.subrange(0, 2)[0] == '@');
        assert(l.subrange(0, 11)[0] == 'd');
    }
}

/// After a split every hunk and every file is recorded where it then stands, if they
/// were before; `f` is the file of the hunk that is split.
pub proof fn law_split_keeps_the_places(
    text: Seq<char>,
    files: Seq<FilePlace>,
    line: int,
    f: int,
)
    requires
        diff_cues::can_split(text::lines(text), files, line),
        diff_cues::room_to_split(text::lines(text), files, line),
        placed(text::lines(text), files),
        f + 1 == diff_cues::seps_before(text::lines(text), line),
        f == diff_cues::flat_hunks(files)[diff_cues::headers_before(text::lines(text), line)
            - 1].0,
        text::lines(text).len() <= usize::MAX,
    ensures
        placed(
            text::lines(
                text::join_with(diff_cues::split_lines(text::lines(text), line), '\n'),
            ),
            diff_cues::split_places(text::lines(text), files, line),
        ),
{
    let ls = text::lines(text);
    let out = diff_cues::split_lines(ls, line);
    let after = diff_cues::split_places(ls, files, line);
    let flat = diff_cues::flat_hunks(files);
    let grown = diff_cues::flat_hunks(after);
    let h = diff_cues::last_header(ls, line);
    let k = diff_cues::headers_before(ls, line) - 1;
    let at = flat[k];
    diff_cues::lemma_last_header(ls, line);
    diff_cues::lemma_flat_hunks(files, k);
    lemma_split_text(text, files, line);
    lemma_header_place(ls, line, h);
    lemma_flat_grown(files, after, k, k);
    let g = diff_cues::groups(ls, h + 1, line);
    let hunk = files[at.0].hunks[at.1];
    assert(after[at.0].hunks[at.1] == diff_cues::upper_half(hunk, h, g));
    assert(after[at.0].hunks[at.1 + 1] == diff_cues::lower_half(hunk, line, g));
    assert forall|i: int|
        0 <= i < out.len() && linenums::hunk_header(#[trigger] out[i])
            && diff_cues::headers_before(out, i) < grown.len() implies hunk_record(
        out,
        after,
        i,
    ).header_line == i by {
        if i == line {
            lemma_split_headers(text, files, line, line);
        } else {
            let was = if i < line {
                i
            } else {
                i - 1
            };
            lemma_split_headers(text, files, line, was);
            if was != h {
                assert(out[i] == ls[was]);
            }
            let j = diff_cues::headers_before(ls, was) as int;
            if was < line && was != h {
                assert(was < h) by {
                    if was > h {
                        assert(!linenums::hunk_header(ls[was]));
                    }
                }
                lemma_headers_grow(ls, was, h);
            } else if was >= line {
                lemma_headers_grow(ls, line, was);
            }
            assert(j < flat.len());
            assert(hunk_record(ls, files, was).header_line == was);
            diff_cues::lemma_flat_hunks(files, j);
            lemma_flat_grown(files, after, k, j);
            let a = flat[j];
            let old = files[a.0].hunks[a.1];
            if j > k {
                if a.0 == at.0 {
                    assert(after[a.0].hunks[a.1 + 1] == diff_cues::hunk_below(old));
                } else {
                    assert(after[a.0].hunks[a.1] == diff_cues::hunk_below(old));
                }
            } else if j < k {
                assert(after[a.0].hunks[a.1] == old);
            }
        }
    }
    assert forall|i: int|
        0 <= i < out.len() && diff_cues::file_sep(#[trigger] out[i]) && diff_cues::seps_before(
            out,
            i,
        ) < after.len() implies after[diff_cues::seps_before(out, i) as int].start_line == i by {
        lemma_header_no_sep(out[line]);
        lemma_header_no_sep(out[h]);
        assert(i != line && i != h);
        let was = if i < line {
            i
        } else {
            i - 1
        };
        assert(out[i] == ls[was]);
        lemma_seps_shifted(text, files, line, was);
        let s = diff_cues::seps_before(ls, was) as int;
        assert(files[s].start_line == was);
        if was < line {
            lemma_seps_grow(ls, was, line);
        } else {
            lemma_seps_grow(ls, line, was);
        }
    }
}

proof fn lemma_seps_grow(ls: Seq<Seq<char>>, i: int, j: int)
    requires
        0 <= i <= j,
    ensures
        diff_cues::seps_before(ls, i) <= diff_cues::seps_before(ls, j),
        i < j && diff_cues::file_sep(ls[i]) ==> diff_cues::seps_before(ls, i)
            < diff_cues::seps_before(ls, j),
    decreases j - i,
{
    if i < j {
        lemma_seps_grow(ls, i, j - 1);
    }
}

/// Of the context around a split hunk, what lies above can still be shown at its
/// upper half and what lies below at its lower half, but nothing between the two; the
/// buttons of all other hunks stay. `h` is the header of the hunk.
pub proof fn law_split_keeps_the_buttons(
    text: Seq<char>,
    files: Seq<FilePlace>,
    line: int,
    h: int,
    read_only: bool,
)
    requires
        diff_cues::can_split(text::lines(text), files, line),
        0 <= h < line,
        linenums::hunk_header(text::lines(text)[h]),
        forall|m: int|
            h < m < line ==> !linenums::hunk_header(#[trigger] text::lines(text)[m]),
    ensures
        ({
            let ls = text::lines(text);
            let out = text::lines(text::join_with(diff_cues::split_lines(ls, line), '\n'));
            let after = diff_cues::split_places(ls, files, line);
            let was = diff_cues::expand_kind(ls, files, read_only, h);
            &&& diff_cues::expand_kind(out, after, read_only, h) == if was == Some(
                diff_cues::CueKind::ExpandBoth,
            ) || was == Some(diff_cues::CueKind::ExpandUp) {
                Some(diff_cues::CueKind::ExpandUp)
            } else {
                None
            }
            &&& diff_cues::expand_kind(out, after, read_only, line) == if was == Some(
                diff_cues::CueKind::ExpandBoth,
            ) || was == Some(diff_cues::CueKind::ExpandDown) {
                Some(diff_cues::CueKind::ExpandDown)
            } else {
                None
            }
            &&& forall|i: int|
                0 <= i < ls.len() && i != h && linenums::hunk_header(#[trigger] ls[i])
                    ==> diff_cues::expand_kind(
                    out,
                    after,
                    read_only,
                    if i < line {
                        i
                    } else {
                        i + 1
                    },
                ) == diff_cues::expand_kind(ls, files, read_only, i)
        }),
{
    let ls = text::lines(text);
    let out = diff_cues::split_lines(ls, line);
    let after = diff_cues::split_places(ls, files, line);
    let k = diff_cues::headers_before(ls, line) - 1;
    let at = diff_cues::flat_hunks(files)[k];
    lemma_header_place(ls, line, h);
    lemma_split_text(text, files, line);
    diff_cues::lemma_flat_hunks(files, k);
    lemma_split_headers(text, files, line, h);
    lemma_split_headers(text, files, line, line);
    lemma_flat_grown(files, after, k, k);
    let hunk = files[at.0].hunks[at.1];
    let g = diff_cues::groups(ls, h + 1, line);
    assert(after[at.0].hunks[at.1] == diff_cues::upper_half(hunk, h, g));
    assert(after[at.0].hunks[at.1 + 1] == diff_cues::lower_half(hunk, line, g));
    assert forall|i: int|
        0 <= i < ls.len() && i != h && linenums::hunk_header(#[trigger] ls[i]) implies
        diff_cues::expand_kind(
        out,
        after,
        read_only,
        if i < line {
            i
        } else {
            i + 1
        },
    ) == diff_cues::expand_kind(ls, files, read_only, i) by {
        lemma_split_target(text, files, line, i);
    }
}

} // verus!
