//! Old- and new-side line numbers for the lines of a unified diff, and the ours
//! and theirs numbers for the lines of the conflict-snippet view.
use crate::indices;
use crate::model::{ConflictFileView, ConflictLineKind, ConflictPiece};
use crate::numbers;
use crate::text;
use crate::white;
use vstd::prelude::*;

verus! {

/// The old-side and new-side number of one rendered line; `None` where the side
/// does not apply.
#[derive(Clone, Copy, Debug, PartialEq, Eq)]
pub struct DiffLineNo {
    pub old: Option<u32>,
    pub new: Option<u32>,
}

impl Default for DiffLineNo {
    fn default() -> (r: Self)
        ensures
            r == unnumbered(),
    {
        DiffLineNo { old: None, new: None }
    }
}

/// Which side a number column shows.
#[derive(Clone, Copy, Debug, PartialEq, Eq, Structural)]
pub enum NumColumn {
    Old,
    New,
}

impl Default for NumColumn {
    fn default() -> (r: Self)
        ensures
            r == NumColumn::New,
    {
        NumColumn::New
    }
}

/// The number of a line that has none on either side.
pub open spec fn unnumbered() -> DiffLineNo {
    DiffLineNo { old: None, new: None }
}

/// Whether `l` is a `@@` hunk header.
pub open spec fn hunk_header(l: Seq<char>) -> bool {
    "@@"@.is_prefix_of(l)
}

/// Whether `l` is a line about the diff itself, which never counts.
pub open spec fn meta_line(l: Seq<char>) -> bool {
    ||| "diff "@.is_prefix_of(l)
    ||| "--- "@.is_prefix_of(l)
    ||| "+++ "@.is_prefix_of(l)
    ||| "index "@.is_prefix_of(l)
    ||| l.len() > 0 && l[0] == '\\'
}

/// Whether `l` stands for a line of the old file.
pub open spec fn counts_old(l: Seq<char>) -> bool {
    !hunk_header(l) && !meta_line(l) && l.len() > 0 && (l[0] == '-' || l[0] == ' ')
}

/// Whether `l` stands for a line of the new file.
pub open spec fn counts_new(l: Seq<char>) -> bool {
    !hunk_header(l) && !meta_line(l) && l.len() > 0 && (l[0] == '+' || l[0] == ' ')
}

/// Which sides `(old, new)` the diff line `l` counts towards.
pub fn line_sides(l: &Vec<char>) -> (r: (bool, bool))
    ensures
        r.0 == counts_old(l@),
        r.1 == counts_new(l@),
{
    if text::starts_with(l, "@@") || text::starts_with(l, "diff ") || text::starts_with(l, "--- ")
        || text::starts_with(l, "+++ ") || text::starts_with(l, "index ") || l.len() == 0
        || l[0] == '\\' {
        (false, false)
    } else if l[0] == '+' {
        (false, true)
    } else if l[0] == '-' {
        (true, false)
    } else if l[0] == ' ' {
        (true, true)
    } else {
        (false, false)
    }
}

/// The number behind the one-character `sign` of `part`, up to its first comma.
pub open spec fn signed_start(part: Seq<char>, sign: char) -> Option<nat> {
    if part.len() > 0 && part[0] == sign {
        numbers::parse_number(text::split_on(part.skip(1), ',')[0], u32::MAX as nat)
    } else {
        None
    }
}

/// The old and new start lines that a `@@ -a,b +c,d @@` header names; the counts
/// may be missing and anything may follow.
pub open spec fn hunk_starts(l: Seq<char>) -> Option<(nat, nat)> {
    let parts = white::words(l.skip(2));
    if hunk_header(l) && parts.len() >= 2 {
        match (signed_start(parts[0], '-'), signed_start(parts[1], '+')) {
            (Some(o), Some(n)) => Some((o, n)),
            _ => None,
        }
    } else {
        None
    }
}

fn parse_signed_start(part: &Vec<char>, sign: char) -> (r: Option<u32>)
    ensures
        (match r {
            Some(n) => signed_start(part@, sign) == Some(n as nat),
            None => signed_start(part@, sign) is None,
        }),
{
    if part.len() == 0 || part[0] != sign {
        return None;
    }
    let rest = text::slice_of(part, 1, part.len());
    assert(rest@ =~= part@.skip(1));
    let pieces = text::split_chars(&rest, ',');
    proof {
        text::lemma_split_nonempty(rest@, ',');
        assert(text::deep(pieces@).len() == pieces@.len());
        assert(text::deep(pieces@)[0] == pieces@[0]@);
    }
    numbers::parse_u32(&pieces[0])
}

/// The old and new start lines that a hunk header names.
pub fn parse_hunk_header(line: &str) -> (r: Option<(u32, u32)>)
    ensures
        (match r {
            Some(p) => hunk_starts(line@) == Some((p.0 as nat, p.1 as nat)),
            None => hunk_starts(line@) is None,
        }),
{
    let l = text::chars_of(line);
    parse_header_chars(&l)
}

fn parse_header_chars(l: &Vec<char>) -> (r: Option<(u32, u32)>)
    ensures
        (match r {
            Some(p) => hunk_starts(l@) == Some((p.0 as nat, p.1 as nat)),
            None => hunk_starts(l@) is None,
        }),
{
    proof {
        reveal_strlit("@@");
    }
    if !text::starts_with(l, "@@") {
        return None;
    }
    let rest = text::slice_of(l, 2, l.len());
    assert(rest@ =~= l@.skip(2));
    let parts = white::words_of(&rest);
    if parts.len() < 2 {
        return None;
    }
    assert(text::deep(parts@)[0] == parts@[0]@);
    assert(text::deep(parts@)[1] == parts@[1]@);
    let old = parse_signed_start(&parts[0], '-');
    let new = parse_signed_start(&parts[1], '+');
    match (old, new) {
        (Some(o), Some(n)) => Some((o, n)),
        _ => None,
    }
}

/// The running old and new counters in force before line `i`: every header that
/// can be read sets them, every counted line moves its side on by one.
pub open spec fn counters(ls: Seq<Seq<char>>, i: int) -> (nat, nat)
    decreases i,
{
    if i <= 0 {
        (0, 0)
    } else {
        let before = counters(ls, i - 1);
        let l = ls[i - 1];
        match hunk_starts(l) {
            Some(p) => p,
            None => (
                before.0 + if counts_old(l) {
                    1nat
                } else {
                    0nat
                },
                before.1 + if counts_new(l) {
                    1nat
                } else {
                    0nat
                },
            ),
        }
    }
}

/// Whether every counter fits the 32 bits of a line number.
pub open spec fn counters_fit(ls: Seq<Seq<char>>) -> bool {
    forall|i: int|
        0 <= i <= ls.len() ==> (#[trigger] counters(ls, i)).0 <= u32::MAX && counters(ls, i).1
            <= u32::MAX
}

/// The numbers of line `i` of a diff.
pub open spec fn line_number(ls: Seq<Seq<char>>, i: int) -> DiffLineNo {
    DiffLineNo {
        old: if counts_old(ls[i]) {
            Some(counters(ls, i).0 as u32)
        } else {
            None
        },
        new: if counts_new(ls[i]) {
            Some(counters(ls, i).1 as u32)
        } else {
            None
        },
    }
}

/// Whether the line counters of the diff `text` stay within 32 bits.
pub fn line_counters_fit(text: &str) -> (r: bool)
    ensures
        r == counters_fit(text::lines(text@)),
{
    let ls = text::lines_of(text);
    let ghost gl = text::lines(text@);
    let mut old: u32 = 0;
    let mut new: u32 = 0;
    let mut i: usize = 0;
    while i < ls.len()
        invariant
            i <= ls.len(),
            text::deep(ls@) == gl,
            gl == text::lines(text@),
            gl.len() == ls@.len(),
            counters(gl, i as int) == (old as nat, new as nat),
            forall|j: int|
                0 <= j <= i ==> (#[trigger] counters(gl, j)).0 <= u32::MAX && counters(gl, j).1
                    <= u32::MAX,
        decreases ls.len() - i,
    {
        assert(gl[i as int] == ls@[i as int]@);
        let ghost next = counters(gl, i + 1);
        match parse_header_chars(&ls[i]) {
            Some(p) => {
                old = p.0;
                new = p.1;
            },
            None => {
                let (o, n) = line_sides(&ls[i]);
                if o {
                    if old == u32::MAX {
                        assert(next.0 > u32::MAX);
                        return false;
                    }
                    old += 1;
                }
                if n {
                    if new == u32::MAX {
                        assert(next.1 > u32::MAX);
                        return false;
                    }
                    new += 1;
                }
            },
        }
        i += 1;
    }
    true
}

/// The old and new number of every line of `text`, a rendered unified diff.
pub fn diff_line_numbers(text: &str) -> (r: Vec<DiffLineNo>)
    requires
        counters_fit(text::lines(text@)),
    ensures
        r@.len() == text::lines(text@).len(),
        forall|i: int| 0 <= i < r@.len() ==> #[trigger] r@[i] == line_number(text::lines(text@), i),
{
    let ls = text::lines_of(text);
    let ghost gl = text::lines(text@);
    let mut out: Vec<DiffLineNo> = Vec::new();
    let mut old: u32 = 0;
    let mut new: u32 = 0;
    let mut i: usize = 0;
    while i < ls.len()
        invariant
            i <= ls.len(),
            text::deep(ls@) == gl,
            gl == text::lines(text@),
            gl.len() == ls@.len(),
            counters_fit(gl),
            counters(gl, i as int) == (old as nat, new as nat),
            out@.len() == i,
            forall|j: int| 0 <= j < i ==> #[trigger] out@[j] == line_number(gl, j),
        decreases ls.len() - i,
    {
        assert(gl[i as int] == ls@[i as int]@);
        assert(counters(gl, i + 1).0 <= u32::MAX && counters(gl, i + 1).1 <= u32::MAX);
        let (o, n) = line_sides(&ls[i]);
        out.push(
            DiffLineNo {
                old: if o {
                    Some(old)
                } else {
                    None
                },
                new: if n {
                    Some(new)
                } else {
                    None
                },
            },
        );
        match parse_header_chars(&ls[i]) {
            Some(p) => {
                old = p.0;
                new = p.1;
            },
            None => {
                if o {
                    old += 1;
                }
                if n {
                    new += 1;
                }
            },
        }
        i += 1;
    }
    out
}

/// How many lines of `ls[from..to]` stand for lines of the old file.
pub open spec fn old_lines(ls: Seq<Seq<char>>, from: int, to: int) -> nat
    decreases to - from,
{
    if to <= from {
        0
    } else {
        old_lines(ls, from, to - 1) + if counts_old(ls[to - 1]) {
            1nat
        } else {
            0nat
        }
    }
}

/// How many lines of `ls[from..to]` stand for lines of the new file.
pub open spec fn new_lines(ls: Seq<Seq<char>>, from: int, to: int) -> nat
    decreases to - from,
{
    if to <= from {
        0
    } else {
        new_lines(ls, from, to - 1) + if counts_new(ls[to - 1]) {
            1nat
        } else {
            0nat
        }
    }
}

/// Where no hunk header stands between two lines, each side's counter moves on by
/// exactly the lines of that side between them: numbers run on without gaps.
pub proof fn law_numbers_run_on(ls: Seq<Seq<char>>, from: int, to: int)
    requires
        0 <= from <= to <= ls.len(),
        forall|i: int| from <= i < to ==> !hunk_header(#[trigger] ls[i]),
    ensures
        counters(ls, to).0 == counters(ls, from).0 + old_lines(ls, from, to),
        counters(ls, to).1 == counters(ls, from).1 + new_lines(ls, from, to),
    decreases to - from,
{
    if from < to {
        law_numbers_run_on(ls, from, to - 1);
        assert(!hunk_header(ls[to - 1]));
    }
}

/// A hunk header that can be read starts the numbering of the lines behind it
/// anew, whatever came before.
pub proof fn law_header_reseeds(ls: Seq<Seq<char>>, h: int)
    requires
        0 <= h < ls.len(),
        hunk_starts(ls[h]) is Some,
    ensures
        counters(ls, h + 1) == hunk_starts(ls[h])->0,
{
}

/// Whether a conflict line of this kind stands in our version of the file.
pub open spec fn on_ours(k: ConflictLineKind) -> bool {
    k == ConflictLineKind::Plain || k == ConflictLineKind::Ours
}

/// Whether a conflict line of this kind stands in their version of the file.
pub open spec fn on_theirs(k: ConflictLineKind) -> bool {
    k == ConflictLineKind::Plain || k == ConflictLineKind::Theirs
}

/// The number our version gives to line `i` of the conflict text, if it has it.
pub open spec fn ours_before(kinds: Seq<ConflictLineKind>, i: int) -> nat
    decreases i,
{
    if i <= 0 {
        1
    } else {
        ours_before(kinds, i - 1) + if on_ours(kinds[i - 1]) {
            1nat
        } else {
            0nat
        }
    }
}

/// The number their version gives to line `i` of the conflict text, if it has it.
pub open spec fn theirs_before(kinds: Seq<ConflictLineKind>, i: int) -> nat
    decreases i,
{
    if i <= 0 {
        1
    } else {
        theirs_before(kinds, i - 1) + if on_theirs(kinds[i - 1]) {
            1nat
        } else {
            0nat
        }
    }
}

/// The ours and theirs numbers of line `i` of a conflict text.
pub open spec fn conflict_number(kinds: Seq<ConflictLineKind>, i: int) -> DiffLineNo {
    if 0 <= i < kinds.len() {
        DiffLineNo {
            old: if on_ours(kinds[i]) {
                Some(ours_before(kinds, i) as u32)
            } else {
                None
            },
            new: if on_theirs(kinds[i]) {
                Some(theirs_before(kinds, i) as u32)
            } else {
                None
            },
        }
    } else {
        unnumbered()
    }
}

/// How many lines of the conflict text the pieces cover.
pub open spec fn covered(pieces: Seq<ConflictPiece>) -> nat
    decreases pieces.len(),
{
    if pieces.len() == 0 {
        0
    } else {
        covered(pieces.drop_last()) + match pieces.last() {
            ConflictPiece::Shown { lines } => lines as nat,
            ConflictPiece::Elided { lines } => lines@.len(),
        }
    }
}

/// The numbers of the lines that the pieces show: one per shown line, and none
/// for the one placeholder of an elided run.
pub open spec fn shown_numbers(
    kinds: Seq<ConflictLineKind>,
    pieces: Seq<ConflictPiece>,
) -> Seq<DiffLineNo>
    decreases pieces.len(),
{
    if pieces.len() == 0 {
        Seq::<DiffLineNo>::empty()
    } else {
        let init = shown_numbers(kinds, pieces.drop_last());
        let from = covered(pieces.drop_last());
        match pieces.last() {
            ConflictPiece::Shown { lines } => init + Seq::new(
                lines as nat,
                |j: int| conflict_number(kinds, from + j),
            ),
            ConflictPiece::Elided { .. } => init.push(unnumbered()),
        }
    }
}

/// Both ways to show a run have the same lines covered behind it.
proof fn lemma_same_cover(
    a: Seq<ConflictPiece>,
    x: ConflictPiece,
    y: ConflictPiece,
    b: Seq<ConflictPiece>,
)
    requires
        covered(a.push(x)) == covered(a.push(y)),
    ensures
        covered(a.push(x) + b) == covered(a.push(y) + b),
    decreases b.len(),
{
    if b.len() == 0 {
        assert(a.push(x) + b =~= a.push(x));
        assert(a.push(y) + b =~= a.push(y));
    } else {
        lemma_same_cover(a, x, y, b.drop_last());
        assert((a.push(x) + b).drop_last() =~= a.push(x) + b.drop_last());
        assert((a.push(y) + b).drop_last() =~= a.push(y) + b.drop_last());
    }
}

/// Expanding a hidden run changes no other line's number: the lines before it and
/// those behind it keep theirs, and the lines that come to light have the numbers
/// that continue them.
pub proof fn law_expanding_keeps_numbers(
    kinds: Seq<ConflictLineKind>,
    a: Seq<ConflictPiece>,
    hidden: ConflictPiece,
    shown: ConflictPiece,
    b: Seq<ConflictPiece>,
)
    requires
        hidden is Elided,
        shown is Shown,
        shown->Shown_lines == hidden->Elided_lines@.len(),
    ensures
        ({
            let n = shown->Shown_lines as int;
            let at = shown_numbers(kinds, a).len() as int;
            let before = shown_numbers(kinds, a.push(hidden) + b);
            let after = shown_numbers(kinds, a.push(shown) + b);
            &&& at + 1 <= before.len()
            &&& after.len() == before.len() - 1 + n
            &&& before.take(at) == shown_numbers(kinds, a)
            &&& before[at] == unnumbered()
            &&& after.take(at) == before.take(at)
            &&& after.skip(at + n) == before.skip(at + 1)
            &&& forall|j: int|
                0 <= j < n ==> #[trigger] after[at + j] == conflict_number(kinds, covered(a) + j)
        }),
    decreases b.len(),
{
    let n = shown->Shown_lines as int;
    let at = shown_numbers(kinds, a).len() as int;
    let before = shown_numbers(kinds, a.push(hidden) + b);
    let after = shown_numbers(kinds, a.push(shown) + b);
    if b.len() == 0 {
        assert(a.push(hidden) + b =~= a.push(hidden));
        assert(a.push(shown) + b =~= a.push(shown));
        assert(a.push(hidden).drop_last() =~= a);
        assert(a.push(shown).drop_last() =~= a);
    } else {
        let c = b.drop_last();
        law_expanding_keeps_numbers(kinds, a, hidden, shown, c);
        assert(a.push(hidden).drop_last() =~= a);
        assert(a.push(shown).drop_last() =~= a);
        lemma_same_cover(a, hidden, shown, c);
        let before_c = shown_numbers(kinds, a.push(hidden) + c);
        let after_c = shown_numbers(kinds, a.push(shown) + c);
        assert((a.push(hidden) + b).drop_last() =~= a.push(hidden) + c);
        assert((a.push(shown) + b).drop_last() =~= a.push(shown) + c);
        assert(before.take(at) =~= before_c.take(at));
        assert(after.take(at) =~= after_c.take(at));
        let more = before.skip(before_c.len() as int);
        assert(after.skip(after_c.len() as int) =~= more);
        assert(before.skip(at + 1) =~= before_c.skip(at + 1) + more);
        assert(after.skip(at + n) =~= after_c.skip(at + n) + more);
        assert forall|j: int| 0 <= j < n implies #[trigger] after[at + j] == conflict_number(
            kinds,
            covered(a) + j,
        ) by {
            assert(after[at + j] == after_c[at + j]);
        }
    }
    assert(after.take(at) =~= before.take(at));
}

/// The numbers of one file's section of the conflict view: its header line, then
/// the shown lines or the notice of a structural conflict.
pub open spec fn file_numbers(fv: ConflictFileView) -> Seq<DiffLineNo> {
    seq![unnumbered()] + if fv.resolvable {
        shown_numbers(fv.kinds@, fv.pieces@)
    } else {
        seq![unnumbered()]
    }
}

/// The numbers of every line of the conflict view.
pub open spec fn view_numbers(view: Seq<ConflictFileView>) -> Seq<DiffLineNo>
    decreases view.len(),
{
    if view.len() == 0 {
        Seq::<DiffLineNo>::empty()
    } else {
        view_numbers(view.drop_last()) + file_numbers(view.last())
    }
}

/// Whether a file's numbers and line counts fit the machine's integers.
pub open spec fn file_fits(fv: ConflictFileView) -> bool {
    &&& ours_before(fv.kinds@, fv.kinds@.len() as int) <= u32::MAX
    &&& theirs_before(fv.kinds@, fv.kinds@.len() as int) <= u32::MAX
    &&& covered(fv.pieces@) <= usize::MAX
}

proof fn lemma_sides_grow(kinds: Seq<ConflictLineKind>, i: int, j: int)
    requires
        0 <= i <= j,
    ensures
        ours_before(kinds, i) <= ours_before(kinds, j),
        theirs_before(kinds, i) <= theirs_before(kinds, j),
    decreases j,
{
    if i < j {
        lemma_sides_grow(kinds, i, j - 1);
    }
}

proof fn lemma_covered_grows(pieces: Seq<ConflictPiece>, i: int)
    requires
        0 <= i <= pieces.len(),
    ensures
        covered(pieces.take(i)) <= covered(pieces),
    decreases pieces.len() - i,
{
    if i < pieces.len() {
        lemma_covered_grows(pieces, i + 1);
        assert(pieces.take(i + 1).drop_last() =~= pieces.take(i));
    } else {
        assert(pieces.take(i) =~= pieces);
    }
}

/// The numbers of every line of a conflict text.
fn number_conflict_text(kinds: &Vec<ConflictLineKind>) -> (r: Vec<DiffLineNo>)
    requires
        ours_before(kinds@, kinds@.len() as int) <= u32::MAX,
        theirs_before(kinds@, kinds@.len() as int) <= u32::MAX,
    ensures
        r@.len() == kinds@.len(),
        forall|i: int| 0 <= i < r@.len() ==> #[trigger] r@[i] == conflict_number(kinds@, i),
{
    let mut nums: Vec<DiffLineNo> = Vec::new();
    let mut ours: u32 = 1;
    let mut theirs: u32 = 1;
    let mut i: usize = 0;
    while i < kinds.len()
        invariant
            i <= kinds.len(),
            ours_before(kinds@, kinds@.len() as int) <= u32::MAX,
            theirs_before(kinds@, kinds@.len() as int) <= u32::MAX,
            ours == ours_before(kinds@, i as int),
            theirs == theirs_before(kinds@, i as int),
            nums@.len() == i,
            forall|j: int| 0 <= j < i ==> #[trigger] nums@[j] == conflict_number(kinds@, j),
        decreases kinds.len() - i,
    {
        proof {
            lemma_sides_grow(kinds@, i + 1, kinds@.len() as int);
        }
        match kinds[i] {
            ConflictLineKind::Plain => {
                nums.push(DiffLineNo { old: Some(ours), new: Some(theirs) });
                ours += 1;
                theirs += 1;
            },
            ConflictLineKind::Ours => {
                nums.push(DiffLineNo { old: Some(ours), new: None });
                ours += 1;
            },
            ConflictLineKind::Theirs => {
                nums.push(DiffLineNo { old: None, new: Some(theirs) });
                theirs += 1;
            },
            _ => {
                nums.push(DiffLineNo { old: None, new: None });
            },
        }
        i += 1;
    }
    nums
}

/// The numbers of the lines that a resolvable file's pieces show.
fn project_pieces(fv: &ConflictFileView) -> (r: Vec<DiffLineNo>)
    requires
        file_fits(*fv),
    ensures
        r@ == shown_numbers(fv.kinds@, fv.pieces@),
{
    let nums = number_conflict_text(&fv.kinds);
    let mut out: Vec<DiffLineNo> = Vec::new();
    let mut cursor: usize = 0;
    let mut p: usize = 0;
    let ghost kinds = fv.kinds@;
    let ghost pieces = fv.pieces@;
    while p < fv.pieces.len()
        invariant
            p <= fv.pieces.len(),
            kinds == fv.kinds@,
            pieces == fv.pieces@,
            covered(pieces) <= usize::MAX,
            nums@.len() == kinds.len(),
            forall|i: int| 0 <= i < nums@.len() ==> #[trigger] nums@[i] == conflict_number(kinds, i),
            cursor == covered(pieces.take(p as int)),
            out@ == shown_numbers(kinds, pieces.take(p as int)),
        decreases fv.pieces.len() - p,
    {
        let ghost head = pieces.take(p + 1);
        proof {
            lemma_covered_grows(pieces, p + 1);
            assert(head.drop_last() =~= pieces.take(p as int));
            assert(head.last() == pieces[p as int]);
        }
        let ghost from = cursor;
        let ghost before = out@;
        match &fv.pieces[p] {
            ConflictPiece::Shown { lines } => {
                let mut j: usize = 0;
                while j < *lines
                    invariant
                        j <= *lines,
                        from + *lines <= usize::MAX,
                        cursor == from + j,
                        nums@.len() == kinds.len(),
                        forall|i: int|
                            0 <= i < nums@.len() ==> #[trigger] nums@[i] == conflict_number(
                                kinds,
                                i,
                            ),
                        out@ == before + Seq::new(
                            j as nat,
                            |k: int| conflict_number(kinds, from + k),
                        ),
                    decreases *lines - j,
                {
                    let n = if cursor < nums.len() {
                        nums[cursor]
                    } else {
                        DiffLineNo { old: None, new: None }
                    };
                    assert(n == conflict_number(kinds, from + j));
                    out.push(n);
                    cursor += 1;
                    j += 1;
                    assert(out@ =~= before + Seq::new(
                        j as nat,
                        |k: int| conflict_number(kinds, from + k),
                    ));
                }
            },
            ConflictPiece::Elided { lines } => {
                cursor += lines.len();
                out.push(DiffLineNo { old: None, new: None });
            },
        }
        assert(out@ =~= shown_numbers(kinds, head));
        p += 1;
    }
    assert(pieces.take(p as int) =~= pieces);
    out
}

/// The ours and theirs numbers of every line of the conflict view; ours stands in
/// the old slot, theirs in the new one.
pub fn conflict_line_numbers(view: &[ConflictFileView]) -> (r: Vec<DiffLineNo>)
    requires
        forall|i: int| 0 <= i < view@.len() && view@[i].resolvable ==> #[trigger] file_fits(view@[i]),
    ensures
        r@ == view_numbers(view@),
{
    let mut out: Vec<DiffLineNo> = Vec::new();
    let mut f: usize = 0;
    while f < view.len()
        invariant
            f <= view.len(),
            forall|i: int|
                0 <= i < view@.len() && view@[i].resolvable ==> #[trigger] file_fits(view@[i]),
            out@ == view_numbers(view@.take(f as int)),
        decreases view.len() - f,
    {
        let ghost head = view@.take(f + 1);
        assert(head.drop_last() =~= view@.take(f as int));
        assert(head.last() == view@[f as int]);
        let fv = &view[f];
        let ghost before = out@;
        out.push(DiffLineNo { old: None, new: None });
        if fv.resolvable {
            assert(file_fits(view@[f as int]));
            let mut shown = project_pieces(fv);
            out.append(&mut shown);
        } else {
            out.push(DiffLineNo { old: None, new: None });
        }
        assert(out@ =~= before + file_numbers(*fv));
        f += 1;
    }
    assert(view@.take(f as int) =~= view@);
    out
}

/// Which file a diff line belongs to is told by its first character: a blank both, a
/// minus the old one, a plus the new one, and nothing else any, nor do the lines that
/// name the two files.
pub proof fn law_sides_follow_the_sign(l: Seq<char>)
    ensures
        l.len() > 0 && l[0] == ' ' ==> counts_old(l) && counts_new(l),
        l.len() > 0 && l[0] == '-' ==> !counts_new(l) && (counts_old(l) <==> !"--- "@.is_prefix_of(l)),
        l.len() > 0 && l[0] == '+' ==> !counts_old(l) && (counts_new(l) <==> !"+++ "@.is_prefix_of(l)),
        l.len() == 0 || (l[0] != ' ' && l[0] != '-' && l[0] != '+') ==> !counts_old(l)
            && !counts_new(l),
{
    reveal_strlit("@@");
    reveal_strlit("diff ");
    reveal_strlit("--- ");
    reveal_strlit("+++ ");
    reveal_strlit("index ");
    if hunk_header(l) {
        assert("@@"@[0] == l.subrange(0, 2)[0]);
    }
    if "diff "@.is_prefix_of(l) {
        assert("diff "@[0] == l.subrange(0, 5)[0]);
    }
    if "--- "@.is_prefix_of(l) {
        assert("--- "@[0] == l.subrange(0, 4)[0]);
    }
    if "+++ "@.is_prefix_of(l) {
        assert("+++ "@[0] == l.subrange(0, 4)[0]);
    }
    if "index "@.is_prefix_of(l) {
        assert("index "@[0] == l.subrange(0, 6)[0]);
    }
}

proof fn lemma_sides_listed(ls: Seq<Seq<char>>, from: int, to: int, at: Seq<int>, old_side: bool)
    requires
        indices::lists(
            at,
            from,
            to,
            |i: int|
                if old_side {
                    counts_old(ls[i])
                } else {
                    counts_new(ls[i])
                },
        ),
    ensures
        old_side ==> old_lines(ls, from, to) == at.len(),
        !old_side ==> new_lines(ls, from, to) == at.len(),
    decreases to - from,
{
    let p = |i: int|
        if old_side {
            counts_old(ls[i])
        } else {
            counts_new(ls[i])
        };
    indices::lemma_lists_step(at, from, to, p);
    if from < to {
        if p(to - 1) {
            lemma_sides_listed(ls, from, to - 1, at.drop_last(), old_side);
        } else {
            lemma_sides_listed(ls, from, to - 1, at, old_side);
        }
    }
}

/// The lines of a hunk are numbered from what its header says: under the header at `h`
/// a line gets, on each side it belongs to, the side's start and one more for every
/// line of that side in between; on the other side it gets none. `olds` and `news`
/// list the lines in between.
pub proof fn law_lines_are_numbered_from_their_header(
    text: &str,
    r: Vec<DiffLineNo>,
    h: int,
    i: int,
    start: (u32, u32),
    olds: Seq<int>,
    news: Seq<int>,
)
    requires
        call_ensures(diff_line_numbers, (text,), r),
        counters_fit(text::lines(text@)),
        0 <= h < i < text::lines(text@).len(),
        hunk_starts(text::lines(text@)[h]) == Some((start.0 as nat, start.1 as nat)),
        forall|m: int| h < m < i ==> !hunk_header(#[trigger] text::lines(text@)[m]),
        indices::lists(olds, h + 1, i, |m: int| counts_old(text::lines(text@)[m])),
        indices::lists(news, h + 1, i, |m: int| counts_new(text::lines(text@)[m])),
    ensures
        r@.len() == text::lines(text@).len(),
        match r@[i].old {
            Some(n) => counts_old(text::lines(text@)[i]) && n == start.0 + olds.len(),
            None => !counts_old(text::lines(text@)[i]),
        },
        match r@[i].new {
            Some(n) => counts_new(text::lines(text@)[i]) && n == start.1 + news.len(),
            None => !counts_new(text::lines(text@)[i]),
        },
{
    let ls = text::lines(text@);
    law_header_reseeds(ls, h);
    law_numbers_run_on(ls, h + 1, i);
    lemma_lists_same(
        olds,
        h + 1,
        i,
        |m: int| counts_old(ls[m]),
        |m: int|
            if true {
                counts_old(ls[m])
            } else {
                counts_new(ls[m])
            },
    );
    lemma_lists_same(
        news,
        h + 1,
        i,
        |m: int| counts_new(ls[m]),
        |m: int|
            if false {
                counts_old(ls[m])
            } else {
                counts_new(ls[m])
            },
    );
    lemma_sides_listed(ls, h + 1, i, olds, true);
    lemma_sides_listed(ls, h + 1, i, news, false);
    assert(r@[i] == line_number(ls, i));
    assert(counters(ls, i).0 <= u32::MAX && counters(ls, i).1 <= u32::MAX);
}

proof fn lemma_lists_same(
    at: Seq<int>,
    from: int,
    to: int,
    p: spec_fn(int) -> bool,
    q: spec_fn(int) -> bool,
)
    requires
        indices::lists(at, from, to, p),
        forall|i: int| #[trigger] p(i) == q(i),
    ensures
        indices::lists(at, from, to, q),
{
    assert forall|k: int| 0 <= k < at.len() implies from <= #[trigger] at[k] < to && q(at[k]) by {
        assert(p(at[k]));
    }
    assert forall|x: int| from <= x < to && q(x) implies #[trigger] at.contains(x) by {
        assert(p(x));
    }
}

/// A line of a conflicted file is numbered on each side it belongs to by how many
/// lines of that side stand above it: a plain line on both, one of ours or theirs on
/// its own, a marker and a line of the base on none. `ours` and `theirs` list the
/// lines above.
pub proof fn law_conflict_lines_are_numbered_by_side(
    kinds: Seq<ConflictLineKind>,
    i: int,
    ours: Seq<int>,
    theirs: Seq<int>,
)
    requires
        0 <= i < kinds.len() < u32::MAX,
        indices::lists(
            ours,
            0,
            i,
            |m: int| kinds[m] == ConflictLineKind::Plain || kinds[m] == ConflictLineKind::Ours,
        ),
        indices::lists(
            theirs,
            0,
            i,
            |m: int| kinds[m] == ConflictLineKind::Plain || kinds[m] == ConflictLineKind::Theirs,
        ),
    ensures
        match conflict_number(kinds, i).old {
            Some(n) => (kinds[i] == ConflictLineKind::Plain || kinds[i] == ConflictLineKind::Ours)
                && n == ours.len() + 1,
            None => kinds[i] != ConflictLineKind::Plain && kinds[i] != ConflictLineKind::Ours,
        },
        match conflict_number(kinds, i).new {
            Some(n) => (kinds[i] == ConflictLineKind::Plain || kinds[i] == ConflictLineKind::Theirs)
                && n == theirs.len() + 1,
            None => kinds[i] != ConflictLineKind::Plain && kinds[i] != ConflictLineKind::Theirs,
        },
{
    lemma_ours_listed(kinds, i, ours);
    lemma_theirs_listed(kinds, i, theirs);
}

proof fn lemma_ours_listed(kinds: Seq<ConflictLineKind>, i: int, at: Seq<int>)
    requires
        0 <= i <= kinds.len(),
        indices::lists(
            at,
            0,
            i,
            |m: int| kinds[m] == ConflictLineKind::Plain || kinds[m] == ConflictLineKind::Ours,
        ),
    ensures
        ours_before(kinds, i) == at.len() + 1,
        at.len() <= i,
    decreases i,
{
    let p = |m: int| kinds[m] == ConflictLineKind::Plain || kinds[m] == ConflictLineKind::Ours;
    indices::lemma_lists_step(at, 0, i, p);
    if i > 0 {
        if p(i - 1) {
            lemma_ours_listed(kinds, i - 1, at.drop_last());
        } else {
            lemma_ours_listed(kinds, i - 1, at);
        }
    }
}

proof fn lemma_theirs_listed(kinds: Seq<ConflictLineKind>, i: int, at: Seq<int>)
    requires
        0 <= i <= kinds.len(),
        indices::lists(
            at,
            0,
            i,
            |m: int| kinds[m] == ConflictLineKind::Plain || kinds[m] == ConflictLineKind::Theirs,
        ),
    ensures
        theirs_before(kinds, i) == at.len() + 1,
        at.len() <= i,
    decreases i,
{
    let p = |m: int| kinds[m] == ConflictLineKind::Plain || kinds[m] == ConflictLineKind::Theirs;
    indices::lemma_lists_step(at, 0, i, p);
    if i > 0 {
        if p(i - 1) {
            lemma_theirs_listed(kinds, i - 1, at.drop_last());
        } else {
            lemma_theirs_listed(kinds, i - 1, at);
        }
    }
}

/// Every file of the conflict view begins with a line without numbers, its header; a
/// file that cannot be resolved has one more, and of the others each shown line has
/// its own number and each hidden run none.
pub proof fn law_each_file_is_numbered_anew(
    view: Seq<ConflictFileView>,
    f: ConflictFileView,
    lines: usize,
)
    ensures
        ({
            let before = view_numbers(view);
            let all = view_numbers(view.push(f));
            &&& before.is_prefix_of(all)
            &&& all.len() > before.len()
            &&& all[before.len() as int] == unnumbered()
            &&& !f.resolvable ==> all.len() == before.len() + 2 && all[before.len() as int + 1]
                == unnumbered()
            &&& f.resolvable && f.pieces@ == seq![ConflictPiece::Shown { lines }] ==> all.len()
                == before.len() + 1 + lines && forall|j: int|
                0 <= j < lines ==> #[trigger] all[before.len() + 1 + j] == conflict_number(
                    f.kinds@,
                    j,
                )
        }),
{
    let before = view_numbers(view);
    let all = view_numbers(view.push(f));
    assert(view.push(f).drop_last() =~= view);
    assert(before =~= all.subrange(0, before.len() as int));
    if f.resolvable && f.pieces@ == seq![ConflictPiece::Shown { lines }] {
        let one = seq![ConflictPiece::Shown { lines }];
        assert(one.drop_last() =~= Seq::<ConflictPiece>::empty());
        assert(covered(Seq::<ConflictPiece>::empty()) == 0);
        assert(shown_numbers(f.kinds@, Seq::<ConflictPiece>::empty()).len() == 0);
        let own = shown_numbers(f.kinds@, one);
        assert(own.len() == lines);
        assert forall|j: int| 0 <= j < lines implies #[trigger] all[before.len() + 1 + j]
            == conflict_number(f.kinds@, j) by {
            assert(own[j] == conflict_number(f.kinds@, j));
        }
    }
}

} // verus!
