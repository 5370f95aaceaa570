//! The conflict view: its layout lines, the buttons that keep one side of a
//! conflict block, and the way from a buffer line to a file, a block or a gap.
use crate::indices;
use crate::model::{ConflictFileView, ConflictLineKind};
use crate::text;
use crate::white;
use vstd::prelude::*;

verus! {

/// The line that stands for a run of hidden lines.
pub const CONFLICT_ELISION_LINE: &'static str = "\u{22ef} hidden lines \u{22ef}";

/// The line that stands for a file whose conflict is not one of text.
pub const CONFLICT_STRUCTURAL_NOTICE: &'static str =
    "⚠ structural conflict — can't be resolved as text here; use “Abort rewrite”";

/// Which side of a conflict block is kept.
#[derive(Clone, Copy, Debug, PartialEq, Eq, Structural)]
pub enum Side {
    Ours,
    Theirs,
    Both,
}

/// The header line of a file's section.
pub open spec fn header_of(path: Seq<char>) -> Seq<char> {
    "\u{2500}\u{2500}\u{2500} "@ + path + " \u{2500}\u{2500}\u{2500}"@
}

/// The path that a header line names.
pub open spec fn header_path(l: Seq<char>) -> Option<Seq<char>> {
    if "\u{2500}\u{2500}\u{2500} "@.is_prefix_of(l) && " \u{2500}\u{2500}\u{2500}"@.is_suffix_of(
        l.skip(4),
    ) {
        Some(l.subrange(4, l.len() - 4))
    } else {
        None
    }
}

/// Whether a line belongs to the layout of the view and must not be edited.
pub open spec fn protected_line(l: Seq<char>) -> bool {
    header_path(l) is Some || l == CONFLICT_ELISION_LINE@ || l == CONFLICT_STRUCTURAL_NOTICE@
}

/// The header line of the section of the file at `path`.
pub fn conflict_header_line(path: &str) -> (r: String)
    ensures
        r@ == header_of(path@),
{
    let mut v = text::chars_of("\u{2500}\u{2500}\u{2500} ");
    text::push_text(&mut v, path);
    text::push_text(&mut v, " \u{2500}\u{2500}\u{2500}");
    text::string_of(&v)
}

fn header_path_chars(l: &Vec<char>) -> (r: Option<(usize, usize)>)
    ensures
        (match r {
            Some(p) => p.0 <= p.1 <= l@.len() && header_path(l@) == Some(
                l@.subrange(p.0 as int, p.1 as int),
            ),
            None => header_path(l@) is None,
        }),
{
    proof {
        reveal_strlit("\u{2500}\u{2500}\u{2500} ");
        reveal_strlit(" \u{2500}\u{2500}\u{2500}");
    }
    if !text::starts_with(l, "\u{2500}\u{2500}\u{2500} ") {
        return None;
    }
    let n: usize = l.len();
    let tail = text::chars_of(" \u{2500}\u{2500}\u{2500}");
    let ghost suffix = " \u{2500}\u{2500}\u{2500}"@;
    if n < 8 {
        assert(l@.skip(4).len() == n - 4);
        return None;
    }
    let rest = text::slice_of(l, 4, n);
    assert(rest@ =~= l@.skip(4));
    if text::matches_at(&rest, n - 8, &tail) {
        assert(rest@.subrange(n - 8, n - 4) =~= suffix);
        assert(rest@.subrange(rest@.len() - suffix.len(), rest@.len() as int) =~= suffix);
        Some((4, n - 4))
    } else {
        assert(!suffix.is_suffix_of(rest@)) by {
            if suffix.is_suffix_of(rest@) {
                assert(rest@.subrange(n - 8, n - 8 + 4) =~= suffix);
            }
        }
        None
    }
}

/// The path that a header line names; `None` for any other line.
pub fn conflict_header_path(line: &str) -> (r: Option<&str>)
    ensures
        (match r {
            Some(p) => header_path(line@) == Some(p@),
            None => header_path(line@) is None,
        }),
{
    match header_path_chars(&text::chars_of(line)) {
        Some((a, b)) => Some(line.substring_char(a, b)),
        None => None,
    }
}

fn is_header(l: &Vec<char>) -> (r: bool)
    ensures
        r == (header_path(l@) is Some),
{
    header_path_chars(l).is_some()
}

/// Whether `line` belongs to the layout of the view and must not be edited.
pub fn is_conflict_protected_line(line: &str) -> (r: bool)
    ensures
        r == protected_line(line@),
{
    is_header(&text::chars_of(line)) || text::same_text(line, CONFLICT_ELISION_LINE)
        || text::same_text(line, CONFLICT_STRUCTURAL_NOTICE)
}

/// Whether an edit of the lines `first` to `last` touches the layout of the view.
pub open spec fn touches_layout(ls: Seq<Seq<char>>, first: int, last: int) -> bool {
    exists|i: int| first <= i <= last && 0 <= i < ls.len() && protected_line(#[trigger] ls[i])
}

/// Whether an edit of the buffer lines `first` to `last` touches a layout line.
pub fn edit_touches_layout(text: &str, first: usize, last: usize) -> (r: bool)
    ensures
        r == touches_layout(text::lines(text@), first as int, last as int),
{
    let ls = text::lines_of(text);
    let ghost gl = text::lines(text@);
    let mut i: usize = first;
    while i < ls.len() && i <= last
        invariant
            first <= i,
            gl == text::lines(text@),
            gl == text::deep(ls@),
            forall|j: int| first <= j < i && j < gl.len() ==> !protected_line(#[trigger] gl[j]),
        decreases ls.len() - i,
    {
        assert(gl[i as int] == ls@[i as int]@);
        let line = text::string_of(&ls[i]);
        if is_conflict_protected_line(line.as_str()) {
            assert(protected_line(gl[i as int]));
            return true;
        }
        i += 1;
    }
    false
}

/// A header line names the path that it was made for.
pub proof fn law_header_names_its_path(path: Seq<char>)
    ensures
        header_path(header_of(path)) == Some(path),
        protected_line(header_of(path)),
{
    reveal_strlit("\u{2500}\u{2500}\u{2500} ");
    reveal_strlit(" \u{2500}\u{2500}\u{2500}");
    let l = header_of(path);
    assert(l.subrange(0, 4) =~= "\u{2500}\u{2500}\u{2500} "@);
    let rest = l.skip(4);
    let suffix = " \u{2500}\u{2500}\u{2500}"@;
    assert(rest =~= path + suffix);
    assert(rest.subrange(rest.len() - suffix.len(), rest.len() as int) =~= suffix);
    assert(l.subrange(4, l.len() - 4) =~= path);
}

/// The side that the button on a marker line keeps.
pub open spec fn marker_side(k: ConflictLineKind) -> Option<Side> {
    match k {
        ConflictLineKind::MarkerOurs => Some(Side::Ours),
        ConflictLineKind::MarkerSep => Some(Side::Both),
        ConflictLineKind::MarkerTheirs => Some(Side::Theirs),
        _ => None,
    }
}

/// The side that the button on a marker line keeps; `None` on any other line.
pub fn resolve_cue(kind: ConflictLineKind) -> (r: Option<Side>)
    ensures
        r == marker_side(kind),
{
    match kind {
        ConflictLineKind::MarkerOurs => Some(Side::Ours),
        ConflictLineKind::MarkerSep => Some(Side::Both),
        ConflictLineKind::MarkerTheirs => Some(Side::Theirs),
        _ => None,
    }
}

/// The side that a click on buffer `line` keeps, given what each line belongs to.
pub fn conflict_side_at_line(kinds: &[ConflictLineKind], line: usize) -> (r: Option<Side>)
    ensures
        r == if line < kinds@.len() {
            marker_side(kinds@[line as int])
        } else {
            None
        },
{
    if line < kinds.len() {
        resolve_cue(kinds[line])
    } else {
        None
    }
}

/// Which line of the view carries the button that shows more of its file: one that
/// stands for a hidden run.
pub open spec fn expands(ls: Seq<Seq<char>>) -> Seq<bool> {
    ls.map_values(|l: Seq<char>| l == CONFLICT_ELISION_LINE@)
}

/// The side that the button on each line keeps; a line without one has none.
pub open spec fn keeps(kinds: Seq<ConflictLineKind>, n: int) -> Seq<Option<Side>> {
    Seq::new(
        n as nat,
        |i: int|
            if i < kinds.len() {
                marker_side(kinds[i])
            } else {
                None
            },
    )
}

/// The buttons of the conflict view, line by line: whether one shows more of the
/// file, and the side that one keeps.
pub fn conflict_cue_cells(text: &str, kinds: &[ConflictLineKind]) -> (r: (
    Vec<bool>,
    Vec<Option<Side>>,
))
    ensures
        r.0@ == expands(text::lines(text@)),
        r.1@ == keeps(kinds@, text::lines(text@).len() as int),
{
    let ls = text::lines_of(text);
    let ghost gl = text::lines(text@);
    let elision = text::chars_of(CONFLICT_ELISION_LINE);
    let mut expand: Vec<bool> = Vec::new();
    let mut keep: Vec<Option<Side>> = Vec::new();
    let mut i: usize = 0;
    while i < ls.len()
        invariant
            i <= ls@.len(),
            gl == text::deep(ls@),
            elision@ == CONFLICT_ELISION_LINE@,
            expand@ == expands(gl).take(i as int),
            keep@ == keeps(kinds@, i as int),
        decreases ls.len() - i,
    {
        assert(gl[i as int] == ls@[i as int]@);
        expand.push(text::same_chars(&ls[i], &elision));
        keep.push(conflict_side_at_line(kinds, i));
        assert(expand@ =~= expands(gl).take(i + 1));
        assert(keep@ =~= keeps(kinds@, i + 1));
        i += 1;
    }
    assert(expands(gl).take(i as int) =~= expands(gl));
    (expand, keep)
}

/// Whether `l` begins with seven or more of one marker character.
pub open spec fn marker_line(l: Seq<char>) -> bool {
    l.len() >= 7 && (l[0] == '<' || l[0] == '=' || l[0] == '>') && forall|i: int|
        0 <= i < 7 ==> #[trigger] l[i] == l[0]
}

/// A marker line without the cue that `cap` begins; any other line as it is.
pub open spec fn without_cue(l: Seq<char>, cap: Seq<char>) -> Seq<char> {
    if marker_line(l) {
        match text::find_from(l, cap, 0) {
            Some(i) => white::trim_end(l.take(i)),
            None => l,
        }
    } else {
        l
    }
}

fn is_marker_line(l: &Vec<char>) -> (r: bool)
    ensures
        r == marker_line(l@),
{
    if l.len() < 7 || !(l[0] == '<' || l[0] == '=' || l[0] == '>') {
        return false;
    }
    let mut i: usize = 0;
    while i < 7
        invariant
            i <= 7,
            l@.len() >= 7,
            forall|j: int| 0 <= j < i ==> #[trigger] l@[j] == l@[0],
        decreases 7 - i,
    {
        if l[i] != l[0] {
            assert(l@[i as int] != l@[0]);
            return false;
        }
        i += 1;
    }
    true
}

/// Takes the cue that begins with `cap` off a conflict-marker line.
pub fn strip_marker_cue(line: &str, cap: &str) -> (r: String)
    ensures
        r@ == without_cue(line@, cap@),
{
    let l = text::chars_of(line);
    if is_marker_line(&l) {
        match text::find_chars(&l, &text::chars_of(cap), 0) {
            Some(i) => {
                let head = text::slice_of(&l, 0, i);
                assert(head@ =~= l@.take(i as int));
                return text::string_of(&white::trim_end_chars(&head));
            },
            None => {},
        }
    }
    line.to_string()
}

/// The cue texts behind the three markers of a conflict block.
#[derive(Clone, Debug)]
pub struct CueLabels {
    pub ours: String,
    pub both: String,
    pub theirs: String,
}

/// The cue text of a side.
pub open spec fn cue_label(labels: CueLabels, side: Side) -> Seq<char> {
    match side {
        Side::Ours => labels.ours@,
        Side::Both => labels.both@,
        Side::Theirs => labels.theirs@,
    }
}

/// A line with its cue behind it, where it is a marker.
pub open spec fn cued_line(l: Seq<char>, kinds: Seq<ConflictLineKind>, labels: CueLabels, i: int) -> Seq<
    char,
> {
    if i < kinds.len() && marker_side(kinds[i]) is Some {
        l + cue_label(labels, marker_side(kinds[i])->0)
    } else {
        l
    }
}

/// All lines, each marker with its cue.
pub open spec fn cued_lines(
    ls: Seq<Seq<char>>,
    kinds: Seq<ConflictLineKind>,
    labels: CueLabels,
) -> Seq<Seq<char>> {
    Seq::new(ls.len(), |i: int| cued_line(ls[i], kinds, labels, i))
}

/// `text` with its cue behind every conflict marker.
pub fn with_resolve_cues(text: &str, kinds: &[ConflictLineKind], labels: &CueLabels) -> (r: String)
    ensures
        r@ == text::join_with(cued_lines(text::lines(text@), kinds@, *labels), '\n'),
{
    let ls = text::lines_of(text);
    let ghost gl = text::lines(text@);
    let ghost want = cued_lines(gl, kinds@, *labels);
    let mut out: Vec<Vec<char>> = Vec::new();
    let mut i: usize = 0;
    while i < ls.len()
        invariant
            i <= ls@.len(),
            gl == text::deep(ls@),
            want == cued_lines(gl, kinds@, *labels),
            text::deep(out@) == want.take(i as int),
        decreases ls.len() - i,
    {
        assert(gl[i as int] == ls@[i as int]@);
        let mut l = text::copy_of(&ls[i]);
        match conflict_side_at_line(kinds, i) {
            Some(side) => {
                let label = match side {
                    Side::Ours => labels.ours.as_str(),
                    Side::Both => labels.both.as_str(),
                    Side::Theirs => labels.theirs.as_str(),
                };
                text::push_text(&mut l, label);
            },
            None => {},
        }
        assert(l@ == want[i as int]);
        let ghost od = out@;
        out.push(l);
        assert(text::deep(out@) =~= text::deep(od).push(l@));
        i += 1;
        assert(text::deep(out@) =~= want.take(i as int));
    }
    assert(want.take(i as int) =~= want);
    text::string_of(&text::join_chars(&out, '\n'))
}

/// Taking a cue off undoes putting it on: where the cue stands behind blanks, and the
/// marker does not end in one, the bare marker is back.
pub proof fn law_stripping_undoes_the_cue(
    l: Seq<char>,
    gap: Seq<char>,
    cap: Seq<char>,
    rest: Seq<char>,
)
    requires
        marker_line(l),
        !white::is_white(l.last()),
        white::all_white(gap),
        forall|i: int|
            0 <= i < l.len() + gap.len() ==> !#[trigger] text::occurs_at(
                l + (gap + cap + rest),
                i,
                cap,
            ),
    ensures
        without_cue(l + (gap + cap + rest), cap) == l,
{
    let cued = l + (gap + cap + rest);
    let at = (l + gap).len() as int;
    assert(marker_line(cued)) by {
        assert forall|i: int| 0 <= i < 7 implies #[trigger] cued[i] == cued[0] by {
            assert(l[i] == l[0]);
        }
    }
    assert(cued.subrange(at, at + cap.len()) =~= cap);
    assert(text::occurs_at(cued, at, cap));
    text::lemma_find_first(cued, cap, 0, at);
    assert(cued.take(at) =~= l + gap);
    white::lemma_trim_end_takes_blanks(l, gap);
}

/// The side that a click at `(line, col)` keeps: the click must land on the cue
/// behind a marker.
pub open spec fn cue_side_at(
    ls: Seq<Seq<char>>,
    kinds: Seq<ConflictLineKind>,
    cap: Seq<char>,
    line: int,
    col: int,
) -> Option<Side> {
    if 0 <= line < kinds.len() && marker_side(kinds[line]) is Some {
        let l = if line < ls.len() {
            ls[line]
        } else {
            Seq::<char>::empty()
        };
        match text::find_from(l, cap, 0) {
            Some(i) => if col >= i {
                marker_side(kinds[line])
            } else {
                None
            },
            None => None,
        }
    } else {
        None
    }
}

/// The side that a click at `(line, col)` keeps, where it lands on a marker's cue.
pub fn conflict_cue_side_at(
    text: &str,
    kinds: &[ConflictLineKind],
    cap: &str,
    line: usize,
    col: usize,
) -> (r: Option<Side>)
    ensures
        r == cue_side_at(text::lines(text@), kinds@, cap@, line as int, col as int),
{
    let side = match conflict_side_at_line(kinds, line) {
        Some(side) => side,
        None => {
            return None;
        },
    };
    let ls = text::lines_of(text);
    let ghost gl = text::lines(text@);
    let empty: Vec<char> = Vec::new();
    let l = if line < ls.len() {
        assert(gl[line as int] == ls@[line as int]@);
        &ls[line]
    } else {
        &empty
    };
    match text::find_chars(l, &text::chars_of(cap), 0) {
        Some(i) => if col >= i {
            Some(side)
        } else {
            None
        },
        None => None,
    }
}

/// The lines among the first `n` that open a conflict block.
pub open spec fn openers(kinds: Seq<ConflictLineKind>, n: int) -> Seq<usize>
    decreases n,
{
    if n <= 0 {
        Seq::<usize>::empty()
    } else if kinds[n - 1] == ConflictLineKind::MarkerOurs {
        openers(kinds, n - 1).push((n - 1) as usize)
    } else {
        openers(kinds, n - 1)
    }
}

/// The lines that open a conflict block, in order.
pub fn conflict_block_lines(kinds: &[ConflictLineKind]) -> (r: Vec<usize>)
    ensures
        r@ == openers(kinds@, kinds@.len() as int),
{
    let mut out: Vec<usize> = Vec::new();
    let mut i: usize = 0;
    while i < kinds.len()
        invariant
            i <= kinds@.len(),
            out@ == openers(kinds@, i as int),
        decreases kinds.len() - i,
    {
        if kinds[i] == ConflictLineKind::MarkerOurs {
            out.push(i);
        }
        i += 1;
    }
    out
}

/// The first of the ascending `blocks` behind `caret`.
pub open spec fn block_after(blocks: Seq<usize>, caret: usize) -> Option<usize>
    decreases blocks.len(),
{
    if blocks.len() == 0 {
        None
    } else if blocks[0] > caret {
        Some(blocks[0])
    } else {
        block_after(blocks.skip(1), caret)
    }
}

/// The last of the ascending `blocks` before `caret`.
pub open spec fn block_before(blocks: Seq<usize>, caret: usize) -> Option<usize>
    decreases blocks.len(),
{
    if blocks.len() == 0 {
        None
    } else if blocks.last() < caret {
        Some(blocks.last())
    } else {
        block_before(blocks.drop_last(), caret)
    }
}

/// The block to jump to from line `caret`, forward or back.
pub fn goto_block(blocks: &[usize], caret: usize, forward: bool) -> (r: Option<usize>)
    ensures
        r == if forward {
            block_after(blocks@, caret)
        } else {
            block_before(blocks@, caret)
        },
{
    if forward {
        let mut i: usize = 0;
        assert(blocks@.skip(0) =~= blocks@);
        while i < blocks.len()
            invariant
                i <= blocks@.len(),
                forward,
                block_after(blocks@, caret) == block_after(blocks@.skip(i as int), caret),
            decreases blocks.len() - i,
        {
            assert(blocks@.skip(i as int)[0] == blocks@[i as int]);
            if blocks[i] > caret {
                return Some(blocks[i]);
            }
            assert(blocks@.skip(i as int).skip(1) =~= blocks@.skip(i + 1));
            i += 1;
        }
        None
    } else {
        let mut n: usize = blocks.len();
        assert(blocks@.take(n as int) =~= blocks@);
        while n > 0
            invariant
                n <= blocks@.len(),
                !forward,
                block_before(blocks@, caret) == block_before(blocks@.take(n as int), caret),
            decreases n,
        {
            if blocks[n - 1] < caret {
                return Some(blocks[n - 1]);
            }
            assert(blocks@.take(n as int).drop_last() =~= blocks@.take(n - 1));
            n -= 1;
        }
        None
    }
}

/// Whether there is a block before, and one behind, line `caret`: whether the
/// navigation buttons can be pressed.
pub fn navigable(blocks: &[usize], caret: usize) -> (r: (bool, bool))
    ensures
        r.0 == exists|i: int| 0 <= i < blocks@.len() && #[trigger] blocks@[i] < caret,
        r.1 == exists|i: int| 0 <= i < blocks@.len() && #[trigger] blocks@[i] > caret,
{
    let mut before = false;
    let mut after = false;
    let mut i: usize = 0;
    while i < blocks.len()
        invariant
            i <= blocks@.len(),
            before == exists|j: int| 0 <= j < i && #[trigger] blocks@[j] < caret,
            after == exists|j: int| 0 <= j < i && #[trigger] blocks@[j] > caret,
        decreases blocks.len() - i,
    {
        if blocks[i] < caret {
            before = true;
            assert(blocks@[i as int] < caret);
        }
        if blocks[i] > caret {
            after = true;
            assert(blocks@[i as int] > caret);
        }
        i += 1;
    }
    (before, after)
}

/// The last block opener among the first `n` lines, or -1.
pub open spec fn last_opener(kinds: Seq<ConflictLineKind>, n: int) -> int
    decreases n,
{
    if n <= 0 {
        -1
    } else if kinds[n - 1] == ConflictLineKind::MarkerOurs {
        n - 1
    } else {
        last_opener(kinds, n - 1)
    }
}

/// The first closing marker at or behind line `i`, or the end.
pub open spec fn next_close(kinds: Seq<ConflictLineKind>, i: int) -> int
    decreases kinds.len() - i,
{
    if i >= kinds.len() {
        kinds.len() as int
    } else if kinds[i] == ConflictLineKind::MarkerTheirs {
        i
    } else {
        next_close(kinds, i + 1)
    }
}

/// The lines of kind `want` in `ls[from..to]`, each with a newline.
pub open spec fn kept_lines(
    ls: Seq<Seq<char>>,
    kinds: Seq<ConflictLineKind>,
    want: ConflictLineKind,
    from: int,
    to: int,
) -> Seq<char>
    decreases to - from,
{
    if to <= from {
        Seq::<char>::empty()
    } else {
        let init = kept_lines(ls, kinds, want, from, to - 1);
        if kinds[to - 1] == want {
            init + ls[to - 1].push('\n')
        } else {
            init
        }
    }
}

/// The text that replaces the block `start..=end` when `side` is kept.
pub open spec fn kept_text(
    ls: Seq<Seq<char>>,
    kinds: Seq<ConflictLineKind>,
    side: Side,
    start: int,
    end: int,
) -> Seq<char> {
    let ours = kept_lines(ls, kinds, ConflictLineKind::Ours, start + 1, end);
    let theirs = kept_lines(ls, kinds, ConflictLineKind::Theirs, start + 1, end);
    match side {
        Side::Ours => ours,
        Side::Theirs => theirs,
        Side::Both => ours + theirs,
    }
}

/// The block around `caret` as its first and last line, if the caret is in one.
pub open spec fn block_around(kinds: Seq<ConflictLineKind>, caret: int) -> Option<(int, int)> {
    if kinds.len() == 0 {
        None
    } else {
        let line = if caret < kinds.len() {
            caret
        } else {
            kinds.len() - 1
        };
        let start = last_opener(kinds, line + 1);
        let end = next_close(kinds, start + 1);
        if start >= 0 && end < kinds.len() && line <= end {
            Some((start, end))
        } else {
            None
        }
    }
}

proof fn lemma_last_opener(kinds: Seq<ConflictLineKind>, n: int)
    requires
        0 <= n <= kinds.len(),
    ensures
        -1 <= last_opener(kinds, n) < n || (n == 0 && last_opener(kinds, n) == -1),
    decreases n,
{
    if n > 0 {
        lemma_last_opener(kinds, n - 1);
    }
}

/// Gathers the lines of kind `want` in `ls[from..to]`.
fn gather(
    ls: &Vec<Vec<char>>,
    kinds: &[ConflictLineKind],
    want: ConflictLineKind,
    from: usize,
    to: usize,
) -> (r: Vec<char>)
    requires
        from <= to <= kinds@.len(),
        kinds@.len() <= ls@.len(),
    ensures
        r@ == kept_lines(text::deep(ls@), kinds@, want, from as int, to as int),
{
    let ghost gl = text::deep(ls@);
    let mut out: Vec<char> = Vec::new();
    let mut i: usize = from;
    while i < to
        invariant
            from <= i <= to <= kinds@.len(),
            kinds@.len() <= ls@.len(),
            gl == text::deep(ls@),
            out@ == kept_lines(gl, kinds@, want, from as int, i as int),
        decreases to - i,
    {
        if kinds[i] == want {
            assert(gl[i as int] == ls@[i as int]@);
            text::push_all(&mut out, &ls[i]);
            out.push('\n');
            assert(out@ =~= kept_lines(gl, kinds@, want, from as int, i + 1));
        }
        i += 1;
    }
    out
}

/// The conflict block around `caret_line`, as its first and last line, with the
/// text that replaces it when `side` is kept; `None` outside every block.
pub fn resolve_conflict_block(
    text: &str,
    kinds: &[ConflictLineKind],
    caret_line: usize,
    side: Side,
) -> (r: Option<(usize, usize, String)>)
    requires
        kinds@.len() <= text::lines(text@).len(),
    ensures
        (match r {
            Some(b) => block_around(kinds@, caret_line as int) == Some((b.0 as int, b.1 as int))
                && b.2@ == kept_text(
                text::lines(text@),
                kinds@,
                side,
                b.0 as int,
                b.1 as int,
            ),
            None => block_around(kinds@, caret_line as int) is None,
        }),
{
    let ls = text::lines_of(text);
    let ghost gl = text::lines(text@);
    let n: usize = kinds.len();
    if n == 0 {
        return None;
    }
    let line: usize = if caret_line < n {
        caret_line
    } else {
        n - 1
    };
    let mut s: usize = line + 1;
    while s > 0 && kinds[s - 1] != ConflictLineKind::MarkerOurs
        invariant
            s <= line + 1 <= n,
            n == kinds@.len(),
            last_opener(kinds@, line + 1) == last_opener(kinds@, s as int),
        decreases s,
    {
        s -= 1;
    }
    if s == 0 {
        return None;
    }
    let start: usize = s - 1;
    assert(last_opener(kinds@, line + 1) == start);
    let mut end: usize = start + 1;
    while end < n && kinds[end] != ConflictLineKind::MarkerTheirs
        invariant
            start + 1 <= end <= n,
            n == kinds@.len(),
            next_close(kinds@, start + 1) == next_close(kinds@, end as int),
        decreases n - end,
    {
        end += 1;
    }
    if end >= n || line > end {
        return None;
    }
    let mut out: Vec<char> = Vec::new();
    match side {
        Side::Ours => {
            out = gather(&ls, kinds, ConflictLineKind::Ours, start + 1, end);
        },
        Side::Theirs => {
            out = gather(&ls, kinds, ConflictLineKind::Theirs, start + 1, end);
        },
        Side::Both => {
            out = gather(&ls, kinds, ConflictLineKind::Ours, start + 1, end);
            let theirs = gather(&ls, kinds, ConflictLineKind::Theirs, start + 1, end);
            text::push_all(&mut out, &theirs);
        },
    }
    Some((start, end, text::string_of(&out)))
}

/// A click on any line of a block, its closing marker included, finds the block.
pub proof fn law_every_line_of_a_block_finds_it(
    kinds: Seq<ConflictLineKind>,
    start: int,
    end: int,
    line: int,
)
    requires
        0 <= start <= line <= end < kinds.len(),
        kinds[start] == ConflictLineKind::MarkerOurs,
        kinds[end] == ConflictLineKind::MarkerTheirs,
        forall|i: int|
            start < i < end ==> #[trigger] kinds[i] != ConflictLineKind::MarkerOurs && kinds[i]
                != ConflictLineKind::MarkerTheirs,
    ensures
        block_around(kinds, line) == Some((start, end)),
{
    lemma_opener_found(kinds, start, line + 1);
    lemma_close_found(kinds, start + 1, end);
}

/// What a resolved block was: it runs from an opening to a closing marker around the
/// caret, with no other opening marker up to the caret and no closing one before its
/// end. A caret behind the last line counts as on it.
pub proof fn law_resolved_block_is_the_one_around(
    kinds: Seq<ConflictLineKind>,
    caret: int,
    start: int,
    end: int,
)
    requires
        0 <= caret,
        block_around(kinds, caret) == Some((start, end)),
    ensures
        0 <= start < end < kinds.len(),
        start <= caret,
        caret <= end || end == kinds.len() - 1,
        kinds[start] == ConflictLineKind::MarkerOurs,
        kinds[end] == ConflictLineKind::MarkerTheirs,
        forall|i: int|
            start < i <= caret && i < kinds.len() ==> #[trigger] kinds[i]
                != ConflictLineKind::MarkerOurs,
        forall|i: int|
            start < i < end ==> #[trigger] kinds[i] != ConflictLineKind::MarkerTheirs,
{
    let line = if caret < kinds.len() {
        caret
    } else {
        kinds.len() - 1
    };
    lemma_opener_is_last(kinds, line + 1);
    lemma_close_is_first(kinds, start + 1);
}

/// Between an opening marker and the closing one that ends it, there is always a
/// block to resolve, and it ends there.
pub proof fn law_open_block_is_resolved(
    kinds: Seq<ConflictLineKind>,
    start: int,
    end: int,
    line: int,
)
    requires
        0 <= start <= line <= end < kinds.len(),
        kinds[start] == ConflictLineKind::MarkerOurs,
        kinds[end] == ConflictLineKind::MarkerTheirs,
        forall|i: int|
            start < i < end ==> #[trigger] kinds[i] != ConflictLineKind::MarkerTheirs,
    ensures
        block_around(kinds, line) matches Some(b) && b.1 == end,
{
    lemma_opener_is_last(kinds, line + 1);
    let s = last_opener(kinds, line + 1);
    assert(start <= s);
    assert(s < end);
    lemma_close_found(kinds, s + 1, end);
}

proof fn lemma_opener_is_last(kinds: Seq<ConflictLineKind>, n: int)
    requires
        0 <= n <= kinds.len(),
    ensures
        -1 <= last_opener(kinds, n) < n || (n == 0 && last_opener(kinds, n) == -1),
        last_opener(kinds, n) >= 0 ==> kinds[last_opener(kinds, n)]
            == ConflictLineKind::MarkerOurs,
        forall|i: int|
            last_opener(kinds, n) < i < n ==> #[trigger] kinds[i] != ConflictLineKind::MarkerOurs,
    decreases n,
{
    if n > 0 {
        lemma_opener_is_last(kinds, n - 1);
    }
}

proof fn lemma_close_is_first(kinds: Seq<ConflictLineKind>, i: int)
    requires
        0 <= i <= kinds.len(),
    ensures
        i <= next_close(kinds, i) <= kinds.len(),
        next_close(kinds, i) < kinds.len() ==> kinds[next_close(kinds, i)]
            == ConflictLineKind::MarkerTheirs,
        forall|j: int|
            i <= j < next_close(kinds, i) ==> #[trigger] kinds[j]
                != ConflictLineKind::MarkerTheirs,
    decreases kinds.len() - i,
{
    if i < kinds.len() {
        lemma_close_is_first(kinds, i + 1);
    }
}

/// Lines with a newline behind each, as one text.
proof fn lemma_ended_push(parts: Seq<Seq<char>>, l: Seq<char>)
    ensures
        text::join_with(parts.push(l).push(Seq::<char>::empty()), '\n') == text::join_with(
            parts.push(Seq::<char>::empty()),
            '\n',
        ) + l.push('\n'),
{
    let none = Seq::<char>::empty();
    let one = parts.push(l);
    assert(one.push(none).drop_last() =~= one);
    assert(one.drop_last() =~= parts);
    assert(parts.push(none).drop_last() =~= parts);
    reveal_with_fuel(text::join_with, 3);
    if parts.len() == 0 {
        assert(text::join_with(parts.push(none), '\n') =~= none);
        assert(text::join_with(one, '\n') == l);
    }
    assert(text::join_with(one.push(none), '\n') =~= text::join_with(parts.push(none), '\n')
        + l.push('\n'));
}

proof fn lemma_ended_sum(a: Seq<Seq<char>>, b: Seq<Seq<char>>)
    ensures
        text::join_with((a + b).push(Seq::<char>::empty()), '\n') == text::join_with(
            a.push(Seq::<char>::empty()),
            '\n',
        ) + text::join_with(b.push(Seq::<char>::empty()), '\n'),
    decreases b.len(),
{
    let none = Seq::<char>::empty();
    if b.len() == 0 {
        assert(a + b =~= a);
        assert(text::join_with(b.push(none), '\n') =~= none);
        assert(text::join_with(a.push(none), '\n') + none =~= text::join_with(
            a.push(none),
            '\n',
        ));
    } else {
        let init = b.drop_last();
        lemma_ended_sum(a, init);
        assert((a + init).push(b.last()) =~= a + b);
        assert(init.push(b.last()) =~= b);
        lemma_ended_push(a + init, b.last());
        lemma_ended_push(init, b.last());
        assert(text::join_with((a + b).push(none), '\n') =~= text::join_with(a.push(none), '\n')
            + text::join_with(b.push(none), '\n'));
    }
}

proof fn lemma_kept_are_listed(
    ls: Seq<Seq<char>>,
    kinds: Seq<ConflictLineKind>,
    want: ConflictLineKind,
    from: int,
    to: int,
    at: Seq<int>,
)
    requires
        indices::lists(at, from, to, |p: int| kinds[p] == want),
    ensures
        kept_lines(ls, kinds, want, from, to) == text::join_with(
            at.map_values(|p: int| ls[p]).push(Seq::<char>::empty()),
            '\n',
        ),
    decreases to - from,
{
    let wanted = |p: int| kinds[p] == want;
    let none = Seq::<char>::empty();
    let picked = at.map_values(|p: int| ls[p]);
    indices::lemma_lists_step(at, from, to, wanted);
    if to <= from {
        assert(text::join_with(picked.push(none), '\n') =~= none);
    } else if kinds[to - 1] == want {
        assert(wanted(to - 1));
        let init = at.drop_last();
        lemma_kept_are_listed(ls, kinds, want, from, to - 1, init);
        assert(picked =~= init.map_values(|p: int| ls[p]).push(ls[to - 1]));
        lemma_ended_push(init.map_values(|p: int| ls[p]), ls[to - 1]);
    } else {
        assert(!wanted(to - 1));
        lemma_kept_are_listed(ls, kinds, want, from, to - 1, at);
    }
}

/// What a resolved block becomes: every line between its markers that belongs to a
/// kept side, in the order of the text, ours before theirs, each with its line
/// break, and nothing else. `ours` and `theirs` list where the lines of the two
/// sides stand.
pub proof fn law_resolving_keeps_the_chosen_lines(
    text: Seq<char>,
    kinds: Seq<ConflictLineKind>,
    caret: int,
    side: Side,
    r: (usize, usize, String),
    ours: Seq<int>,
    theirs: Seq<int>,
)
    requires
        kinds.len() <= text::lines(text).len(),
        0 <= caret,
        block_around(kinds, caret) == Some((r.0 as int, r.1 as int)),
        r.2@ == kept_text(text::lines(text), kinds, side, r.0 as int, r.1 as int),
        indices::lists(
            ours,
            r.0 + 1,
            r.1 as int,
            |p: int| kinds[p] == ConflictLineKind::Ours,
        ),
        indices::lists(
            theirs,
            r.0 + 1,
            r.1 as int,
            |p: int| kinds[p] == ConflictLineKind::Theirs,
        ),
    ensures
        text::lines(r.2@) == (match side {
            Side::Ours => ours,
            Side::Theirs => theirs,
            Side::Both => ours + theirs,
        }).map_values(|p: int| text::lines(text)[p]).push(Seq::<char>::empty()),
{
    let ls = text::lines(text);
    let none = Seq::<char>::empty();
    let (start, end) = (r.0 as int, r.1 as int);
    law_resolved_block_is_the_one_around(kinds, caret, start, end);
    lemma_kept_are_listed(ls, kinds, ConflictLineKind::Ours, start + 1, end, ours);
    lemma_kept_are_listed(ls, kinds, ConflictLineKind::Theirs, start + 1, end, theirs);
    let o = ours.map_values(|p: int| ls[p]);
    let t = theirs.map_values(|p: int| ls[p]);
    lemma_ended_sum(o, t);
    let at = match side {
        Side::Ours => ours,
        Side::Theirs => theirs,
        Side::Both => ours + theirs,
    };
    let picked = at.map_values(|p: int| ls[p]);
    if side == Side::Both {
        assert(picked =~= o + t);
    }
    let all = picked.push(none);
    text::lemma_split_pieces_free(text, '\n');
    assert forall|i: int| 0 <= i < all.len() implies text::free_of(#[trigger] all[i], '\n') by {
        if i < at.len() {
            let p = at[i];
            assert(0 <= p < ls.len()) by {
                if side == Side::Both && i >= ours.len() {
                    assert(theirs[i - ours.len()] == p);
                } else if side == Side::Both {
                    assert(ours[i] == p);
                }
            }
            assert(all[i] == ls[p]);
        }
    }
    text::lemma_split_join(all, '\n');
}

proof fn lemma_opener_found(kinds: Seq<ConflictLineKind>, start: int, n: int)
    requires
        0 <= start < n <= kinds.len(),
        kinds[start] == ConflictLineKind::MarkerOurs,
        forall|i: int| start < i < n ==> #[trigger] kinds[i] != ConflictLineKind::MarkerOurs,
    ensures
        last_opener(kinds, n) == start,
    decreases n,
{
    if n - 1 > start {
        lemma_opener_found(kinds, start, n - 1);
    }
}

proof fn lemma_close_found(kinds: Seq<ConflictLineKind>, i: int, end: int)
    requires
        0 <= i <= end < kinds.len(),
        kinds[end] == ConflictLineKind::MarkerTheirs,
        forall|j: int| i <= j < end ==> #[trigger] kinds[j] != ConflictLineKind::MarkerTheirs,
    ensures
        next_close(kinds, i) == end,
    decreases end - i,
{
    if i < end {
        lemma_close_found(kinds, i + 1, end);
    }
}

/// How many file headers stand in the first `n` lines.
pub open spec fn headers_in(ls: Seq<Seq<char>>, n: int) -> nat
    decreases n,
{
    if n <= 0 {
        0
    } else {
        headers_in(ls, n - 1) + if header_path(ls[n - 1]) is Some {
            1nat
        } else {
            0nat
        }
    }
}

/// The least of two numbers.
pub open spec fn least(a: int, b: int) -> int {
    if a <= b {
        a
    } else {
        b
    }
}

/// The index that `count` things give to the last of them, or 0.
pub open spec fn last_index(count: nat) -> nat {
    if count == 0 {
        0
    } else {
        (count - 1) as nat
    }
}

/// How many file headers stand in the first `n` lines of `ls`.
fn count_headers(ls: &Vec<Vec<char>>, n: usize) -> (r: usize)
    requires
        n <= ls@.len(),
    ensures
        r == headers_in(text::deep(ls@), n as int),
        r <= n,
{
    let ghost gl = text::deep(ls@);
    let mut k: usize = 0;
    let mut i: usize = 0;
    while i < n
        invariant
            i <= n <= ls@.len(),
            gl == text::deep(ls@),
            k <= i,
            k == headers_in(gl, i as int),
        decreases n - i,
    {
        assert(gl[i as int] == ls@[i as int]@);
        if is_header(&ls[i]) {
            k += 1;
        }
        i += 1;
    }
    k
}

/// The index of the file whose section holds buffer `line`: that of the last file
/// header at or before it, or 0.
pub fn conflict_file_index_at_line(text: &str, line: usize) -> (r: usize)
    ensures
        r == last_index(
            headers_in(
                text::lines(text@),
                least(line + 1, text::lines(text@).len() as int),
            ),
        ),
{
    let ls = text::lines_of(text);
    let n: usize = if line < ls.len() {
        line + 1
    } else {
        ls.len()
    };
    let k = count_headers(&ls, n);
    if k == 0 {
        0
    } else {
        k - 1
    }
}

/// The line of the file header that `idx` others stand before.
pub open spec fn nth_header(ls: Seq<Seq<char>>, idx: int) -> Option<int> {
    if exists|i: int|
        0 <= i < ls.len() && header_path(#[trigger] ls[i]) is Some && headers_in(ls, i) == idx {
        Some(
            choose|i: int|
                0 <= i < ls.len() && header_path(#[trigger] ls[i]) is Some && headers_in(ls, i)
                    == idx,
        )
    } else {
        None
    }
}

proof fn lemma_headers_grow(ls: Seq<Seq<char>>, i: int, j: int)
    requires
        0 <= i < j,
        header_path(ls[i]) is Some,
    ensures
        headers_in(ls, i) < headers_in(ls, j),
    decreases j,
{
    if i < j - 1 {
        lemma_headers_grow(ls, i, j - 1);
    }
}

/// The buffer line of the `idx`-th file header.
pub fn conflict_file_header_line(text: &str, idx: usize) -> (r: Option<usize>)
    ensures
        (match r {
            Some(i) => nth_header(text::lines(text@), idx as int) == Some(i as int),
            None => nth_header(text::lines(text@), idx as int) is None,
        }),
{
    let ls = text::lines_of(text);
    let ghost gl = text::lines(text@);
    let mut seen: usize = 0;
    let mut i: usize = 0;
    while i < ls.len()
        invariant
            i <= ls@.len(),
            gl == text::lines(text@),
            gl == text::deep(ls@),
            seen <= i,
            seen == headers_in(gl, i as int),
            forall|j: int|
                0 <= j < i && header_path(#[trigger] gl[j]) is Some ==> headers_in(gl, j) != idx,
        decreases ls.len() - i,
    {
        assert(gl[i as int] == ls@[i as int]@);
        if is_header(&ls[i]) {
            if seen == idx {
                proof {
                    let c = choose|c: int|
                        0 <= c < gl.len() && header_path(#[trigger] gl[c]) is Some && headers_in(
                            gl,
                            c,
                        ) == idx;
                    assert(header_path(gl[i as int]) is Some && headers_in(gl, i as int) == idx);
                    if c < i {
                        lemma_headers_grow(gl, c, i as int);
                    } else if i < c {
                        lemma_headers_grow(gl, i as int, c);
                    }
                }
                return Some(i);
            }
            seen += 1;
        }
        i += 1;
    }
    None
}

/// How many elision lines stand between the last file header before line `n` and
/// line `n`.
pub open spec fn gaps_before(ls: Seq<Seq<char>>, n: int) -> nat
    decreases n,
{
    if n <= 0 || header_path(ls[n - 1]) is Some {
        0
    } else {
        gaps_before(ls, n - 1) + if ls[n - 1] == CONFLICT_ELISION_LINE@ {
            1nat
        } else {
            0nat
        }
    }
}

/// For the elision line at `line`: the index of its file, and its own index among
/// that file's elision lines. `None` for any other line.
pub fn conflict_cue_gap_at(text: &str, line: usize) -> (r: Option<(usize, usize)>)
    ensures
        (match r {
            Some(g) => line < text::lines(text@).len() && text::lines(text@)[line as int]
                == CONFLICT_ELISION_LINE@ && g.0 == last_index(
                headers_in(text::lines(text@), line as int),
            ) && g.1 == gaps_before(text::lines(text@), line as int),
            None => !(line < text::lines(text@).len() && text::lines(text@)[line as int]
                == CONFLICT_ELISION_LINE@),
        }),
{
    let ls = text::lines_of(text);
    let ghost gl = text::lines(text@);
    let elision = text::chars_of(CONFLICT_ELISION_LINE);
    if line >= ls.len() {
        return None;
    }
    assert(gl[line as int] == ls@[line as int]@);
    if !text::same_chars(&ls[line], &elision) {
        return None;
    }
    let files = count_headers(&ls, line);
    let mut k: usize = 0;
    let mut i: usize = 0;
    while i < line
        invariant
            i <= line < ls@.len(),
            gl == text::deep(ls@),
            elision@ == CONFLICT_ELISION_LINE@,
            k <= i,
            k == gaps_before(gl, i as int),
        decreases line - i,
    {
        assert(gl[i as int] == ls@[i as int]@);
        if is_header(&ls[i]) {
            k = 0;
        } else if text::same_chars(&ls[i], &elision) {
            k += 1;
        }
        i += 1;
    }
    Some(
        (
            if files == 0 {
                0
            } else {
                files - 1
            },
            k,
        ),
    )
}

/// Whether a line of this kind is a conflict marker.
pub open spec fn is_marker_kind(k: ConflictLineKind) -> bool {
    k == ConflictLineKind::MarkerOurs || k == ConflictLineKind::MarkerBase || k
        == ConflictLineKind::MarkerSep || k == ConflictLineKind::MarkerTheirs
}

/// Whether a file's text still holds conflict markers.
pub open spec fn has_markers(kinds: Seq<ConflictLineKind>) -> bool {
    exists|i: int| 0 <= i < kinds.len() && is_marker_kind(#[trigger] kinds[i])
}

/// What saving in the conflict view does.
#[derive(Clone, Debug)]
pub enum ResolvePlan {
    /// Some file still holds conflict markers.
    MarkersLeft,
    /// There is no file that can be resolved as text.
    NothingToResolve,
    /// The path, the text and the marker length of every file to resolve.
    Resolve(Vec<(String, String, usize)>),
}

/// The files among the first `n` that can be resolved as text.
pub open spec fn resolvable_files(view: Seq<ConflictFileView>, n: int) -> Seq<
    (Seq<char>, Seq<char>, usize),
>
    decreases n,
{
    if n <= 0 {
        Seq::<(Seq<char>, Seq<char>, usize)>::empty()
    } else {
        let init = resolvable_files(view, n - 1);
        let f = view[n - 1];
        if f.resolvable {
            init.push((f.path@, f.full_text@, f.marker_len))
        } else {
            init
        }
    }
}

/// The contents of resolved files.
pub open spec fn file_texts(v: Seq<(String, String, usize)>) -> Seq<(Seq<char>, Seq<char>, usize)> {
    v.map_values(|f: (String, String, usize)| (f.0@, f.1@, f.2))
}

/// Whether some file that can be resolved as text still holds markers.
pub open spec fn markers_left(view: Seq<ConflictFileView>) -> bool {
    exists|i: int|
        0 <= i < view.len() && (#[trigger] view[i]).resolvable && has_markers(view[i].kinds@)
}

fn file_has_markers(kinds: &Vec<ConflictLineKind>) -> (r: bool)
    ensures
        r == has_markers(kinds@),
{
    let mut i: usize = 0;
    while i < kinds.len()
        invariant
            i <= kinds@.len(),
            forall|j: int| 0 <= j < i ==> !is_marker_kind(#[trigger] kinds@[j]),
        decreases kinds.len() - i,
    {
        let k = kinds[i];
        if matches!(k, ConflictLineKind::MarkerOurs | ConflictLineKind::MarkerBase | ConflictLineKind::MarkerSep | ConflictLineKind::MarkerTheirs) {
            assert(is_marker_kind(kinds@[i as int]));
            return true;
        }
        i += 1;
    }
    false
}

/// What saving the conflict view does: all files that can be resolved as text are
/// resolved at once, but only when none holds markers any more.
pub fn plan_resolve(view: &[ConflictFileView]) -> (r: ResolvePlan)
    ensures
        r is MarkersLeft <==> markers_left(view@),
        r is NothingToResolve <==> !markers_left(view@) && resolvable_files(
            view@,
            view@.len() as int,
        ).len() == 0,
        r matches ResolvePlan::Resolve(f) ==> file_texts(f@) == resolvable_files(
            view@,
            view@.len() as int,
        ),
{
    let mut out: Vec<(String, String, usize)> = Vec::new();
    let mut i: usize = 0;
    assert(file_texts(out@) =~= resolvable_files(view@, 0));
    while i < view.len()
        invariant
            i <= view@.len(),
            forall|j: int|
                0 <= j < i ==> !((#[trigger] view@[j]).resolvable && has_markers(view@[j].kinds@)),
            file_texts(out@) == resolvable_files(view@, i as int),
        decreases view.len() - i,
    {
        let fv = &view[i];
        if fv.resolvable {
            if file_has_markers(&fv.kinds) {
                assert(view@[i as int].resolvable && has_markers(view@[i as int].kinds@));
                return ResolvePlan::MarkersLeft;
            }
            let ghost od = out@;
            let f = (fv.path.clone(), fv.full_text.clone(), fv.marker_len);
            out.push(f);
            assert(file_texts(out@) =~= file_texts(od).push((f.0@, f.1@, f.2)));
        }
        i += 1;
    }
    assert(file_texts(out@).len() == out@.len());
    if out.len() == 0 {
        ResolvePlan::NothingToResolve
    } else {
        ResolvePlan::Resolve(out)
    }
}

/// A conflict block begins at each of its opening markers and nowhere else, from the
/// top; `at` lists them.
pub proof fn law_blocks_begin_at_their_markers(
    kinds: &[ConflictLineKind],
    r: Vec<usize>,
    at: Seq<int>,
)
    requires
        call_ensures(conflict_block_lines, (kinds,), r),
        indices::lists(
            at,
            0,
            kinds@.len() as int,
            |i: int| kinds@[i] == ConflictLineKind::MarkerOurs,
        ),
    ensures
        r@.map_values(|i: usize| i as int) == at,
{
    lemma_openers_listed(kinds@, kinds@.len() as int, at);
    assert(kinds.len() == kinds@.len());
    assert(r@.map_values(|i: usize| i as int) =~= at);
}

proof fn lemma_openers_listed(kinds: Seq<ConflictLineKind>, n: int, at: Seq<int>)
    requires
        0 <= n <= kinds.len(),
        indices::lists(at, 0, n, |i: int| kinds[i] == ConflictLineKind::MarkerOurs),
    ensures
        openers(kinds, n) == at.map_values(|i: int| i as usize),
    decreases n,
{
    let p = |i: int| kinds[i] == ConflictLineKind::MarkerOurs;
    indices::lemma_lists_step(at, 0, n, p);
    if n > 0 {
        if p(n - 1) {
            lemma_openers_listed(kinds, n - 1, at.drop_last());
            assert(at.map_values(|i: int| i as usize) =~= at.drop_last().map_values(
                |i: int| i as usize,
            ).push((n - 1) as usize));
        } else {
            lemma_openers_listed(kinds, n - 1, at);
        }
    } else {
        assert(at.map_values(|i: int| i as usize) =~= Seq::<usize>::empty());
    }
}

proof fn lemma_block_after(blocks: Seq<usize>, caret: usize)
    requires
        forall|a: int, b: int| 0 <= a < b < blocks.len() ==> blocks[a] < blocks[b],
    ensures
        match block_after(blocks, caret) {
            Some(l) => blocks.contains(l) && l > caret && forall|i: int|
                0 <= i < blocks.len() && #[trigger] blocks[i] > caret ==> l <= blocks[i],
            None => forall|i: int| 0 <= i < blocks.len() ==> #[trigger] blocks[i] <= caret,
        },
    decreases blocks.len(),
{
    if blocks.len() > 0 {
        if blocks[0] > caret {
            assert(blocks.contains(blocks[0]));
        } else {
            let rest = blocks.skip(1);
            assert forall|a: int, b: int| 0 <= a < b < rest.len() implies rest[a] < rest[b] by {
                assert(blocks[a + 1] < blocks[b + 1]);
            }
            lemma_block_after(rest, caret);
            match block_after(rest, caret) {
                Some(l) => {
                    let k = choose|k: int| 0 <= k < rest.len() && rest[k] == l;
                    assert(blocks[k + 1] == l);
                    assert forall|i: int|
                        0 <= i < blocks.len() && #[trigger] blocks[i] > caret implies l
                        <= blocks[i] by {
                        assert(rest[i - 1] == blocks[i]);
                    }
                },
                None => {
                    assert forall|i: int| 0 <= i < blocks.len() implies #[trigger] blocks[i]
                        <= caret by {
                        if i > 0 {
                            assert(rest[i - 1] == blocks[i]);
                        }
                    }
                },
            }
        }
    }
}

proof fn lemma_block_before(blocks: Seq<usize>, caret: usize)
    requires
        forall|a: int, b: int| 0 <= a < b < blocks.len() ==> blocks[a] < blocks[b],
    ensures
        match block_before(blocks, caret) {
            Some(l) => blocks.contains(l) && l < caret && forall|i: int|
                0 <= i < blocks.len() && #[trigger] blocks[i] < caret ==> l >= blocks[i],
            None => forall|i: int| 0 <= i < blocks.len() ==> #[trigger] blocks[i] >= caret,
        },
    decreases blocks.len(),
{
    if blocks.len() > 0 {
        let n = blocks.len() - 1;
        if blocks.last() < caret {
            assert(blocks[n] == blocks.last());
            assert forall|i: int| 0 <= i < blocks.len() && #[trigger] blocks[i] < caret implies
                blocks.last() >= blocks[i] by {
                if i < n {
                    assert(blocks[i] < blocks[n]);
                }
            }
        } else {
            let init = blocks.drop_last();
            assert forall|a: int, b: int| 0 <= a < b < init.len() implies init[a] < init[b] by {
                assert(blocks[a] < blocks[b]);
            }
            lemma_block_before(init, caret);
            match block_before(init, caret) {
                Some(l) => {
                    let k = choose|k: int| 0 <= k < init.len() && init[k] == l;
                    assert(blocks[k] == l);
                    assert forall|i: int|
                        0 <= i < blocks.len() && #[trigger] blocks[i] < caret implies l
                        >= blocks[i] by {
                        assert(init[i] == blocks[i]);
                    }
                },
                None => {
                    assert forall|i: int| 0 <= i < blocks.len() implies #[trigger] blocks[i]
                        >= caret by {
                        if i < n {
                            assert(init[i] == blocks[i]);
                        }
                    }
                },
            }
        }
    }
}

/// To go on is to go to the nearest block below the caret, to go back to the nearest
/// above; and the buttons for it are lit exactly where there is one.
pub proof fn law_navigation_goes_to_the_nearest_block(
    blocks: &[usize],
    caret: usize,
    forward: Option<usize>,
    back: Option<usize>,
    lit: (bool, bool),
)
    requires
        forall|a: int, b: int| 0 <= a < b < blocks@.len() ==> blocks@[a] < blocks@[b],
        call_ensures(goto_block, (blocks, caret, true), forward),
        call_ensures(goto_block, (blocks, caret, false), back),
        call_ensures(navigable, (blocks, caret), lit),
    ensures
        lit.0 <==> back is Some,
        lit.1 <==> forward is Some,
        forward matches Some(l) ==> blocks@.contains(l) && l > caret && forall|i: int|
            0 <= i < blocks@.len() && #[trigger] blocks@[i] > caret ==> l <= blocks@[i],
        back matches Some(l) ==> blocks@.contains(l) && l < caret && forall|i: int|
            0 <= i < blocks@.len() && #[trigger] blocks@[i] < caret ==> l >= blocks@[i],
{
    lemma_block_after(blocks@, caret);
    lemma_block_before(blocks@, caret);
    if let Some(l) = forward {
        let k = choose|k: int| 0 <= k < blocks@.len() && blocks@[k] == l;
        assert(blocks@[k] > caret);
    }
    if let Some(l) = back {
        let k = choose|k: int| 0 <= k < blocks@.len() && blocks@[k] == l;
        assert(blocks@[k] < caret);
    }
    if lit.0 {
        let k = choose|k: int| 0 <= k < blocks@.len() && #[trigger] blocks@[k] < caret;
        assert(blocks@[k] < caret);
    }
}

/// The button on a marker keeps the side that the marker belongs to: the opening one
/// ours, the closing one theirs, the one between them both; no other line has one.
pub proof fn law_markers_keep_their_sides(
    kinds: &[ConflictLineKind],
    line: usize,
    r: Option<Side>,
)
    requires
        call_ensures(conflict_side_at_line, (kinds, line), r),
    ensures
        r == Some(Side::Ours) <==> line < kinds@.len() && kinds@[line as int]
            == ConflictLineKind::MarkerOurs,
        r == Some(Side::Theirs) <==> line < kinds@.len() && kinds@[line as int]
            == ConflictLineKind::MarkerTheirs,
        r == Some(Side::Both) <==> line < kinds@.len() && kinds@[line as int]
            == ConflictLineKind::MarkerSep,
{
}

/// A click on the button behind a marker keeps the marker's side, and one before it
/// keeps nothing: the button begins at `at`, where its cap stands first.
pub proof fn law_a_click_on_the_button_keeps_the_side(
    text: &str,
    kinds: &[ConflictLineKind],
    cap: &str,
    line: usize,
    col: usize,
    at: int,
    r: Option<Side>,
    side: Option<Side>,
)
    requires
        call_ensures(conflict_cue_side_at, (text, kinds, cap, line, col), r),
        call_ensures(conflict_side_at_line, (kinds, line), side),
        line < text::lines(text@).len(),
        0 <= at,
        text::occurs_at(text::lines(text@)[line as int], at, cap@),
        forall|i: int|
            0 <= i < at ==> !#[trigger] text::occurs_at(
                text::lines(text@)[line as int],
                i,
                cap@,
            ),
    ensures
        col >= at ==> r == side,
        col < at ==> r is None,
{
    text::lemma_find_first(text::lines(text@)[line as int], cap@, 0, at);
}

/// Headers are counted one by one.
proof fn lemma_headers_listed(ls: Seq<Seq<char>>, n: int, at: Seq<int>)
    requires
        indices::lists(at, 0, n, |i: int| header_path(ls[i]) is Some),
    ensures
        headers_in(ls, n) == at.len(),
    decreases n,
{
    let p = |i: int| header_path(ls[i]) is Some;
    indices::lemma_lists_step(at, 0, n, p);
    if n > 0 {
        if p(n - 1) {
            lemma_headers_listed(ls, n - 1, at.drop_last());
        } else {
            lemma_headers_listed(ls, n - 1, at);
        }
    }
}

proof fn lemma_headers_between(ls: Seq<Seq<char>>, i: int, j: int)
    requires
        0 <= i <= j,
    ensures
        headers_in(ls, i) <= headers_in(ls, j),
        i < j && header_path(ls[i]) is Some ==> headers_in(ls, i) < headers_in(ls, j),
        (forall|m: int| i <= m < j ==> header_path(#[trigger] ls[m]) is None) ==> headers_in(ls, i)
            == headers_in(ls, j),
    decreases j - i,
{
    if i < j {
        lemma_headers_between(ls, i, j - 1);
        if forall|m: int| i <= m < j ==> header_path(#[trigger] ls[m]) is None {
            assert(header_path(ls[j - 1]) is None);
        }
    }
}

/// The header of file `idx` is the header that so many others stand above, and every
/// line from it on up to the next header belongs to that file. `above` lists the
/// headers above line `h`.
pub proof fn law_lines_belong_to_the_header_above(
    text: &str,
    idx: usize,
    h: int,
    line: usize,
    above: Seq<int>,
    found: Option<usize>,
    index: usize,
)
    requires
        call_ensures(conflict_file_header_line, (text, idx), found),
        call_ensures(conflict_file_index_at_line, (text, line), index),
        0 <= h <= line < text::lines(text@).len(),
        header_path(text::lines(text@)[h]) is Some,
        forall|m: int|
            h < m <= line ==> header_path(#[trigger] text::lines(text@)[m]) is None,
        indices::lists(
            above,
            0,
            h,
            |i: int| header_path(text::lines(text@)[i]) is Some,
        ),
        idx == above.len(),
    ensures
        found matches Some(l) && l == h,
        index == idx,
{
    let ls = text::lines(text@);
    lemma_headers_listed(ls, h, above);
    lemma_headers_between(ls, h + 1, line + 1);
    assert(headers_in(ls, h + 1) == idx + 1);
    assert(header_path(ls[h]) is Some && headers_in(ls, h) == idx);
    let i = choose|i: int|
        0 <= i < ls.len() && header_path(#[trigger] ls[i]) is Some && headers_in(ls, i) == idx;
    if i < h {
        lemma_headers_between(ls, i, h);
    } else if i > h {
        lemma_headers_between(ls, h, i);
    }
}

/// A click on hidden lines names them by their file and by how many such runs stand
/// above them in that file. `h` is the header of the file, `headers` lists the headers
/// above it and `runs` the hidden runs between it and the line.
pub proof fn law_hidden_lines_are_named_by_their_place(
    text: &str,
    line: usize,
    h: int,
    headers: Seq<int>,
    runs: Seq<int>,
    r: Option<(usize, usize)>,
)
    requires
        call_ensures(conflict_cue_gap_at, (text, line), r),
        0 <= h < line < text::lines(text@).len(),
        header_path(text::lines(text@)[h]) is Some,
        forall|m: int| h < m < line ==> header_path(#[trigger] text::lines(text@)[m]) is None,
        indices::lists(
            headers,
            0,
            h,
            |i: int| header_path(text::lines(text@)[i]) is Some,
        ),
        indices::lists(
            runs,
            h + 1,
            line as int,
            |i: int| text::lines(text@)[i] == CONFLICT_ELISION_LINE@,
        ),
    ensures
        text::lines(text@)[line as int] == CONFLICT_ELISION_LINE@ <==> r is Some,
        r matches Some(g) ==> g.0 == headers.len() && g.1 == runs.len(),
{
    let ls = text::lines(text@);
    lemma_headers_listed(ls, h, headers);
    lemma_headers_between(ls, h + 1, line as int);
    assert(headers_in(ls, h + 1) == headers.len() + 1);
    lemma_gaps_listed(ls, h, line as int, runs);
}

proof fn lemma_gaps_listed(ls: Seq<Seq<char>>, h: int, n: int, runs: Seq<int>)
    requires
        0 <= h < n <= ls.len(),
        header_path(ls[h]) is Some,
        forall|m: int| h < m < n ==> header_path(#[trigger] ls[m]) is None,
        indices::lists(runs, h + 1, n, |i: int| ls[i] == CONFLICT_ELISION_LINE@),
    ensures
        gaps_before(ls, n) == runs.len(),
    decreases n,
{
    let p = |i: int| ls[i] == CONFLICT_ELISION_LINE@;
    indices::lemma_lists_step(runs, h + 1, n, p);
    if n > h + 1 {
        assert(header_path(ls[n - 1]) is None);
        if p(n - 1) {
            lemma_gaps_listed(ls, h, n - 1, runs.drop_last());
        } else {
            lemma_gaps_listed(ls, h, n - 1, runs);
        }
    }
}

/// What is resolved is every file that can be, each with its path, its text and its
/// marker length, in their order, once no marker is left in any of them; `at` lists
/// those files.
pub proof fn law_all_files_are_resolved_together(
    view: &[ConflictFileView],
    r: ResolvePlan,
    at: Seq<int>,
)
    requires
        call_ensures(plan_resolve, (view,), r),
        indices::lists(at, 0, view@.len() as int, |i: int| view@[i].resolvable),
    ensures
        r is MarkersLeft <==> exists|i: int, j: int|
            0 <= i < view@.len() && view@[i].resolvable && 0 <= j < (
            #[trigger] view@[i]).kinds@.len() && is_marker_kind(#[trigger] view@[i].kinds@[j]),
        r is NothingToResolve ==> at.len() == 0,
        r matches ResolvePlan::Resolve(f) ==> f@.len() == at.len() && at.len() > 0 && forall|k: int|
            0 <= k < f@.len() ==> (#[trigger] f@[k]).0@ == view@[at[k]].path@ && f@[k].1@
                == view@[at[k]].full_text@ && f@[k].2 == view@[at[k]].marker_len,
{
    lemma_resolvable_listed(view@, view@.len() as int, at);
    if markers_left(view@) {
        let i = choose|i: int|
            0 <= i < view@.len() && (#[trigger] view@[i]).resolvable && has_markers(view@[i].kinds@);
        let j = choose|j: int|
            0 <= j < view@[i].kinds@.len() && is_marker_kind(#[trigger] view@[i].kinds@[j]);
        assert(is_marker_kind(view@[i].kinds@[j]));
    }
    if let ResolvePlan::Resolve(f) = r {
        let all = file_texts(f@);
        assert(all.len() == f@.len());
        assert forall|k: int| 0 <= k < f@.len() implies (#[trigger] f@[k]).0@
            == view@[at[k]].path@ && f@[k].1@ == view@[at[k]].full_text@ && f@[k].2
            == view@[at[k]].marker_len by {
            assert(all[k] == (f@[k].0@, f@[k].1@, f@[k].2));
        }
    }
}

proof fn lemma_resolvable_listed(view: Seq<ConflictFileView>, n: int, at: Seq<int>)
    requires
        0 <= n <= view.len(),
        indices::lists(at, 0, n, |i: int| view[i].resolvable),
    ensures
        resolvable_files(view, n) == at.map_values(
            |i: int| (view[i].path@, view[i].full_text@, view[i].marker_len),
        ),
    decreases n,
{
    let p = |i: int| view[i].resolvable;
    let f = |i: int| (view[i].path@, view[i].full_text@, view[i].marker_len);
    indices::lemma_lists_step(at, 0, n, p);
    if n > 0 {
        if p(n - 1) {
            lemma_resolvable_listed(view, n - 1, at.drop_last());
            assert(at.map_values(f) =~= at.drop_last().map_values(f).push(f(n - 1)));
        } else {
            lemma_resolvable_listed(view, n - 1, at);
        }
    } else {
        assert(at.map_values(f) =~= Seq::<(Seq<char>, Seq<char>, usize)>::empty());
    }
}

} // verus!
