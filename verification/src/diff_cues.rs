//! The gutter of the diff view: which cue button each line carries, what a click
//! on it means, and how a hunk is split in two at a context line.
use crate::indices;
use crate::linenums;
use crate::model::{CombinedFile, FileChange, HunkInfo};
use crate::numbers;
use crate::text;
use vstd::prelude::*;

verus! {

/// An opaque colour, eight bits to a channel.
#[derive(Clone, Copy, Debug, PartialEq, Eq, Structural)]
pub struct Rgb {
    pub red: u8,
    pub green: u8,
    pub blue: u8,
}

/// One active gutter cell: the glyph to draw, its hover tooltip and its colour.
#[derive(Clone, Debug)]
pub struct GutterCue {
    pub glyph: String,
    pub tooltip: String,
    pub color: Rgb,
}

/// The contents of a gutter cell.
#[verifier::ext_equal]
pub struct CueText {
    pub glyph: Seq<char>,
    pub tooltip: Seq<char>,
    pub color: Rgb,
}

impl View for GutterCue {
    type V = CueText;

    open spec fn view(&self) -> CueText {
        CueText { glyph: self.glyph@, tooltip: self.tooltip@, color: self.color }
    }
}

/// A file's place in the combined diff.
#[verifier::ext_equal]
pub struct FilePlace {
    pub path: Seq<char>,
    pub start_line: int,
    pub editable: bool,
    pub hunks: Seq<HunkInfo>,
}

impl View for CombinedFile {
    type V = FilePlace;

    open spec fn view(&self) -> FilePlace {
        FilePlace {
            path: self.path@,
            start_line: self.start_line as int,
            editable: self.editable,
            hunks: self.hunks@,
        }
    }
}

/// The places of all files.
pub open spec fn places(files: Seq<CombinedFile>) -> Seq<FilePlace> {
    files.map_values(|f: CombinedFile| f@)
}

/// What a cue button does.
#[derive(Clone, Copy, Debug, PartialEq, Eq, Structural)]
pub enum CueKind {
    ExpandBoth,
    ExpandUp,
    ExpandDown,
    RevertHunk,
    RevertFile,
    Split,
}

/// The accent of the buttons that widen context.
pub open spec fn expand_accent() -> Rgb {
    Rgb { red: 0x05, green: 0x50, blue: 0xae }
}

/// The accent of the revert buttons.
pub open spec fn revert_accent() -> Rgb {
    Rgb { red: 0x9a, green: 0x67, blue: 0x00 }
}

/// The accent of the split buttons.
pub open spec fn split_accent() -> Rgb {
    Rgb { red: 0x82, green: 0x50, blue: 0xdf }
}

/// Accent for the expand-context cue, also used for the conflict view's elisions.
pub fn expand_color() -> (r: Rgb)
    ensures
        r == expand_accent(),
{
    Rgb { red: 0x05, green: 0x50, blue: 0xae }
}

/// Accent for the revert cue.
pub fn revert_color() -> (r: Rgb)
    ensures
        r == revert_accent(),
{
    Rgb { red: 0x9a, green: 0x67, blue: 0x00 }
}

/// Accent for the split cue.
pub fn split_color() -> (r: Rgb)
    ensures
        r == split_accent(),
{
    Rgb { red: 0x82, green: 0x50, blue: 0xdf }
}

/// How a cue of each kind looks.
pub open spec fn cue_text(k: CueKind) -> CueText {
    match k {
        CueKind::ExpandBoth => CueText {
            glyph: "\u{2195}"@,
            tooltip: "Expand context"@,
            color: expand_accent(),
        },
        CueKind::ExpandUp => CueText {
            glyph: "\u{2191}"@,
            tooltip: "Expand context"@,
            color: expand_accent(),
        },
        CueKind::ExpandDown => CueText {
            glyph: "\u{2193}"@,
            tooltip: "Expand context"@,
            color: expand_accent(),
        },
        CueKind::RevertHunk => CueText {
            glyph: "\u{293a}"@,
            tooltip: "Revert hunk"@,
            color: revert_accent(),
        },
        CueKind::RevertFile => CueText {
            glyph: "\u{293a}"@,
            tooltip: "Revert file"@,
            color: revert_accent(),
        },
        CueKind::Split => CueText {
            glyph: "\u{2704}"@,
            tooltip: "Split hunk"@,
            color: split_accent(),
        },
    }
}

/// The cue of kind `k`.
pub fn cue(k: CueKind) -> (r: GutterCue)
    ensures
        r@ == cue_text(k),
{
    let (glyph, tooltip, color) = match k {
        CueKind::ExpandBoth => ("\u{2195}", "Expand context", expand_color()),
        CueKind::ExpandUp => ("\u{2191}", "Expand context", expand_color()),
        CueKind::ExpandDown => ("\u{2193}", "Expand context", expand_color()),
        CueKind::RevertHunk => ("\u{293a}", "Revert hunk", revert_color()),
        CueKind::RevertFile => ("\u{293a}", "Revert file", revert_color()),
        CueKind::Split => ("\u{2704}", "Split hunk", split_color()),
    };
    GutterCue { glyph: glyph.to_string(), tooltip: tooltip.to_string(), color }
}

/// Whether `l` is a `diff --git` line, which begins a file.
pub open spec fn file_sep(l: Seq<char>) -> bool {
    "diff --git "@.is_prefix_of(l)
}

/// Whether `l` begins a hunk or a file.
pub open spec fn boundary(l: Seq<char>) -> bool {
    linenums::hunk_header(l) || file_sep(l)
}

/// Whether `l` is an unchanged line.
pub open spec fn context_line(l: Seq<char>) -> bool {
    linenums::counts_old(l) && linenums::counts_new(l)
}

/// Whether `l` is an added or a removed line.
pub open spec fn change_line(l: Seq<char>) -> bool {
    linenums::counts_old(l) != linenums::counts_new(l)
}

/// How many hunk headers stand before line `i`.
pub open spec fn headers_before(ls: Seq<Seq<char>>, i: int) -> nat
    decreases i,
{
    if i <= 0 {
        0
    } else {
        headers_before(ls, i - 1) + if linenums::hunk_header(ls[i - 1]) {
            1nat
        } else {
            0nat
        }
    }
}

/// How many file separators stand before line `i`.
pub open spec fn seps_before(ls: Seq<Seq<char>>, i: int) -> nat
    decreases i,
{
    if i <= 0 {
        0
    } else {
        seps_before(ls, i - 1) + if file_sep(ls[i - 1]) {
            1nat
        } else {
            0nat
        }
    }
}

/// The hunks of all files in document order, as file and hunk index.
pub open spec fn flat_hunks(files: Seq<FilePlace>) -> Seq<(int, int)>
    decreases files.len(),
{
    if files.len() == 0 {
        Seq::<(int, int)>::empty()
    } else {
        flat_hunks(files.drop_last()) + Seq::new(
            files.last().hunks.len(),
            |h: int| (files.len() - 1, h),
        )
    }
}

/// Every entry of the flattened hunks names a file and one of its hunks.
pub proof fn lemma_flat_hunks(files: Seq<FilePlace>, k: int)
    requires
        0 <= k < flat_hunks(files).len(),
    ensures
        0 <= flat_hunks(files)[k].0 < files.len(),
        0 <= flat_hunks(files)[k].1 < files[flat_hunks(files)[k].0].hunks.len(),
    decreases files.len(),
{
    let init = flat_hunks(files.drop_last());
    if k < init.len() {
        lemma_flat_hunks(files.drop_last(), k);
    }
}

proof fn lemma_flat_prefix(files: Seq<FilePlace>, n: int, k: int)
    requires
        0 <= n <= files.len(),
        0 <= k < flat_hunks(files.take(n)).len(),
    ensures
        k < flat_hunks(files).len(),
        flat_hunks(files)[k] == flat_hunks(files.take(n))[k],
    decreases files.len() - n,
{
    if n < files.len() {
        assert(files.take(n + 1).drop_last() =~= files.take(n));
        lemma_flat_prefix(files, n + 1, k);
    } else {
        assert(files.take(n) =~= files);
    }
}

/// The file and the hunk of the `k`-th hunk header, if there are that many.
fn locate_hunk(files: &[CombinedFile], k: usize) -> (r: Option<(usize, usize)>)
    ensures
        (match r {
            Some((f, h)) => k < flat_hunks(places(files@)).len() && flat_hunks(places(files@))[k as int]
                == (f as int, h as int) && f < files@.len() && h < files@[f as int].hunks@.len(),
            None => k >= flat_hunks(places(files@)).len(),
        }),
{
    let ghost ps = places(files@);
    let mut left: usize = k;
    let mut f: usize = 0;
    while f < files.len()
        invariant
            f <= files@.len(),
            ps == places(files@),
            left + flat_hunks(ps.take(f as int)).len() == k,
        decreases files.len() - f,
    {
        let n: usize = files[f].hunks.len();
        proof {
            assert(ps.take(f + 1).drop_last() =~= ps.take(f as int));
            assert(ps.take(f + 1).last() == files@[f as int]@);
        }
        if left < n {
            proof {
                let all = flat_hunks(ps.take(f + 1));
                assert(all[k as int] == (f as int, left as int));
                lemma_flat_prefix(ps, f + 1, k as int);
            }
            return Some((f, left));
        }
        left -= n;
        f += 1;
    }
    assert(ps.take(f as int) =~= ps);
    None
}

/// The index of line `line` among the hunk headers of `ls`, if it is one.
fn header_order(ls: &Vec<Vec<char>>, line: usize) -> (r: Option<usize>)
    ensures
        (match r {
            Some(k) => line < ls@.len() && linenums::hunk_header(text::deep(ls@)[line as int]) && k
                == headers_before(text::deep(ls@), line as int),
            None => !(line < ls@.len() && linenums::hunk_header(text::deep(ls@)[line as int])),
        }),
{
    if line >= ls.len() {
        return None;
    }
    let k = count_headers(ls, line);
    if text::starts_with(&ls[line], "@@") {
        Some(k)
    } else {
        None
    }
}

/// How many hunk headers stand before line `line`.
fn count_headers(ls: &Vec<Vec<char>>, line: usize) -> (r: usize)
    requires
        line <= ls@.len(),
    ensures
        r == headers_before(text::deep(ls@), line as int),
        r <= line,
{
    let ghost gl = text::deep(ls@);
    let mut k: usize = 0;
    let mut i: usize = 0;
    while i < line
        invariant
            i <= line <= ls@.len(),
            gl == text::deep(ls@),
            k <= i,
            k == headers_before(gl, i as int),
        decreases line - i,
    {
        assert(gl[i as int] == ls@[i as int]@);
        if text::starts_with(&ls[i], "@@") {
            k += 1;
        }
        i += 1;
    }
    k
}

/// The index of line `line` among the file separators of `ls`, if it is one.
fn sep_order(ls: &Vec<Vec<char>>, line: usize) -> (r: Option<usize>)
    ensures
        (match r {
            Some(k) => line < ls@.len() && file_sep(text::deep(ls@)[line as int]) && k
                == seps_before(text::deep(ls@), line as int),
            None => !(line < ls@.len() && file_sep(text::deep(ls@)[line as int])),
        }),
{
    if line >= ls.len() {
        return None;
    }
    let ghost gl = text::deep(ls@);
    let mut k: usize = 0;
    let mut i: usize = 0;
    while i < line
        invariant
            i <= line < ls@.len(),
            gl == text::deep(ls@),
            k <= i,
            k == seps_before(gl, i as int),
        decreases line - i,
    {
        assert(gl[i as int] == ls@[i as int]@);
        if text::starts_with(&ls[i], "diff --git ") {
            k += 1;
        }
        i += 1;
    }
    assert(gl[line as int] == ls@[line as int]@);
    if text::starts_with(&ls[line], "diff --git ") {
        Some(k)
    } else {
        None
    }
}

/// The change groups and the file that the hunk header at `line` stands for.
pub open spec fn hunk_at(
    ls: Seq<Seq<char>>,
    files: Seq<FilePlace>,
    line: int,
) -> Option<(usize, usize, Seq<char>)> {
    if 0 <= line < ls.len() && linenums::hunk_header(ls[line]) && headers_before(ls, line)
        < flat_hunks(files).len() {
        let at = flat_hunks(files)[headers_before(ls, line) as int];
        let h = files[at.0].hunks[at.1];
        Some((h.first_group, h.last_group, files[at.0].path))
    } else {
        None
    }
}

/// The first and last change group and the path behind the hunk header at buffer
/// `line`; `None` where the line is no hunk header.
pub fn hunk_target(text: &str, files: &[CombinedFile], line: usize) -> (r: Option<
    (usize, usize, String),
>)
    ensures
        (match r {
            Some(t) => hunk_at(text::lines(text@), places(files@), line as int) == Some(
                (t.0, t.1, t.2@),
            ),
            None => hunk_at(text::lines(text@), places(files@), line as int) is None,
        }),
{
    let ls = text::lines_of(text);
    match header_order(&ls, line) {
        None => None,
        Some(k) => match locate_hunk(files, k) {
            None => None,
            Some((f, h)) => {
                let hunk = files[f].hunks[h];
                assert(places(files@)[f as int] == files@[f as int]@);
                Some((hunk.first_group, hunk.last_group, files[f].path.clone()))
            },
        },
    }
}

/// The path of the file whose separator stands at `line`.
pub open spec fn file_at(ls: Seq<Seq<char>>, files: Seq<FilePlace>, line: int) -> Option<
    Seq<char>,
> {
    if 0 <= line < ls.len() && file_sep(ls[line]) && seps_before(ls, line) < files.len() {
        Some(files[seps_before(ls, line) as int].path)
    } else {
        None
    }
}

/// The path of the file whose `diff --git` separator is at buffer `line`.
pub fn file_target(text: &str, files: &[CombinedFile], line: usize) -> (r: Option<String>)
    ensures
        text::opt_text(r) == file_at(text::lines(text@), places(files@), line as int),
{
    let ls = text::lines_of(text);
    match sep_order(&ls, line) {
        None => None,
        Some(k) => if k < files.len() {
            assert(places(files@)[k as int] == files@[k as int]@);
            Some(files[k].path.clone())
        } else {
            None
        },
    }
}

/// The last hunk header before line `i`, or -1.
pub open spec fn last_header(ls: Seq<Seq<char>>, i: int) -> int
    decreases i,
{
    if i <= 0 {
        -1
    } else if linenums::hunk_header(ls[i - 1]) {
        i - 1
    } else {
        last_header(ls, i - 1)
    }
}

/// The first line at or behind `i` that begins a hunk or a file, or the end.
pub open spec fn section_end(ls: Seq<Seq<char>>, i: int) -> int
    decreases ls.len() - i,
{
    if i >= ls.len() {
        ls.len() as int
    } else if boundary(ls[i]) {
        i
    } else {
        section_end(ls, i + 1)
    }
}

/// Whether a change group that began in `ls[from..i]` is still open before line
/// `i`: a context line closes it, a line that counts on neither side does not.
pub open spec fn in_group(ls: Seq<Seq<char>>, from: int, i: int) -> bool
    decreases i - from,
{
    i > from && (change_line(ls[i - 1]) || (!context_line(ls[i - 1]) && in_group(ls, from, i - 1)))
}

/// How many change groups begin in `ls[from..i]`.
pub open spec fn groups(ls: Seq<Seq<char>>, from: int, i: int) -> nat
    decreases i - from,
{
    if i <= from {
        0
    } else {
        groups(ls, from, i - 1) + if change_line(ls[i - 1]) && !in_group(ls, from, i - 1) {
            1nat
        } else {
            0nat
        }
    }
}

/// What follows the closing `@@` of a hunk header; nothing if it is not closed.
pub open spec fn heading(l: Seq<char>) -> Seq<char> {
    match text::find_from(l, "@@"@, 2) {
        Some(i) => l.skip(i + 2),
        None => Seq::<char>::empty(),
    }
}

/// A `@@ -a,b +c,d @@` header.
pub open spec fn header_text(a: nat, b: nat, c: nat, d: nat) -> Seq<char> {
    "@@ -"@ + numbers::decimal(a) + ","@ + numbers::decimal(b) + " +"@ + numbers::decimal(c) + ","@
        + numbers::decimal(d) + " @@"@
}

/// Whether the hunk around `line` can be split there: a context line inside a
/// known hunk with a change group above it and another below.
pub open spec fn can_split(ls: Seq<Seq<char>>, files: Seq<FilePlace>, line: int) -> bool {
    let h = last_header(ls, line);
    let end = section_end(ls, h + 1);
    &&& 0 <= line < ls.len()
    &&& ls[line].len() > 0 && ls[line][0] == ' '
    &&& h >= 0
    &&& headers_before(ls, line) <= flat_hunks(files).len()
    &&& line < end
    &&& 0 < groups(ls, h + 1, line) < groups(ls, h + 1, end)
}

/// The diff's lines after the hunk around `line` was split there: its header
/// covers the lines above, a new header the lines from `line` on.
pub open spec fn split_lines(ls: Seq<Seq<char>>, line: int) -> Seq<Seq<char>> {
    let h = last_header(ls, line);
    let end = section_end(ls, h + 1);
    let first = linenums::counters(ls, h + 1);
    let second = linenums::counters(ls, line);
    let h1 = header_text(
        first.0,
        linenums::old_lines(ls, h + 1, line),
        first.1,
        linenums::new_lines(ls, h + 1, line),
    ) + heading(ls[h]);
    let h2 = header_text(
        second.0,
        linenums::old_lines(ls, line, end),
        second.1,
        linenums::new_lines(ls, line, end),
    );
    ls.update(h, h1).insert(line, h2)
}

/// `h` one line further down.
pub open spec fn hunk_below(h: HunkInfo) -> HunkInfo {
    HunkInfo { header_line: (h.header_line + 1) as usize, ..h }
}

/// All of `f` one line further down.
pub open spec fn file_below(f: FilePlace) -> FilePlace {
    FilePlace {
        start_line: f.start_line + 1,
        hunks: f.hunks.map_values(|h: HunkInfo| hunk_below(h)),
        ..f
    }
}

/// The half of hunk `h` that stays under the old header, with `g` change groups.
pub open spec fn upper_half(h: HunkInfo, header_line: int, g: nat) -> HunkInfo {
    HunkInfo {
        header_line: header_line as usize,
        first_group: h.first_group,
        last_group: (h.first_group + g - 1) as usize,
        can_expand_up: h.can_expand_up,
        can_expand_down: false,
    }
}

/// The half of hunk `h` that moves under the new header, past `g` change groups.
pub open spec fn lower_half(h: HunkInfo, header_line: int, g: nat) -> HunkInfo {
    HunkInfo {
        header_line: header_line as usize,
        first_group: (h.first_group + g) as usize,
        last_group: h.last_group,
        can_expand_up: false,
        can_expand_down: h.can_expand_down,
    }
}

/// The files after the split: what stands below the new header moves down by one
/// line, and the split hunk becomes its two halves.
pub open spec fn split_places(ls: Seq<Seq<char>>, files: Seq<FilePlace>, line: int) -> Seq<
    FilePlace,
> {
    let h = last_header(ls, line);
    let at = flat_hunks(files)[headers_before(ls, line) - 1];
    let g = groups(ls, h + 1, line);
    let owner = files[at.0];
    let hunk = owner.hunks[at.1];
    Seq::new(
        files.len(),
        |i: int|
            if i < at.0 {
                files[i]
            } else if i > at.0 {
                file_below(files[i])
            } else {
                FilePlace {
                    hunks: owner.hunks.take(at.1) + seq![
                        upper_half(hunk, h, g),
                        lower_half(hunk, line, g),
                    ] + owner.hunks.skip(at.1 + 1).map_values(|x: HunkInfo| hunk_below(x)),
                    ..owner
                }
            },
    )
}

/// Whether the positions that a split at `line` moves leave room for one more
/// line, and the group numbers for the groups above the cut.
pub open spec fn room_to_split(ls: Seq<Seq<char>>, files: Seq<FilePlace>, line: int) -> bool {
    let at = flat_hunks(files)[headers_before(ls, line) - 1];
    let g = groups(ls, last_header(ls, line) + 1, line);
    &&& forall|i: int| at.0 < i < files.len() ==> (#[trigger] files[i]).start_line < usize::MAX
    &&& forall|i: int, j: int|
        at.0 < i < files.len() && 0 <= j < files[i].hunks.len()
            ==> (#[trigger] files[i].hunks[j]).header_line < usize::MAX
    &&& forall|j: int|
        at.1 < j < files[at.0].hunks.len() ==> (#[trigger] files[at.0].hunks[j]).header_line
            < usize::MAX
    &&& files[at.0].hunks[at.1].first_group + g <= usize::MAX
}

pub proof fn lemma_last_header(ls: Seq<Seq<char>>, i: int)
    requires
        0 <= i <= ls.len(),
    ensures
        -1 <= last_header(ls, i) < i,
        last_header(ls, i) >= 0 ==> linenums::hunk_header(ls[last_header(ls, i)]),
        forall|j: int| last_header(ls, i) < j < i ==> !linenums::hunk_header(#[trigger] ls[j]),
        last_header(ls, i) >= 0 <==> headers_before(ls, i) > 0,
    decreases i,
{
    if i > 0 {
        lemma_last_header(ls, i - 1);
    }
}

pub proof fn lemma_section_end(ls: Seq<Seq<char>>, i: int)
    requires
        0 <= i <= ls.len(),
    ensures
        i <= section_end(ls, i) <= ls.len(),
        forall|j: int| i <= j < section_end(ls, i) ==> !boundary(#[trigger] ls[j]),
        section_end(ls, i) < ls.len() ==> boundary(ls[section_end(ls, i)]),
    decreases ls.len() - i,
{
    if i < ls.len() && !boundary(ls[i]) {
        lemma_section_end(ls, i + 1);
    }
}

fn find_last_header(ls: &Vec<Vec<char>>, line: usize) -> (r: Option<usize>)
    requires
        line <= ls@.len(),
    ensures
        (match r {
            Some(h) => last_header(text::deep(ls@), line as int) == h,
            None => last_header(text::deep(ls@), line as int) == -1,
        }),
{
    let ghost gl = text::deep(ls@);
    let mut i: usize = line;
    while i > 0
        invariant
            i <= line <= ls@.len(),
            gl == text::deep(ls@),
            last_header(gl, line as int) == last_header(gl, i as int),
        decreases i,
    {
        assert(gl[i - 1] == ls@[i - 1]@);
        if text::starts_with(&ls[i - 1], "@@") {
            return Some(i - 1);
        }
        i -= 1;
    }
    None
}

fn find_section_end(ls: &Vec<Vec<char>>, from: usize) -> (r: usize)
    requires
        from <= ls@.len(),
    ensures
        r == section_end(text::deep(ls@), from as int),
        from <= r <= ls@.len(),
{
    let ghost gl = text::deep(ls@);
    let mut i: usize = from;
    while i < ls.len()
        invariant
            from <= i <= ls@.len(),
            gl == text::deep(ls@),
            section_end(gl, from as int) == section_end(gl, i as int),
        decreases ls.len() - i,
    {
        assert(gl[i as int] == ls@[i as int]@);
        if text::starts_with(&ls[i], "@@") || text::starts_with(&ls[i], "diff --git ") {
            return i;
        }
        i += 1;
    }
    i
}

fn count_groups(ls: &Vec<Vec<char>>, from: usize, to: usize) -> (r: usize)
    requires
        from <= to <= ls@.len(),
    ensures
        r == groups(text::deep(ls@), from as int, to as int),
        r <= to - from,
{
    let ghost gl = text::deep(ls@);
    let mut n: usize = 0;
    let mut open = false;
    let mut i: usize = from;
    while i < to
        invariant
            from <= i <= to <= ls@.len(),
            gl == text::deep(ls@),
            n <= i - from,
            n == groups(gl, from as int, i as int),
            open == in_group(gl, from as int, i as int),
        decreases to - i,
    {
        assert(gl[i as int] == ls@[i as int]@);
        let (o, w) = linenums::line_sides(&ls[i]);
        if o && w {
            open = false;
        } else if o != w {
            if !open {
                n += 1;
            }
            open = true;
        }
        i += 1;
    }
    n
}

/// How many lines of `ls[from..to]` count on each side.
fn count_sides(ls: &Vec<Vec<char>>, from: usize, to: usize) -> (r: (u32, u32))
    requires
        from <= to <= ls@.len(),
        linenums::old_lines(text::deep(ls@), from as int, to as int) <= u32::MAX,
        linenums::new_lines(text::deep(ls@), from as int, to as int) <= u32::MAX,
    ensures
        r.0 == linenums::old_lines(text::deep(ls@), from as int, to as int),
        r.1 == linenums::new_lines(text::deep(ls@), from as int, to as int),
{
    let ghost gl = text::deep(ls@);
    let mut o_count: u32 = 0;
    let mut n_count: u32 = 0;
    let mut i: usize = from;
    while i < to
        invariant
            from <= i <= to <= ls@.len(),
            gl == text::deep(ls@),
            linenums::old_lines(gl, from as int, to as int) <= u32::MAX,
            linenums::new_lines(gl, from as int, to as int) <= u32::MAX,
            o_count == linenums::old_lines(gl, from as int, i as int),
            n_count == linenums::new_lines(gl, from as int, i as int),
        decreases to - i,
    {
        assert(gl[i as int] == ls@[i as int]@);
        proof {
            lemma_sides_grow(gl, from as int, i + 1, to as int);
        }
        let (o, n) = linenums::line_sides(&ls[i]);
        if o {
            o_count += 1;
        }
        if n {
            n_count += 1;
        }
        i += 1;
    }
    (o_count, n_count)
}

proof fn lemma_sides_grow(ls: Seq<Seq<char>>, from: int, i: int, to: int)
    requires
        from <= i <= to,
    ensures
        linenums::old_lines(ls, from, i) <= linenums::old_lines(ls, from, to),
        linenums::new_lines(ls, from, i) <= linenums::new_lines(ls, from, to),
    decreases to - i,
{
    if i < to {
        lemma_sides_grow(ls, from, i, to - 1);
    }
}

/// What follows the closing `@@` of the header `l`.
fn heading_of(l: &Vec<char>) -> (r: Vec<char>)
    requires
        linenums::hunk_header(l@),
    ensures
        r@ == heading(l@),
{
    proof {
        reveal_strlit("@@");
    }
    let mark = text::chars_of("@@");
    match text::find_chars(l, &mark, 2) {
        Some(i) => {
            let n: usize = l.len();
            assert(i + mark@.len() <= n);
            let r = text::slice_of(l, i + 2, n);
            assert(r@ =~= l@.skip(i + 2));
            r
        },
        None => Vec::new(),
    }
}

/// Writes a `@@ -a,b +c,d @@` header.
fn write_header(a: u32, b: u32, c: u32, d: u32) -> (r: Vec<char>)
    ensures
        r@ == header_text(a as nat, b as nat, c as nat, d as nat),
{
    let mut v = text::chars_of("@@ -");
    text::push_all(&mut v, &numbers::write_decimal(a as u64));
    text::push_text(&mut v, ",");
    text::push_all(&mut v, &numbers::write_decimal(b as u64));
    text::push_text(&mut v, " +");
    text::push_all(&mut v, &numbers::write_decimal(c as u64));
    text::push_text(&mut v, ",");
    text::push_all(&mut v, &numbers::write_decimal(d as u64));
    text::push_text(&mut v, " @@");
    v
}

/// The hunks `hunks[from..]` one line further down, behind `out`.
fn push_hunks_below(out: &mut Vec<HunkInfo>, hunks: &Vec<HunkInfo>, from: usize)
    requires
        from <= hunks@.len(),
        forall|j: int| from <= j < hunks@.len() ==> (#[trigger] hunks@[j]).header_line < usize::MAX,
    ensures
        final(out)@ == old(out)@ + hunks@.skip(from as int).map_values(|x: HunkInfo| hunk_below(x)),
{
    let ghost before = out@;
    let ghost tail = hunks@.skip(from as int).map_values(|x: HunkInfo| hunk_below(x));
    let mut j: usize = from;
    while j < hunks.len()
        invariant
            from <= j <= hunks@.len(),
            tail == hunks@.skip(from as int).map_values(|x: HunkInfo| hunk_below(x)),
            forall|j: int|
                from <= j < hunks@.len() ==> (#[trigger] hunks@[j]).header_line < usize::MAX,
            out@ == before + tail.take(j - from),
        decreases hunks.len() - j,
    {
        let mut h = hunks[j];
        h.header_line = h.header_line + 1;
        out.push(h);
        assert(tail[j - from] == h);
        j += 1;
        assert(out@ =~= before + tail.take(j - from));
    }
    assert(tail.take(j - from) =~= tail);
}

/// The hunks `hunks[..to]`.
fn copy_hunks(hunks: &Vec<HunkInfo>, to: usize) -> (r: Vec<HunkInfo>)
    requires
        to <= hunks@.len(),
    ensures
        r@ == hunks@.take(to as int),
{
    let mut out: Vec<HunkInfo> = Vec::new();
    let mut j: usize = 0;
    while j < to
        invariant
            j <= to <= hunks@.len(),
            out@ == hunks@.take(j as int),
        decreases to - j,
    {
        out.push(hunks[j]);
        j += 1;
    }
    out
}

/// The files with hunk `hi` of file `fi` replaced by its halves and everything
/// below moved down by a line.
fn split_files(
    files: &[CombinedFile],
    fi: usize,
    hi: usize,
    upper: HunkInfo,
    lower: HunkInfo,
) -> (r: Vec<CombinedFile>)
    requires
        fi < files@.len(),
        hi < files@[fi as int].hunks@.len(),
        forall|i: int| fi < i < files@.len() ==> (#[trigger] files@[i]).start_line < usize::MAX,
        forall|i: int, j: int|
            fi < i < files@.len() && 0 <= j < files@[i].hunks@.len() ==> (
            #[trigger] files@[i].hunks@[j]).header_line < usize::MAX,
        forall|j: int|
            hi < j < files@[fi as int].hunks@.len() ==> (
            #[trigger] files@[fi as int].hunks@[j]).header_line < usize::MAX,
    ensures
        r@.len() == files@.len(),
        forall|i: int| 0 <= i < fi ==> (#[trigger] r@[i])@ == files@[i]@,
        forall|i: int| fi < i < r@.len() ==> (#[trigger] r@[i])@ == file_below(files@[i]@),
        r@[fi as int]@ == (FilePlace {
            hunks: files@[fi as int].hunks@.take(hi as int) + seq![upper, lower]
                + files@[fi as int].hunks@.skip(hi + 1).map_values(|x: HunkInfo| hunk_below(x)),
            ..files@[fi as int]@
        }),
{
    let mut out: Vec<CombinedFile> = Vec::new();
    let ghost owner = FilePlace {
        hunks: files@[fi as int].hunks@.take(hi as int) + seq![upper, lower]
            + files@[fi as int].hunks@.skip(hi + 1).map_values(|x: HunkInfo| hunk_below(x)),
        ..files@[fi as int]@
    };
    let mut i: usize = 0;
    while i < files.len()
        invariant
            i <= files@.len(),
            fi < files@.len(),
            hi < files@[fi as int].hunks@.len(),
            forall|i: int| fi < i < files@.len() ==> (#[trigger] files@[i]).start_line < usize::MAX,
            forall|i: int, j: int|
                fi < i < files@.len() && 0 <= j < files@[i].hunks@.len() ==> (
                #[trigger] files@[i].hunks@[j]).header_line < usize::MAX,
            forall|j: int|
                hi < j < files@[fi as int].hunks@.len() ==> (
                #[trigger] files@[fi as int].hunks@[j]).header_line < usize::MAX,
            owner == (FilePlace {
                hunks: files@[fi as int].hunks@.take(hi as int) + seq![upper, lower]
                    + files@[fi as int].hunks@.skip(hi + 1).map_values(|x: HunkInfo| hunk_below(x)),
                ..files@[fi as int]@
            }),
            out@.len() == i,
            forall|k: int| 0 <= k < i && k < fi ==> (#[trigger] out@[k])@ == files@[k]@,
            forall|k: int| fi < k < i ==> (#[trigger] out@[k])@ == file_below(files@[k]@),
            fi < i ==> out@[fi as int]@ == owner,
        decreases files.len() - i,
    {
        let f = &files[i];
        let mut start: usize = f.start_line;
        let mut hunks: Vec<HunkInfo> = Vec::new();
        if i < fi {
            hunks = copy_hunks(&f.hunks, f.hunks.len());
            assert(hunks@ =~= f.hunks@);
        } else if i == fi {
            let n: usize = f.hunks.len();
            assert(hi < n);
            hunks = copy_hunks(&f.hunks, hi);
            hunks.push(upper);
            hunks.push(lower);
            push_hunks_below(&mut hunks, &f.hunks, hi + 1);
            assert(hunks@ =~= owner.hunks);
        } else {
            start = start + 1;
            push_hunks_below(&mut hunks, &f.hunks, 0);
            assert(f.hunks@.skip(0) =~= f.hunks@);
            assert(hunks@ =~= file_below(f@).hunks);
        }
        let place = CombinedFile {
            path: f.path.clone(),
            start_line: start,
            editable: f.editable,
            hunks,
        };
        assert(i < fi ==> place@ =~= files@[i as int]@);
        assert(i > fi ==> place@ =~= file_below(files@[i as int]@));
        assert(i == fi ==> place@ =~= owner);
        out.push(place);
        i += 1;
    }
    out
}

/// Splits the hunk around the context line `line` in two at that line: the new
/// diff text and the new places of its files, or `None` where the line is no
/// point to split at.
pub fn split_hunk_at(text: &str, files: &[CombinedFile], line: usize) -> (r: Option<
    (String, Vec<CombinedFile>),
>)
    requires
        can_split(text::lines(text@), places(files@), line as int) ==> linenums::counters_fit(
            text::lines(text@),
        ) && room_to_split(text::lines(text@), places(files@), line as int),
    ensures
        r is Some <==> can_split(text::lines(text@), places(files@), line as int),
        r matches Some(s) ==> s.0@ == text::join_with(
            split_lines(text::lines(text@), line as int),
            '\n',
        ) && places(s.1@) == split_places(text::lines(text@), places(files@), line as int),
{
    let mut ls = text::lines_of(text);
    let ghost gl = text::lines(text@);
    let ghost ps = places(files@);
    if line >= ls.len() || ls[line].len() == 0 || ls[line][0] != ' ' {
        assert(line < ls@.len() ==> gl[line as int] == ls@[line as int]@);
        return None;
    }
    assert(gl[line as int] == ls@[line as int]@);
    proof {
        lemma_last_header(gl, line as int);
    }
    let k = count_headers(&ls, line);
    let h = match find_last_header(&ls, line) {
        None => {
            return None;
        },
        Some(h) => h,
    };
    let (fi, hi) = match locate_hunk(files, k - 1) {
        None => {
            return None;
        },
        Some(at) => at,
    };
    let end = find_section_end(&ls, h + 1);
    if line >= end {
        return None;
    }
    let above = count_groups(&ls, h + 1, line);
    let all = count_groups(&ls, h + 1, end);
    if above == 0 || above >= all {
        return None;
    }
    assert(can_split(gl, ps, line as int));
    let nums = linenums::diff_line_numbers(text);
    proof {
        lemma_section_end(gl, h + 1);
        linenums::law_numbers_run_on(gl, h + 1, line as int);
        assert forall|i: int| line <= i < end implies !linenums::hunk_header(#[trigger] gl[i]) by {
            assert(!boundary(gl[i]));
        }
        linenums::law_numbers_run_on(gl, line as int, end as int);
        assert(linenums::counters(gl, end as int).0 <= u32::MAX);
        assert(linenums::counters(gl, line as int).0 <= u32::MAX);
        reveal_strlit("@@");
        reveal_strlit("diff ");
        reveal_strlit("--- ");
        reveal_strlit("+++ ");
        reveal_strlit("index ");
        assert(!linenums::hunk_header(gl[line as int])) by {
            if linenums::hunk_header(gl[line as int]) {
                assert("@@"@[0] == gl[line as int][0]);
            }
        }
        assert(!linenums::meta_line(gl[line as int])) by {
            let l = gl[line as int];
            if "diff "@.is_prefix_of(l) {
                assert("diff "@[0] == l[0]);
            }
            if "--- "@.is_prefix_of(l) {
                assert("--- "@[0] == l[0]);
            }
            if "+++ "@.is_prefix_of(l) {
                assert("+++ "@[0] == l[0]);
            }
            if "index "@.is_prefix_of(l) {
                assert("index "@[0] == l[0]);
            }
        }
        assert(nums@[line as int] == linenums::line_number(gl, line as int));
    }
    let (ao, an) = match (nums[line].old, nums[line].new) {
        (Some(o), Some(n)) => (o, n),
        _ => {
            assert(false);
            return None;
        },
    };
    let (c1o, c1n) = count_sides(&ls, h + 1, line);
    let (c2o, c2n) = count_sides(&ls, line, end);
    let a: u32 = ao - c1o;
    let c: u32 = an - c1n;
    let mut h1 = write_header(a, c1o, c, c1n);
    assert(gl[h as int] == ls@[h as int]@);
    let rest = heading_of(&ls[h]);
    text::push_all(&mut h1, &rest);
    let h2 = write_header(ao, c2o, an, c2n);
    let ghost before = ls@;
    ls.set(h, h1);
    ls.insert(line, h2);
    assert(text::deep(ls@) =~= split_lines(gl, line as int)) by {
        assert(text::deep(before) == gl);
        assert(ls@ == before.update(h as int, h1).insert(line as int, h2));
    }
    let joined = text::join_chars(&ls, '\n');
    let new_text = text::string_of(&joined);
    let hunk = files[fi].hunks[hi];
    let upper = HunkInfo {
        header_line: h,
        first_group: hunk.first_group,
        last_group: hunk.first_group + above - 1,
        can_expand_up: hunk.can_expand_up,
        can_expand_down: false,
    };
    let lower = HunkInfo {
        header_line: line,
        first_group: hunk.first_group + above,
        last_group: hunk.last_group,
        can_expand_up: false,
        can_expand_down: hunk.can_expand_down,
    };
    proof {
        assert forall|i: int| fi < i < files@.len() implies (#[trigger] files@[i]).start_line
            < usize::MAX by {
            assert(ps[i] == files@[i]@);
        }
        assert forall|i: int, j: int|
            fi < i < files@.len() && 0 <= j < files@[i].hunks@.len() implies (
        #[trigger] files@[i].hunks@[j]).header_line < usize::MAX by {
            assert(ps[i] == files@[i]@);
            assert(ps[i].hunks[j] == files@[i].hunks@[j]);
        }
        assert(ps[fi as int] == files@[fi as int]@);
        assert forall|j: int| hi < j < files@[fi as int].hunks@.len() implies (
        #[trigger] files@[fi as int].hunks@[j]).header_line < usize::MAX by {
            assert(ps[fi as int].hunks[j] == files@[fi as int].hunks@[j]);
        }
    }
    let new_files = split_files(files, fi, hi, upper, lower);
    assert(places(new_files@) =~= split_places(gl, ps, line as int));
    Some((new_text, new_files))
}

/// Whether a change line stands above line `i` in the same hunk.
pub open spec fn change_above(ls: Seq<Seq<char>>, i: int) -> bool {
    exists|j: int|
        #![trigger change_line(ls[j])]
        0 <= j < i && change_line(ls[j]) && forall|m: int| j < m < i ==> !boundary(#[trigger] ls[m])
}

/// Whether a change line stands below line `i` in the same hunk.
pub open spec fn change_below(ls: Seq<Seq<char>>, i: int) -> bool {
    exists|j: int|
        #![trigger change_line(ls[j])]
        i < j < ls.len() && change_line(ls[j]) && forall|m: int|
            i < m < j ==> !boundary(#[trigger] ls[m])
}

/// Whether line `i` is context that separates two change groups.
pub open spec fn separates_groups(ls: Seq<Seq<char>>, i: int) -> bool {
    context_line(ls[i]) && change_above(ls, i) && change_below(ls, i)
}

/// The button on line `i` that widens a hunk's context or splits the hunk.
pub open spec fn expand_kind(
    ls: Seq<Seq<char>>,
    files: Seq<FilePlace>,
    read_only: bool,
    i: int,
) -> Option<CueKind> {
    if linenums::hunk_header(ls[i]) {
        if headers_before(ls, i) < flat_hunks(files).len() {
            let at = flat_hunks(files)[headers_before(ls, i) as int];
            let h = files[at.0].hunks[at.1];
            if h.can_expand_up && h.can_expand_down {
                Some(CueKind::ExpandBoth)
            } else if h.can_expand_up {
                Some(CueKind::ExpandUp)
            } else if h.can_expand_down {
                Some(CueKind::ExpandDown)
            } else {
                None
            }
        } else {
            None
        }
    } else if !read_only && separates_groups(ls, i) {
        Some(CueKind::Split)
    } else {
        None
    }
}

/// The first change of the file at `path`.
pub open spec fn change_for(changes: Seq<FileChange>, path: Seq<char>) -> Option<FileChange>
    decreases changes.len(),
{
    if changes.len() == 0 {
        None
    } else if changes[0].path@ == path {
        Some(changes[0])
    } else {
        change_for(changes.skip(1), path)
    }
}

/// A hunk can be reverted where both sides of its file are text.
pub open spec fn hunk_revertable(c: FileChange) -> bool {
    c.old_text is Some && c.new_text is Some
}

/// A file can be reverted where its sides differ as editable text.
pub open spec fn file_revertable(c: FileChange) -> bool {
    !c.is_binary && !c.conflicted_base && text::opt_text(c.old_text) != text::opt_text(c.new_text)
}

/// The button on line `i` that reverts a hunk or a file.
pub open spec fn revert_kind(
    ls: Seq<Seq<char>>,
    files: Seq<FilePlace>,
    changes: Seq<FileChange>,
    read_only: bool,
    i: int,
) -> Option<CueKind> {
    if read_only {
        None
    } else if linenums::hunk_header(ls[i]) {
        if headers_before(ls, i) < flat_hunks(files).len() {
            let f = files[flat_hunks(files)[headers_before(ls, i) as int].0];
            if f.editable && (change_for(changes, f.path) matches Some(c) && hunk_revertable(c)) {
                Some(CueKind::RevertHunk)
            } else {
                None
            }
        } else {
            None
        }
    } else if file_sep(ls[i]) && seps_before(ls, i) < files.len() && (change_for(
        changes,
        files[seps_before(ls, i) as int].path,
    ) matches Some(c) && file_revertable(c)) {
        Some(CueKind::RevertFile)
    } else {
        None
    }
}

/// The cell that shows a cue of the given kind.
pub open spec fn cell_of(k: Option<CueKind>) -> Option<CueText> {
    match k {
        Some(k) => Some(cue_text(k)),
        None => None,
    }
}

/// What a cell shows.
pub open spec fn cell_text(c: Option<GutterCue>) -> Option<CueText> {
    match c {
        Some(c) => Some(c@),
        None => None,
    }
}

/// A hunk revert needs text on both sides.
pub fn revert_hunk_ok(change: &FileChange) -> (r: bool)
    ensures
        r == hunk_revertable(*change),
{
    change.old_text.is_some() && change.new_text.is_some()
}

/// A file revert needs two editable sides that differ.
pub fn revert_file_ok(change: &FileChange) -> (r: bool)
    ensures
        r == file_revertable(*change),
{
    !change.is_binary && !change.conflicted_base && !text::same_opt_text(
        &change.old_text,
        &change.new_text,
    )
}

/// The index of the first change of the file at `path`.
pub fn find_change(changes: &[FileChange], path: &String) -> (r: Option<usize>)
    ensures
        (match r {
            Some(i) => i < changes@.len() && change_for(changes@, path@) == Some(changes@[i as int]),
            None => change_for(changes@, path@) is None,
        }),
{
    let mut i: usize = 0;
    assert(changes@.skip(0) =~= changes@);
    while i < changes.len()
        invariant
            i <= changes@.len(),
            change_for(changes@, path@) == change_for(changes@.skip(i as int), path@),
        decreases changes.len() - i,
    {
        assert(changes@.skip(i as int)[0] == changes@[i as int]);
        if changes[i].path == *path {
            return Some(i);
        }
        assert(changes@.skip(i as int).skip(1) =~= changes@.skip(i + 1));
        i += 1;
    }
    None
}

proof fn lemma_change_above_step(ls: Seq<Seq<char>>, i: int)
    requires
        0 <= i < ls.len(),
    ensures
        change_above(ls, i + 1) <==> change_line(ls[i]) || (!boundary(ls[i]) && change_above(ls, i)),
        !change_above(ls, 0),
{
    if change_line(ls[i]) {
        assert(change_above(ls, i + 1));
    } else {
        if !boundary(ls[i]) && change_above(ls, i) {
            let j = choose|j: int|
                #![trigger change_line(ls[j])]
                0 <= j < i && change_line(ls[j]) && forall|m: int|
                    j < m < i ==> !boundary(#[trigger] ls[m]);
            assert(change_line(ls[j]));
            assert(forall|m: int| j < m < i + 1 ==> !boundary(#[trigger] ls[m]));
        }
        if change_above(ls, i + 1) {
            let j = choose|j: int|
                #![trigger change_line(ls[j])]
                0 <= j < i + 1 && change_line(ls[j]) && forall|m: int|
                    j < m < i + 1 ==> !boundary(#[trigger] ls[m]);
            assert(change_line(ls[j]) && j < i);
            assert(!boundary(ls[i]));
            assert(forall|m: int| j < m < i ==> !boundary(#[trigger] ls[m]));
        }
    }
}

proof fn lemma_change_below_step(ls: Seq<Seq<char>>, i: int)
    requires
        -1 <= i < ls.len(),
    ensures
        change_below(ls, i) <==> i + 1 < ls.len() && (change_line(ls[i + 1]) || (!boundary(
            ls[i + 1],
        ) && change_below(ls, i + 1))),
{
    if i + 1 < ls.len() {
        if change_line(ls[i + 1]) {
            assert(change_below(ls, i));
        } else {
            if !boundary(ls[i + 1]) && change_below(ls, i + 1) {
                let j = choose|j: int|
                    #![trigger change_line(ls[j])]
                    i + 1 < j < ls.len() && change_line(ls[j]) && forall|m: int|
                        i + 1 < m < j ==> !boundary(#[trigger] ls[m]);
                assert(change_line(ls[j]));
                assert(forall|m: int| i < m < j ==> !boundary(#[trigger] ls[m]));
            }
            if change_below(ls, i) {
                let j = choose|j: int|
                    #![trigger change_line(ls[j])]
                    i < j < ls.len() && change_line(ls[j]) && forall|m: int|
                        i < m < j ==> !boundary(#[trigger] ls[m]);
                assert(change_line(ls[j]) && j > i + 1);
                assert(!boundary(ls[i + 1]));
                assert(forall|m: int| i + 1 < m < j ==> !boundary(#[trigger] ls[m]));
            }
        }
    }
}

/// For every line, whether a change line stands below it in the same hunk.
fn changes_below(ls: &Vec<Vec<char>>) -> (r: Vec<bool>)
    ensures
        r@.len() == ls@.len(),
        forall|i: int| 0 <= i < r@.len() ==> #[trigger] r@[i] == change_below(text::deep(ls@), i),
{
    let ghost gl = text::deep(ls@);
    let mut out: Vec<bool> = Vec::new();
    let mut i: usize = 0;
    while i < ls.len()
        invariant
            i <= ls@.len(),
            out@.len() == i,
        decreases ls.len() - i,
    {
        out.push(false);
        i += 1;
    }
    let mut below = false;
    while i > 0
        invariant
            i <= ls@.len(),
            gl == text::deep(ls@),
            out@.len() == ls@.len(),
            below == change_below(gl, i - 1),
            forall|j: int| i <= j < out@.len() ==> #[trigger] out@[j] == change_below(gl, j),
        decreases i,
    {
        i -= 1;
        assert(gl[i as int] == ls@[i as int]@);
        proof {
            lemma_change_below_step(gl, i - 1);
        }
        out.set(i, below);
        let (o, n) = linenums::line_sides(&ls[i]);
        let bound = text::starts_with(&ls[i], "@@") || text::starts_with(&ls[i], "diff --git ");
        below = o != n || (!bound && below);
    }
    out
}

/// The two gutter columns of the diff `text`: the buttons that widen context or
/// split a hunk, and the buttons that revert a hunk or a file.
pub fn diff_cue_cells(
    text: &str,
    files: &[CombinedFile],
    changes: &[FileChange],
    read_only: bool,
) -> (r: (Vec<Option<GutterCue>>, Vec<Option<GutterCue>>))
    ensures
        r.0@.len() == text::lines(text@).len(),
        r.1@.len() == text::lines(text@).len(),
        forall|i: int|
            0 <= i < r.0@.len() ==> cell_text(#[trigger] r.0@[i]) == cell_of(
                expand_kind(text::lines(text@), places(files@), read_only, i),
            ),
        forall|i: int|
            0 <= i < r.1@.len() ==> cell_text(#[trigger] r.1@[i]) == cell_of(
                revert_kind(text::lines(text@), places(files@), changes@, read_only, i),
            ),
{
    let ls = text::lines_of(text);
    let ghost gl = text::lines(text@);
    let ghost ps = places(files@);
    let below = changes_below(&ls);
    let mut expand: Vec<Option<GutterCue>> = Vec::new();
    let mut revert: Vec<Option<GutterCue>> = Vec::new();
    let mut hunk_k: usize = 0;
    let mut file_k: usize = 0;
    let mut above = false;
    let mut i: usize = 0;
    proof {
        if gl.len() > 0 {
            lemma_change_above_step(gl, 0);
        }
    }
    while i < ls.len()
        invariant
            i <= ls@.len(),
            gl == text::lines(text@),
            gl == text::deep(ls@),
            ps == places(files@),
            below@.len() == ls@.len(),
            forall|j: int| 0 <= j < below@.len() ==> #[trigger] below@[j] == change_below(gl, j),
            hunk_k <= i,
            file_k <= i,
            hunk_k == headers_before(gl, i as int),
            file_k == seps_before(gl, i as int),
            i < ls@.len() ==> above == change_above(gl, i as int),
            expand@.len() == i,
            revert@.len() == i,
            forall|j: int|
                0 <= j < i ==> cell_text(#[trigger] expand@[j]) == cell_of(
                    expand_kind(gl, ps, read_only, j),
                ),
            forall|j: int|
                0 <= j < i ==> cell_text(#[trigger] revert@[j]) == cell_of(
                    revert_kind(gl, ps, changes@, read_only, j),
                ),
        decreases ls.len() - i,
    {
        assert(gl[i as int] == ls@[i as int]@);
        proof {
            lemma_change_above_step(gl, i as int);
            lemma_sep_is_meta(gl[i as int]);
        }
        let mut e: Option<GutterCue> = None;
        let mut v: Option<GutterCue> = None;
        let (o, n) = linenums::line_sides(&ls[i]);
        if text::starts_with(&ls[i], "@@") {
            match locate_hunk(files, hunk_k) {
                Some((f, h)) => {
                    assert(ps[f as int] == files@[f as int]@);
                    let file = &files[f];
                    let hunk = file.hunks[h];
                    e = match (hunk.can_expand_up, hunk.can_expand_down) {
                        (true, true) => Some(cue(CueKind::ExpandBoth)),
                        (true, false) => Some(cue(CueKind::ExpandUp)),
                        (false, true) => Some(cue(CueKind::ExpandDown)),
                        (false, false) => None,
                    };
                    if !read_only && file.editable {
                        match find_change(changes, &file.path) {
                            Some(c) => {
                                if revert_hunk_ok(&changes[c]) {
                                    v = Some(cue(CueKind::RevertHunk));
                                }
                            },
                            None => {},
                        }
                    }
                },
                None => {},
            }
            hunk_k += 1;
            above = false;
        } else if text::starts_with(&ls[i], "diff --git ") {
            if file_k < files.len() {
                assert(ps[file_k as int] == files@[file_k as int]@);
                if !read_only {
                    match find_change(changes, &files[file_k].path) {
                        Some(c) => {
                            if revert_file_ok(&changes[c]) {
                                v = Some(cue(CueKind::RevertFile));
                            }
                        },
                        None => {},
                    }
                }
            }
            file_k += 1;
            above = false;
        } else {
            if !read_only && o && n && above && below[i] {
                e = Some(cue(CueKind::Split));
            }
            if o != n {
                above = true;
            }
        }
        assert(cell_text(e) == cell_of(expand_kind(gl, ps, read_only, i as int)));
        assert(cell_text(v) == cell_of(revert_kind(gl, ps, changes@, read_only, i as int)));
        expand.push(e);
        revert.push(v);
        i += 1;
    }
    (expand, revert)
}

/// A file separator is neither a hunk header nor a line that counts.
pub proof fn lemma_sep_is_meta(l: Seq<char>)
    ensures
        file_sep(l) ==> linenums::meta_line(l) && !linenums::hunk_header(l),
{
    reveal_strlit("diff --git ");
    reveal_strlit("diff ");
    reveal_strlit("@@");
    if file_sep(l) {
        assert("diff "@ =~= l.subrange(0, 5)) by {
            assert forall|i: int| 0 <= i < 5 implies "diff "@[i] == l[i] by {
                assert("diff --git "@[i] == l.subrange(0, "diff --git "@.len() as int)[i]);
            }
        }
        if linenums::hunk_header(l) {
            assert("@@"@[0] == l.subrange(0, 2)[0]);
            assert("diff --git "@[0] == l.subrange(0, "diff --git "@.len() as int)[0]);
        }
    }
}

/// The change of a file is the first one that names its path.
pub proof fn law_change_is_the_first_of_its_path(
    changes: Seq<FileChange>,
    path: Seq<char>,
    k: int,
)
    requires
        0 <= k <= changes.len(),
        forall|j: int| 0 <= j < k ==> (#[trigger] changes[j]).path@ != path,
        k < changes.len() ==> changes[k].path@ == path,
    ensures
        change_for(changes, path) == if k < changes.len() {
            Some(changes[k])
        } else {
            None
        },
    decreases k,
{
    if k > 0 {
        assert(changes[0].path@ != path);
        let rest = changes.skip(1);
        assert forall|j: int| 0 <= j < k - 1 implies (#[trigger] rest[j]).path@ != path by {
            assert(rest[j] == changes[j + 1]);
        }
        law_change_is_the_first_of_its_path(rest, path, k - 1);
    }
}

/// The hunk headers before a line are counted one by one.
pub proof fn law_headers_are_counted(ls: Seq<Seq<char>>, i: int, at: Seq<int>)
    requires
        indices::lists(at, 0, i, |p: int| linenums::hunk_header(ls[p])),
    ensures
        headers_before(ls, i) == at.len(),
    decreases i,
{
    let header = |p: int| linenums::hunk_header(ls[p]);
    indices::lemma_lists_step(at, 0, i, header);
    if i > 0 {
        if header(i - 1) {
            law_headers_are_counted(ls, i - 1, at.drop_last());
        } else {
            law_headers_are_counted(ls, i - 1, at);
        }
    }
}

/// The file separators before a line are counted one by one.
pub proof fn law_separators_are_counted(ls: Seq<Seq<char>>, i: int, at: Seq<int>)
    requires
        indices::lists(at, 0, i, |p: int| file_sep(ls[p])),
    ensures
        seps_before(ls, i) == at.len(),
    decreases i,
{
    let sep = |p: int| file_sep(ls[p]);
    indices::lemma_lists_step(at, 0, i, sep);
    if i > 0 {
        if sep(i - 1) {
            law_separators_are_counted(ls, i - 1, at.drop_last());
        } else {
            law_separators_are_counted(ls, i - 1, at);
        }
    }
}

/// Whether a change group of `ls[from..]` begins at line `p`: a change line with
/// context between it and every change line above.
pub open spec fn begins_group(ls: Seq<Seq<char>>, from: int, p: int) -> bool {
    change_line(ls[p]) && forall|q: int|
        from <= q < p && #[trigger] change_line(ls[q]) ==> context_between(ls, q, p)
}

/// Whether context stands between two lines.
pub open spec fn context_between(ls: Seq<Seq<char>>, q: int, p: int) -> bool {
    exists|m: int| q < m < p && #[trigger] context_line(ls[m])
}

proof fn lemma_in_group(ls: Seq<Seq<char>>, from: int, i: int)
    requires
        from <= i,
    ensures
        in_group(ls, from, i) <==> exists|q: int|
            from <= q < i && #[trigger] change_line(ls[q]) && !context_between(ls, q, i),
    decreases i - from,
{
    if from < i {
        lemma_in_group(ls, from, i - 1);
        if change_line(ls[i - 1]) {
            assert(!context_between(ls, i - 1, i));
        } else if context_line(ls[i - 1]) {
            assert forall|q: int|
                from <= q < i && #[trigger] change_line(ls[q]) implies context_between(ls, q, i) by {
                assert(q < i - 1);
                assert(context_line(ls[i - 1]));
            }
        } else {
            if in_group(ls, from, i) {
                let q = choose|q: int|
                    from <= q < i - 1 && #[trigger] change_line(ls[q]) && !context_between(
                        ls,
                        q,
                        i - 1,
                    );
                assert(change_line(ls[q]));
                assert(!context_between(ls, q, i)) by {
                    if context_between(ls, q, i) {
                        let m = choose|m: int| q < m < i && #[trigger] context_line(ls[m]);
                        assert(m < i - 1);
                        assert(context_between(ls, q, i - 1));
                    }
                }
            }
            if exists|q: int|
                from <= q < i && #[trigger] change_line(ls[q]) && !context_between(ls, q, i) {
                let q = choose|q: int|
                    from <= q < i && #[trigger] change_line(ls[q]) && !context_between(ls, q, i);
                assert(q < i - 1);
                assert(!context_between(ls, q, i - 1)) by {
                    if context_between(ls, q, i - 1) {
                        let m = choose|m: int| q < m < i - 1 && #[trigger] context_line(ls[m]);
                        assert(context_line(ls[m]));
                        assert(context_between(ls, q, i));
                    }
                }
            }
        }
    }
}

/// The change groups of a stretch of the diff are counted where they begin.
pub proof fn law_groups_are_counted(ls: Seq<Seq<char>>, from: int, to: int, at: Seq<int>)
    requires
        indices::lists(at, from, to, |p: int| begins_group(ls, from, p)),
    ensures
        groups(ls, from, to) == at.len(),
    decreases to - from,
{
    let begins = |p: int| begins_group(ls, from, p);
    indices::lemma_lists_step(at, from, to, begins);
    if from < to {
        lemma_in_group(ls, from, to - 1);
        assert(begins(to - 1) == (change_line(ls[to - 1]) && !in_group(ls, from, to - 1)));
        if begins(to - 1) {
            law_groups_are_counted(ls, from, to - 1, at.drop_last());
        } else {
            law_groups_are_counted(ls, from, to - 1, at);
        }
    }
}

} // verus!
