//! The blame column of the diff: which commit last touched each old line.
use crate::diff_cues;
use crate::indices;
use crate::linenums::DiffLineNo;
use crate::model::{CombinedFile, CommitInfo};
use crate::rows;
use crate::text;
use vstd::prelude::*;

verus! {

/// Who last touched each line of a file's old side.
#[derive(Clone, Debug)]
pub struct FileBlame {
    pub path: String,
    /// For each line, the index of its origin, if known.
    pub lines: Vec<Option<usize>>,
    /// The commits that the lines come from.
    pub origins: Vec<CommitInfo>,
}

/// One cell of the blame column.
#[derive(Clone, Debug, PartialEq, Eq)]
pub struct BlameCell {
    /// The first eight characters of the commit's id.
    pub short: String,
    /// The commit's change, by which its row in the history is found.
    pub change_id_hex: String,
    /// Subject, author and date.
    pub tooltip: String,
}

/// The contents of a blame cell.
#[verifier::ext_equal]
pub struct CellText {
    pub short: Seq<char>,
    pub change_id_hex: Seq<char>,
    pub tooltip: Seq<char>,
}

impl View for BlameCell {
    type V = CellText;

    open spec fn view(&self) -> CellText {
        CellText {
            short: self.short@,
            change_id_hex: self.change_id_hex@,
            tooltip: self.tooltip@,
        }
    }
}

/// The cell of a commit.
pub open spec fn cell_of(c: CommitInfo) -> CellText {
    CellText {
        short: rows::short(c.id@),
        change_id_hex: c.change_id@,
        tooltip: c.subject@ + "\n"@ + c.author_name@ + " · "@ + c.author_time@,
    }
}

impl BlameCell {
    /// The cell of the commit that a line comes from.
    pub fn from_info(info: &CommitInfo) -> (r: Self)
        ensures
            r@ == cell_of(*info),
    {
        let mut tip = text::chars_of(info.subject.as_str());
        text::push_text(&mut tip, "\n");
        text::push_text(&mut tip, info.author_name.as_str());
        text::push_text(&mut tip, " · ");
        text::push_text(&mut tip, info.author_time.as_str());
        BlameCell {
            short: rows::short_id(info.id.hex.as_str()),
            change_id_hex: info.change_id.clone(),
            tooltip: text::string_of(&tip),
        }
    }
}

/// The file and the zero-based old line that line `i` of a diff shows: the file of
/// the last separator above, and one less than the line's old number.
pub open spec fn old_ref(
    ls: Seq<Seq<char>>,
    n_files: nat,
    nums: Seq<DiffLineNo>,
    i: int,
) -> Option<(int, int)> {
    let k = diff_cues::seps_before(ls, i);
    if diff_cues::file_sep(ls[i]) || k == 0 || k > n_files || i >= nums.len() {
        None
    } else {
        match nums[i].old {
            Some(old) => if old >= 1 {
                Some((k - 1, old - 1))
            } else {
                None
            },
            None => None,
        }
    }
}

/// What an entry of the old references means.
pub open spec fn ref_of(r: Option<(usize, usize)>) -> Option<(int, int)> {
    match r {
        Some(p) => Some((p.0 as int, p.1 as int)),
        None => None,
    }
}

/// For each line of the diff `text`, the file and the zero-based old line that it
/// shows; `None` for added lines, headers and separators.
pub fn diff_old_refs(text: &str, files: &[CombinedFile], nums: &[DiffLineNo]) -> (r: Vec<
    Option<(usize, usize)>,
>)
    ensures
        r@.len() == text::lines(text@).len(),
        forall|i: int|
            0 <= i < r@.len() ==> ref_of(#[trigger] r@[i]) == old_ref(
                text::lines(text@),
                files@.len(),
                nums@,
                i,
            ),
{
    let ls = text::lines_of(text);
    let ghost gl = text::lines(text@);
    let mut out: Vec<Option<(usize, usize)>> = Vec::new();
    let mut seps: usize = 0;
    let mut i: usize = 0;
    while i < ls.len()
        invariant
            i <= ls@.len(),
            gl == text::deep(ls@),
            seps <= i,
            seps == diff_cues::seps_before(gl, i as int),
            out@.len() == i,
            forall|j: int|
                0 <= j < i ==> ref_of(#[trigger] out@[j]) == old_ref(gl, files@.len(), nums@, j),
        decreases ls.len() - i,
    {
        assert(gl[i as int] == ls@[i as int]@);
        let mut r: Option<(usize, usize)> = None;
        if text::starts_with(&ls[i], "diff --git ") {
            seps += 1;
        } else if seps > 0 && seps <= files.len() && i < nums.len() {
            match nums[i].old {
                Some(old) => {
                    if old >= 1 {
                        r = Some((seps - 1, (old - 1) as usize));
                    }
                },
                None => {},
            }
        }
        out.push(r);
        i += 1;
    }
    out
}

/// The blame of the file at `path`: the last one recorded for it.
pub open spec fn blame_of(blame: Seq<FileBlame>, path: Seq<char>) -> Option<FileBlame>
    decreases blame.len(),
{
    if blame.len() == 0 {
        None
    } else if blame.last().path@ == path {
        Some(blame.last())
    } else {
        blame_of(blame.drop_last(), path)
    }
}

/// The commit that the old line `line` of the file at `path` comes from.
pub open spec fn origin_of(blame: Seq<FileBlame>, path: Seq<char>, line: int) -> Option<
    CommitInfo,
> {
    match blame_of(blame, path) {
        Some(fb) => if 0 <= line < fb.lines@.len() {
            match fb.lines@[line] {
                Some(o) => if o < fb.origins@.len() {
                    Some(fb.origins@[o as int])
                } else {
                    None
                },
                None => None,
            }
        } else {
            None
        },
        None => None,
    }
}

/// The blame cell of line `i` of a diff.
pub open spec fn blame_cell(
    ls: Seq<Seq<char>>,
    files: Seq<CombinedFile>,
    nums: Seq<DiffLineNo>,
    blame: Seq<FileBlame>,
    i: int,
) -> Option<CellText> {
    match old_ref(ls, files.len(), nums, i) {
        Some((f, line)) => match origin_of(blame, files[f].path@, line) {
            Some(c) => Some(cell_of(c)),
            None => None,
        },
        None => None,
    }
}

/// The contents of an optional cell.
pub open spec fn opt_cell(c: Option<BlameCell>) -> Option<CellText> {
    match c {
        Some(c) => Some(c@),
        None => None,
    }
}

fn find_blame(blame: &[FileBlame], path: &String) -> (r: Option<usize>)
    ensures
        (match r {
            Some(i) => i < blame@.len() && blame_of(blame@, path@) == Some(blame@[i as int]),
            None => blame_of(blame@, path@) is None,
        }),
{
    let mut n: usize = blame.len();
    assert(blame@.take(n as int) =~= blame@);
    while n > 0
        invariant
            n <= blame@.len(),
            blame_of(blame@, path@) == blame_of(blame@.take(n as int), path@),
        decreases n,
    {
        assert(blame@.take(n as int).last() == blame@[n - 1]);
        if blame[n - 1].path == *path {
            return Some(n - 1);
        }
        assert(blame@.take(n as int).drop_last() =~= blame@.take(n - 1));
        n -= 1;
    }
    None
}

/// The blame cell of every line of the diff `text`.
pub fn blame_cells(
    text: &str,
    files: &[CombinedFile],
    nums: &[DiffLineNo],
    blame: &[FileBlame],
) -> (r: Vec<Option<BlameCell>>)
    ensures
        r@.len() == text::lines(text@).len(),
        forall|i: int|
            0 <= i < r@.len() ==> opt_cell(#[trigger] r@[i]) == blame_cell(
                text::lines(text@),
                files@,
                nums@,
                blame@,
                i,
            ),
{
    let refs = diff_old_refs(text, files, nums);
    let ghost gl = text::lines(text@);
    let mut out: Vec<Option<BlameCell>> = Vec::new();
    let mut i: usize = 0;
    while i < refs.len()
        invariant
            i <= refs@.len(),
            refs@.len() == gl.len(),
            forall|j: int|
                0 <= j < refs@.len() ==> ref_of(#[trigger] refs@[j]) == old_ref(
                    gl,
                    files@.len(),
                    nums@,
                    j,
                ),
            out@.len() == i,
            forall|j: int|
                0 <= j < i ==> opt_cell(#[trigger] out@[j]) == blame_cell(
                    gl,
                    files@,
                    nums@,
                    blame@,
                    j,
                ),
        decreases refs.len() - i,
    {
        assert(ref_of(refs@[i as int]) == old_ref(gl, files@.len(), nums@, i as int));
        let mut cell: Option<BlameCell> = None;
        match refs[i] {
            Some((f, line)) => {
                match find_blame(blame, &files[f].path) {
                    Some(b) => {
                        let fb = &blame[b];
                        if line < fb.lines.len() {
                            match fb.lines[line] {
                                Some(o) => {
                                    if o < fb.origins.len() {
                                        cell = Some(BlameCell::from_info(&fb.origins[o]));
                                    }
                                },
                                None => {},
                            }
                        }
                    },
                    None => {},
                }
            },
            None => {},
        }
        assert(opt_cell(cell) == blame_cell(gl, files@, nums@, blame@, i as int));
        out.push(cell);
        i += 1;
    }
    out
}

/// The blame of a file is the last one recorded for its path.
pub proof fn law_blame_is_the_last_of_its_path(blame: Seq<FileBlame>, path: Seq<char>, b: int)
    requires
        -1 <= b < blame.len(),
        forall|c: int| b < c < blame.len() ==> (#[trigger] blame[c]).path@ != path,
        b >= 0 ==> blame[b].path@ == path,
    ensures
        blame_of(blame, path) == if b >= 0 {
            Some(blame[b])
        } else {
            None
        },
    decreases blame.len(),
{
    if blame.len() > 0 && b < blame.len() - 1 {
        let init = blame.drop_last();
        assert(blame[blame.len() - 1].path@ != path);
        assert forall|c: int| b < c < init.len() implies (#[trigger] init[c]).path@ != path by {
            assert(init[c] == blame[c]);
        }
        law_blame_is_the_last_of_its_path(init, path, b);
    }
}

/// A cell names the commit that the blame records for its line: on a line with the
/// old number `n`, below the last of the separators `seps` above it, that is the
/// origin whose index the file's blame `blame[b]` holds for its `n`-th line. Where
/// nothing is recorded the cell stays blank.
pub proof fn law_cell_names_the_recorded_commit(
    ls: Seq<Seq<char>>,
    files: Seq<CombinedFile>,
    nums: Seq<DiffLineNo>,
    blame: Seq<FileBlame>,
    i: int,
    seps: Seq<int>,
    b: int,
    cell: Option<BlameCell>,
)
    requires
        0 <= i < ls.len(),
        i < nums.len(),
        !diff_cues::file_sep(ls[i]),
        indices::lists(seps, 0, i, |p: int| diff_cues::file_sep(ls[p])),
        0 < seps.len() <= files.len(),
        0 <= b < blame.len(),
        blame[b].path@ == files[seps.len() - 1].path@,
        forall|c: int| b < c < blame.len() ==> (#[trigger] blame[c]).path@ != blame[b].path@,
        opt_cell(cell) == blame_cell(ls, files, nums, blame, i),
    ensures
        match nums[i].old {
            Some(n) => if 1 <= n <= blame[b].lines@.len() {
                match blame[b].lines@[n - 1] {
                    Some(o) => if o < blame[b].origins@.len() {
                        cell matches Some(c) && {
                            let origin = blame[b].origins@[o as int];
                            &&& c.change_id_hex@ == origin.change_id@
                            &&& c.short@.is_prefix_of(origin.id.hex@)
                            &&& c.short@.len() == if origin.id.hex@.len() < 8 {
                                origin.id.hex@.len()
                            } else {
                                8
                            }
                            &&& c.tooltip@ == origin.subject@ + "\n"@ + origin.author_name@
                                + " · "@ + origin.author_time@
                        }
                    } else {
                        cell is None
                    },
                    None => cell is None,
                }
            } else {
                cell is None
            },
            None => cell is None,
        },
{
    diff_cues::law_separators_are_counted(ls, i, seps);
    law_blame_is_the_last_of_its_path(blame, blame[b].path@, b);
}

/// Lines that no blame can speak of stay blank: separators, lines above the first of
/// them or below one too many, and those of a file that has no blame.
pub proof fn law_other_lines_stay_blank(
    ls: Seq<Seq<char>>,
    files: Seq<CombinedFile>,
    nums: Seq<DiffLineNo>,
    blame: Seq<FileBlame>,
    i: int,
    seps: Seq<int>,
)
    requires
        0 <= i < ls.len(),
        indices::lists(seps, 0, i, |p: int| diff_cues::file_sep(ls[p])),
        diff_cues::file_sep(ls[i]) || i >= nums.len() || seps.len() == 0 || seps.len()
            > files.len() || forall|c: int|
            0 <= c < blame.len() ==> (#[trigger] blame[c]).path@ != files[seps.len() - 1].path@,
    ensures
        blame_cell(ls, files, nums, blame, i) is None,
{
    diff_cues::law_separators_are_counted(ls, i, seps);
    if 0 < seps.len() <= files.len() {
        let path = files[seps.len() - 1].path@;
        if forall|c: int| 0 <= c < blame.len() ==> (#[trigger] blame[c]).path@ != path {
            law_blame_is_the_last_of_its_path(blame, path, -1);
        }
    }
}

/// Horizontal padding around the hash, in pixels.
pub const XPAD: i32 = 4;

/// The width of the column whose widest hash measures `text_width` pixels; it
/// collapses where there is none.
pub fn blame_width(text_width: i32) -> (r: i32)
    requires
        0 <= text_width <= i32::MAX - 2 * XPAD,
    ensures
        r == if text_width == 0 {
            0int
        } else {
            text_width + 2 * XPAD
        },
{
    if text_width == 0 {
        0
    } else {
        text_width + 2 * XPAD
    }
}

} // verus!
