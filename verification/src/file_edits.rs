//! From the diff pane to the edits of files: which files the pane shows, what its
//! buttons do to them, and what a save writes.
//!
//! A change is held twice: as it was loaded, and as it is rendered, where reverts
//! have been made. What the rendered side of a file holds is what the file is meant
//! to hold; edits in the buffer come on top of it.
use crate::diff_cues;
use crate::indices;
use crate::model::{CombinedFile, FileChange, HunkInfo};
use crate::text;
use vstd::prelude::*;

verus! {

/// A button of the diff pane: widen the context of a hunk, or drop the changes of a
/// hunk or of a file. A hunk is told by its first and last change group.
#[derive(Clone, Copy, Debug, PartialEq, Eq, Structural)]
pub enum DiffCue {
    Expand(usize, usize),
    RevertHunk(usize, usize),
    RevertFile,
}

/// What to do to a file: write content, or delete it.
#[derive(Clone, Debug, PartialEq, Eq)]
pub struct FileEdit {
    pub path: String,
    /// `None` deletes the file.
    pub content: Option<String>,
}

/// The path and content of an edit.
pub open spec fn edit_text(e: FileEdit) -> (Seq<char>, Option<Seq<char>>) {
    (e.path@, text::opt_text(e.content))
}

/// The paths and contents of edits.
pub open spec fn edit_texts(v: Seq<FileEdit>) -> Seq<(Seq<char>, Option<Seq<char>>)> {
    v.map_values(|e: FileEdit| edit_text(e))
}

/// Whether a file has been changed by a revert since it was loaded.
pub open spec fn diverged(c: FileChange, orig: Seq<FileChange>) -> bool {
    match diff_cues::change_for(orig, c.path@) {
        Some(o) => text::opt_text(o.new_text) != text::opt_text(c.new_text),
        None => true,
    }
}

/// Whether the pane shows a file: it does not where a revert has left no change.
pub open spec fn shown(c: FileChange, orig: Seq<FileChange>) -> bool {
    !(text::opt_text(c.old_text) == text::opt_text(c.new_text) && diverged(c, orig))
}

fn is_shown(c: &FileChange, orig: &[FileChange]) -> (r: bool)
    ensures
        r == shown(*c, orig@),
{
    if !text::same_opt_text(&c.old_text, &c.new_text) {
        return true;
    }
    match diff_cues::find_change(orig, &c.path) {
        Some(i) => text::same_opt_text(&orig[i].new_text, &c.new_text),
        None => false,
    }
}

/// The files that the pane shows, by their place in `changes`.
pub fn visible_changes(changes: &[FileChange], orig: &[FileChange]) -> (r: Vec<usize>)
    ensures
        indices::ascending(r@),
        forall|i: usize| #[trigger]
            r@.contains(i) <==> i < changes@.len() && shown(changes@[i as int], orig@),
{
    let mut out: Vec<usize> = Vec::new();
    let mut i: usize = 0;
    while i < changes.len()
        invariant
            i <= changes@.len(),
            indices::ascending(out@),
            forall|k: int| 0 <= k < out@.len() ==> (#[trigger] out@[k]) < i,
            forall|j: usize| #[trigger]
                out@.contains(j) <==> j < i && shown(changes@[j as int], orig@),
        decreases changes.len() - i,
    {
        if is_shown(&changes[i], orig) {
            let ghost o0 = out@;
            out.push(i);
            assert forall|j: usize| #[trigger] out@.contains(j) <==> o0.contains(j) || j == i by {
                indices::lemma_push_member(o0, i, j);
            }
        }
        i += 1;
    }
    out
}

/// The hunks of all files, in the order of the buffer.
pub open spec fn hunks_of(files: Seq<CombinedFile>) -> Seq<HunkInfo>
    decreases files.len(),
{
    if files.len() == 0 {
        Seq::<HunkInfo>::empty()
    } else {
        hunks_of(files.drop_last()) + files.last().hunks@
    }
}

/// The hunks of all files, in the order of the buffer.
pub fn flatten_hunks(files: &[CombinedFile]) -> (r: Vec<HunkInfo>)
    ensures
        r@ == hunks_of(files@),
{
    let mut out: Vec<HunkInfo> = Vec::new();
    let mut i: usize = 0;
    assert(out@ =~= hunks_of(files@.take(0)));
    while i < files.len()
        invariant
            i <= files@.len(),
            out@ == hunks_of(files@.take(i as int)),
        decreases files.len() - i,
    {
        assert(files@.take(i + 1).drop_last() =~= files@.take(i as int));
        assert(files@.take(i + 1).last() == files@[i as int]);
        let ghost o0 = out@;
        let hunks = &files[i].hunks;
        let mut k: usize = 0;
        assert(o0 + hunks@.take(0) =~= o0);
        while k < hunks.len()
            invariant
                k <= hunks@.len(),
                out@ == o0 + hunks@.take(k as int),
            decreases hunks.len() - k,
        {
            out.push(hunks[k]);
            assert(out@ =~= o0 + hunks@.take(k + 1));
            k += 1;
        }
        assert(hunks@.take(k as int) =~= hunks@);
        i += 1;
    }
    assert(files@.take(i as int) =~= files@);
    out
}

/// The file whose section of the diff holds `line`: the last separator at or before
/// it counts, and the first file before any separator.
pub open spec fn file_index_at(ls: Seq<Seq<char>>, line: int) -> int {
    let end = if line + 1 < ls.len() {
        line + 1
    } else {
        ls.len() as int
    };
    let seps = diff_cues::seps_before(ls, end);
    if seps == 0 {
        0
    } else {
        seps - 1
    }
}

/// The file whose section of the diff holds `line`, by its place among the files.
pub fn diff_file_index_at_line(text: &str, line: usize) -> (r: usize)
    ensures
        r == file_index_at(text::lines(text@), line as int),
{
    let ls = text::lines_of(text);
    let ghost gl = text::deep(ls@);
    let n: usize = ls.len();
    let mut seen: usize = 0;
    let mut i: usize = 0;
    while i < n && i <= line
        invariant
            i <= n,
            i <= line + 1,
            n == ls@.len(),
            gl == text::deep(ls@),
            seen <= i,
            seen == diff_cues::seps_before(gl, i as int),
        decreases n - i,
    {
        assert(gl[i as int] == ls@[i as int]@);
        if text::starts_with(&ls[i], "diff --git ") {
            seen += 1;
        }
        i += 1;
    }
    if seen == 0 {
        0
    } else {
        seen - 1
    }
}

/// The button beside line `line` in the column of the old numbers: on a hunk header
/// the widening of the hunk's context.
pub open spec fn expand_at(
    ls: Seq<Seq<char>>,
    files: Seq<diff_cues::FilePlace>,
    line: int,
) -> Option<(DiffCue, Seq<char>)> {
    match diff_cues::hunk_at(ls, files, line) {
        Some(t) => Some((DiffCue::Expand(t.0, t.1), t.2)),
        None => None,
    }
}

/// What a click beside line `line` in the column of the old numbers does.
pub fn cue_at_old(text: &str, files: &[CombinedFile], line: usize) -> (r: Option<
    (DiffCue, String),
>)
    ensures
        match r {
            Some(c) => expand_at(text::lines(text@), diff_cues::places(files@), line as int)
                == Some((c.0, c.1@)),
            None => expand_at(text::lines(text@), diff_cues::places(files@), line as int) is None,
        },
{
    match diff_cues::hunk_target(text, files, line) {
        Some((first, last, path)) => Some((DiffCue::Expand(first, last), path)),
        None => None,
    }
}

/// The button beside line `line` in the column of the new numbers: on a hunk header
/// the revert of the hunk, on a file separator that of the file.
pub open spec fn revert_at(
    ls: Seq<Seq<char>>,
    files: Seq<diff_cues::FilePlace>,
    line: int,
) -> Option<(DiffCue, Seq<char>)> {
    match diff_cues::hunk_at(ls, files, line) {
        Some(t) => Some((DiffCue::RevertHunk(t.0, t.1), t.2)),
        None => match diff_cues::file_at(ls, files, line) {
            Some(path) => Some((DiffCue::RevertFile, path)),
            None => None,
        },
    }
}

/// What a click beside line `line` in the column of the new numbers does.
pub fn cue_at_new(text: &str, files: &[CombinedFile], line: usize) -> (r: Option<
    (DiffCue, String),
>)
    ensures
        match r {
            Some(c) => revert_at(text::lines(text@), diff_cues::places(files@), line as int)
                == Some((c.0, c.1@)),
            None => revert_at(text::lines(text@), diff_cues::places(files@), line as int) is None,
        },
{
    match diff_cues::hunk_target(text, files, line) {
        Some((first, last, path)) => Some((DiffCue::RevertHunk(first, last), path)),
        None => match diff_cues::file_target(text, files, line) {
            Some(path) => Some((DiffCue::RevertFile, path)),
            None => None,
        },
    }
}

/// A change with another new side.
pub open spec fn with_new_text(c: FileChange, after: FileChange, new_text: Option<Seq<char>>) -> bool {
    &&& after.path == c.path
    &&& after.kind == c.kind
    &&& after.old_text == c.old_text
    &&& after.is_binary == c.is_binary
    &&& after.conflicted_base == c.conflicted_base
    &&& text::opt_text(after.new_text) == new_text
}

/// Whether `after` is `before` with another new side of the file at `path`, if there
/// is such a file.
pub open spec fn rewrote(
    before: Seq<FileChange>,
    after: Seq<FileChange>,
    path: Seq<char>,
    new_text: Option<Seq<char>>,
) -> bool {
    match diff_cues::change_for(before, path) {
        None => after == before,
        Some(_) => exists|i: int|
            0 <= i < before.len() && diff_cues::change_for(before, path) == Some(before[i])
                && after.len() == before.len() && with_new_text(
                before[i],
                #[trigger] after[i],
                new_text,
            ) && forall|j: int| 0 <= j < before.len() && j != i ==> #[trigger] after[j]
                == before[j],
    }
}

fn rewrite_at(changes: &mut Vec<FileChange>, i: usize, new_text: Option<String>)
    requires
        i < old(changes)@.len(),
    ensures
        final(changes)@.len() == old(changes)@.len(),
        with_new_text(
            old(changes)@[i as int],
            final(changes)@[i as int],
            text::opt_text(new_text),
        ),
        forall|j: int|
            0 <= j < old(changes)@.len() && j != i ==> #[trigger] final(changes)@[j] == old(
                changes,
            )@[j],
{
    let mut c = changes.remove(i);
    c.new_text = new_text;
    changes.insert(i, c);
}

fn copy_opt(t: &Option<String>) -> (r: Option<String>)
    ensures
        text::opt_text(r) == text::opt_text(*t),
{
    match t {
        Some(s) => Some(s.clone()),
        None => None,
    }
}

/// Drops all changes of the file at `path`: its new side becomes its old side.
pub fn revert_file(changes: &mut Vec<FileChange>, path: &String)
    ensures
        match diff_cues::change_for(old(changes)@, path@) {
            Some(c) => rewrote(old(changes)@, final(changes)@, path@, text::opt_text(c.old_text)),
            None => final(changes)@ == old(changes)@,
        },
{
    let ghost before = changes@;
    if let Some(i) = diff_cues::find_change(changes.as_slice(), path) {
        let side = copy_opt(&changes[i].old_text);
        rewrite_at(changes, i, side);
        proof {
            let after = changes@;
            assert(with_new_text(before[i as int], after[i as int], text::opt_text(side)));
            assert(after.len() == before.len());
            assert(rewrote(before, after, path@, text::opt_text(before[i as int].old_text)));
        }
    }
}

/// The two sides of the file at `path`, from which a hunk is reverted; a side that
/// does not exist is empty.
pub fn revert_sides(changes: &[FileChange], path: &String) -> (r: Option<(String, String)>)
    ensures
        match diff_cues::change_for(changes@, path@) {
            Some(c) => r matches Some(s) && s.0@ == text_or_empty(c.old_text) && s.1@
                == text_or_empty(c.new_text),
            None => r is None,
        },
{
    match diff_cues::find_change(changes, path) {
        Some(i) => Some((or_empty(&changes[i].old_text), or_empty(&changes[i].new_text))),
        None => None,
    }
}

/// The text, empty where there is none.
pub open spec fn text_or_empty(t: Option<String>) -> Seq<char> {
    match text::opt_text(t) {
        Some(s) => s,
        None => Seq::<char>::empty(),
    }
}

fn or_empty(t: &Option<String>) -> (r: String)
    ensures
        r@ == text_or_empty(*t),
{
    match t {
        Some(s) => s.clone(),
        None => {
            let none = String::new();
            assert(none@ =~= Seq::<char>::empty());
            none
        },
    }
}

/// Puts the new side of the file at `path`, from which a hunk has been reverted.
pub fn set_reverted(changes: &mut Vec<FileChange>, path: &String, new_text: String)
    ensures
        rewrote(old(changes)@, final(changes)@, path@, Some(new_text@)),
{
    let ghost before = changes@;
    let ghost t = new_text@;
    if let Some(i) = diff_cues::find_change(changes.as_slice(), path) {
        rewrite_at(changes, i, Some(new_text));
        proof {
            let after = changes@;
            assert(with_new_text(before[i as int], after[i as int], Some(t)));
            assert(after.len() == before.len());
        }
    }
}

/// The patch of the file at `path` in the buffer, by sections; the last counts.
pub open spec fn section_for(sections: Seq<(String, String)>, path: Seq<char>) -> Option<Seq<char>>
    decreases sections.len(),
{
    if sections.len() == 0 {
        None
    } else if sections.last().0@ == path {
        Some(sections.last().1@)
    } else {
        section_for(sections.drop_last(), path)
    }
}

/// Whether a file has text that can be edited, as it was loaded.
pub open spec fn editable_text(orig: Seq<FileChange>, path: Seq<char>) -> bool {
    diff_cues::change_for(orig, path) matches Some(o) && !o.is_binary && !o.conflicted_base
}

/// The old side and the patch from which the content of a rendered file is made;
/// `None` where no patch is applied.
pub open spec fn patch_job(
    r: FileChange,
    orig: Seq<FileChange>,
    sections: Seq<(String, String)>,
) -> Option<(Seq<char>, Seq<char>)> {
    if editable_text(orig, r.path@) && r.new_text is Some {
        match section_for(sections, r.path@) {
            Some(patch) => Some((text_or_empty(r.old_text), patch)),
            None => None,
        }
    } else {
        None
    }
}

/// The texts of a job.
pub open spec fn job_text(j: Option<(String, String)>) -> Option<(Seq<char>, Seq<char>)> {
    match j {
        Some(p) => Some((p.0@, p.1@)),
        None => None,
    }
}

fn find_section(sections: &[(String, String)], path: &String) -> (r: Option<usize>)
    ensures
        match r {
            Some(i) => i < sections@.len() && section_for(sections@, path@) == Some(
                sections@[i as int].1@,
            ),
            None => section_for(sections@, path@) is None,
        },
{
    let mut n: usize = sections.len();
    assert(sections@.take(n as int) =~= sections@);
    while n > 0
        invariant
            n <= sections@.len(),
            section_for(sections@, path@) == section_for(sections@.take(n as int), path@),
        decreases n,
    {
        assert(sections@.take(n as int).last() == sections@[n - 1]);
        assert(sections@.take(n as int).drop_last() =~= sections@.take(n - 1));
        if text::same_text(sections[n - 1].0.as_str(), path.as_str()) {
            return Some(n - 1);
        }
        n -= 1;
    }
    None
}

fn is_editable(orig: &[FileChange], path: &String) -> (r: bool)
    ensures
        r == editable_text(orig@, path@),
{
    match diff_cues::find_change(orig, path) {
        Some(i) => !orig[i].is_binary && !orig[i].conflicted_base,
        None => false,
    }
}

/// For every rendered file, the old side and the patch that its content is to be made
/// from. `sections` holds the patches that the buffer is made of, by path.
pub fn patch_jobs(
    sections: &[(String, String)],
    render: &[FileChange],
    orig: &[FileChange],
) -> (r: Vec<Option<(String, String)>>)
    ensures
        r@.len() == render@.len(),
        forall|i: int|
            0 <= i < r@.len() ==> job_text(#[trigger] r@[i]) == patch_job(
                render@[i],
                orig@,
                sections@,
            ),
{
    let mut out: Vec<Option<(String, String)>> = Vec::new();
    let mut i: usize = 0;
    while i < render.len()
        invariant
            i <= render@.len(),
            out@.len() == i,
            forall|j: int|
                0 <= j < i ==> job_text(#[trigger] out@[j]) == patch_job(
                    render@[j],
                    orig@,
                    sections@,
                ),
        decreases render.len() - i,
    {
        let r = &render[i];
        let job = if is_editable(orig, &r.path) && r.new_text.is_some() {
            match find_section(sections, &r.path) {
                Some(k) => Some((or_empty(&r.old_text), sections[k].1.clone())),
                None => None,
            }
        } else {
            None
        };
        out.push(job);
        i += 1;
    }
    out
}

/// Patched content in the style of the text it stands for: where that does not end
/// in a line break, one at the end of the content is dropped.
pub open spec fn restyled(content: Seq<char>, want: Seq<char>) -> Seq<char> {
    if want.len() > 0 && want.last() != '\n' && content.len() > 0 && content.last() == '\n' {
        content.drop_last()
    } else {
        content
    }
}

/// The outcome of a patch: the content, or why it does not apply.
pub open spec fn outcome_text(p: Option<Result<String, String>>) -> Option<
    Result<Seq<char>, Seq<char>>,
> {
    match p {
        None => None,
        Some(Ok(c)) => Some(Ok(c@)),
        Some(Err(e)) => Some(Err(e@)),
    }
}

/// What a rendered file is to hold in the end: its patched content, or where the
/// buffer has no part of it, its rendered new side.
pub open spec fn target(r: FileChange, patched: Option<Result<Seq<char>, Seq<char>>>) -> Result<
    Option<Seq<char>>,
    Seq<char>,
> {
    match text::opt_text(r.new_text) {
        None => Ok(None),
        Some(want) => match patched {
            None => Ok(Some(want)),
            Some(Ok(content)) => Ok(Some(restyled(content, want))),
            Some(Err(e)) => Err("Cannot apply edited patch for "@ + r.path@ + ": "@ + e),
        },
    }
}

/// The edits of the first `n` rendered files, or why the first patch that does not
/// apply does not.
pub open spec fn edits_of(
    render: Seq<FileChange>,
    orig: Seq<FileChange>,
    patched: Seq<Option<Result<String, String>>>,
    n: int,
) -> Result<Seq<(Seq<char>, Option<Seq<char>>)>, Seq<char>>
    decreases n,
{
    if n <= 0 {
        Ok(Seq::<(Seq<char>, Option<Seq<char>>)>::empty())
    } else {
        match edits_of(render, orig, patched, n - 1) {
            Err(e) => Err(e),
            Ok(v) => {
                let r = render[n - 1];
                if !editable_text(orig, r.path@) {
                    Ok(v)
                } else {
                    match target(r, outcome_text(patched[n - 1])) {
                        Err(e) => Err(e),
                        Ok(t) => if t == text::opt_text(
                            diff_cues::change_for(orig, r.path@)->0.new_text,
                        ) {
                            Ok(v)
                        } else {
                            Ok(v.push((r.path@, t)))
                        },
                    }
                }
            },
        }
    }
}

fn content_for(r: &FileChange, patched: &Option<Result<String, String>>) -> (t: Result<
    Option<String>,
    String,
>)
    ensures
        match t {
            Ok(c) => target(*r, outcome_text(*patched)) == Ok::<Option<Seq<char>>, Seq<char>>(
                text::opt_text(c),
            ),
            Err(e) => target(*r, outcome_text(*patched)) == Err::<Option<Seq<char>>, Seq<char>>(e@),
        },
{
    match &r.new_text {
        None => Ok(None),
        Some(want) => match patched {
            None => Ok(Some(want.clone())),
            Some(Ok(content)) => {
                let w = text::chars_of(want.as_str());
                let mut c = text::chars_of(content.as_str());
                let wn: usize = w.len();
                let cn: usize = c.len();
                if wn > 0 && w[wn - 1] != '\n' && cn > 0 && c[cn - 1] == '\n' {
                    c.truncate(cn - 1);
                    assert(c@ =~= content@.drop_last());
                }
                Ok(Some(text::string_of(&c)))
            },
            Some(Err(e)) => {
                let mut m = text::chars_of("Cannot apply edited patch for ");
                text::push_text(&mut m, r.path.as_str());
                text::push_text(&mut m, ": ");
                text::push_text(&mut m, e.as_str());
                Err(text::string_of(&m))
            },
        },
    }
}

/// What a save writes: an edit for every file that is to hold something else than it
/// was loaded with. `patched` tells what came of every rendered file's patch.
pub fn collect_file_edits(
    render: &[FileChange],
    orig: &[FileChange],
    patched: &[Option<Result<String, String>>],
) -> (r: Result<Vec<FileEdit>, String>)
    requires
        patched@.len() == render@.len(),
    ensures
        match r {
            Ok(v) => edits_of(render@, orig@, patched@, render@.len() as int) == Ok::<
                Seq<(Seq<char>, Option<Seq<char>>)>,
                Seq<char>,
            >(edit_texts(v@)),
            Err(e) => edits_of(render@, orig@, patched@, render@.len() as int) == Err::<
                Seq<(Seq<char>, Option<Seq<char>>)>,
                Seq<char>,
            >(e@),
        },
{
    let mut out: Vec<FileEdit> = Vec::new();
    let mut i: usize = 0;
    assert(edit_texts(out@) =~= Seq::<(Seq<char>, Option<Seq<char>>)>::empty());
    while i < render.len()
        invariant
            i <= render@.len(),
            patched@.len() == render@.len(),
            edits_of(render@, orig@, patched@, i as int) == Ok::<
                Seq<(Seq<char>, Option<Seq<char>>)>,
                Seq<char>,
            >(edit_texts(out@)),
        decreases render.len() - i,
    {
        let r = &render[i];
        let ghost o0 = out@;
        if let Some(k) = diff_cues::find_change(orig, &r.path) {
            let o = &orig[k];
            if !o.is_binary && !o.conflicted_base {
                match content_for(r, &patched[i]) {
                    Ok(content) => {
                        if !text::same_opt_text(&content, &o.new_text) {
                            let ghost gc = text::opt_text(content);
                            out.push(FileEdit { path: r.path.clone(), content });
                            assert(edit_texts(out@) =~= edit_texts(o0).push((r.path@, gc)));
                        }
                    },
                    Err(e) => {
                        proof {
                            lemma_error_stays(
                                render@,
                                orig@,
                                patched@,
                                i + 1,
                                render@.len() as int,
                            );
                        }
                        return Err(e);
                    },
                }
            }
        }
        i += 1;
    }
    Ok(out)
}

proof fn lemma_error_stays(
    render: Seq<FileChange>,
    orig: Seq<FileChange>,
    patched: Seq<Option<Result<String, String>>>,
    i: int,
    n: int,
)
    requires
        0 < i <= n,
        edits_of(render, orig, patched, i) is Err,
    ensures
        edits_of(render, orig, patched, n) == edits_of(render, orig, patched, i),
    decreases n,
{
    if i < n {
        lemma_error_stays(render, orig, patched, i, n - 1);
    }
}

proof fn lemma_edits_keep(
    render: Seq<FileChange>,
    orig: Seq<FileChange>,
    patched: Seq<Option<Result<String, String>>>,
    i: int,
    n: int,
    e: (Seq<char>, Option<Seq<char>>),
)
    requires
        0 <= i <= n,
        edits_of(render, orig, patched, n) is Ok,
    ensures
        edits_of(render, orig, patched, i) is Ok,
        edits_of(render, orig, patched, i)->Ok_0.contains(e) ==> edits_of(
            render,
            orig,
            patched,
            n,
        )->Ok_0.contains(e),
    decreases n,
{
    if i < n {
        lemma_edits_keep(render, orig, patched, i, n - 1, e);
        let v = edits_of(render, orig, patched, n - 1)->Ok_0;
        let w = edits_of(render, orig, patched, n)->Ok_0;
        if v.contains(e) {
            let k = choose|k: int| 0 <= k < v.len() && v[k] == e;
            assert(w[k] == e);
        }
    }
}

/// No edit is lost: a save holds, for every editable file, what the file is to hold,
/// unless that is what it was loaded with. A file with a patch is to hold what the
/// patch made of it, without the last line break where the rendered text has none; a
/// file without one is to hold its rendered text, and a file that is rendered as gone
/// is deleted. `orig[k]` is the file as it was loaded.
pub proof fn law_every_edit_is_saved(
    render: Seq<FileChange>,
    orig: Seq<FileChange>,
    patched: Seq<Option<Result<String, String>>>,
    saved: Seq<FileEdit>,
    i: int,
    k: int,
)
    requires
        0 <= i < render.len(),
        edits_of(render, orig, patched, render.len() as int) == Ok::<
            Seq<(Seq<char>, Option<Seq<char>>)>,
            Seq<char>,
        >(edit_texts(saved)),
        0 <= k < orig.len(),
        orig[k].path@ == render[i].path@,
        forall|j: int| 0 <= j < k ==> (#[trigger] orig[j]).path@ != render[i].path@,
        !orig[k].is_binary,
        !orig[k].conflicted_base,
    ensures
        match (render[i].new_text, patched[i]) {
            (None, _) => orig[k].new_text is Some ==> exists|e: int|
                0 <= e < saved.len() && (#[trigger] saved[e]).path@ == render[i].path@
                    && saved[e].content is None,
            (Some(shown), None) => (orig[k].new_text matches Some(t) ==> t@ != shown@)
                ==> exists|e: int|
                0 <= e < saved.len() && (#[trigger] saved[e]).path@ == render[i].path@
                    && (saved[e].content matches Some(c) && c@ == shown@),
            (Some(shown), Some(Ok(made))) => {
                let broken_off = shown@.len() > 0 && shown@.last() != '\n' && made@.len() > 0
                    && made@.last() == '\n';
                (orig[k].new_text matches Some(t) ==> if broken_off {
                    t@.push('\n') != made@
                } else {
                    t@ != made@
                }) ==> exists|e: int|
                    0 <= e < saved.len() && (#[trigger] saved[e]).path@ == render[i].path@
                        && (saved[e].content matches Some(c) && if broken_off {
                        c@.push('\n') == made@
                    } else {
                        c@ == made@
                    })
            },
            (Some(_), Some(Err(_))) => false,
        },
{
    let path = render[i].path@;
    let n = render.len() as int;
    diff_cues::law_change_is_the_first_of_its_path(orig, path, k);
    let none: (Seq<char>, Option<Seq<char>>) = (path, None);
    lemma_edits_keep(render, orig, patched, i + 1, n, none);
    lemma_edits_keep(render, orig, patched, i, n, none);
    let before = edits_of(render, orig, patched, i)->Ok_0;
    let after = edits_of(render, orig, patched, i + 1)->Ok_0;
    let t = target(render[i], outcome_text(patched[i]));
    assert(t is Ok);
    let want = t->Ok_0;
    if let (Some(shown), Some(Ok(made))) = (render[i].new_text, patched[i]) {
        if shown@.len() > 0 && shown@.last() != '\n' && made@.len() > 0 && made@.last() == '\n' {
            assert(made@.drop_last().push('\n') =~= made@);
            if let Some(was) = orig[k].new_text {
                assert(was@.push('\n').drop_last() =~= was@);
            }
        }
    }
    if want != text::opt_text(orig[k].new_text) {
        assert(after == before.push((path, want)));
        assert(after[before.len() as int] == (path, want));
        lemma_edits_keep(render, orig, patched, i + 1, n, (path, want));
        let all = edit_texts(saved);
        let e = choose|e: int| 0 <= e < all.len() && all[e] == (path, want);
        assert(edit_text(saved[e]) == (path, want));
        assert(saved[e].path@ == path);
    }
}

/// A save holds nothing else: its edits are those of rendered files, in their order
/// and one for each at most, of files that were loaded as editable text, and none of
/// them writes what the file was loaded with. The result names the files.
pub proof fn law_nothing_else_is_saved(
    render: Seq<FileChange>,
    orig: Seq<FileChange>,
    patched: Seq<Option<Result<String, String>>>,
    saved: Seq<FileEdit>,
) -> (at: Seq<int>)
    requires
        edits_of(render, orig, patched, render.len() as int) == Ok::<
            Seq<(Seq<char>, Option<Seq<char>>)>,
            Seq<char>,
        >(edit_texts(saved)),
    ensures
        at.len() == saved.len(),
        forall|a: int, b: int| 0 <= a < b < at.len() ==> at[a] < at[b],
        forall|e: int|
            0 <= e < saved.len() ==> 0 <= #[trigger] at[e] < render.len() && saved[e].path@
                == render[at[e]].path@ && loaded_as_text(
                orig,
                saved[e].path@,
                text::opt_text(saved[e].content),
            ),
{
    let at = lemma_edits_are_rendered(render, orig, patched, render.len() as int);
    let all = edit_texts(saved);
    assert(all.len() == saved.len());
    assert forall|e: int| 0 <= e < saved.len() implies 0 <= #[trigger] at[e] < render.len()
        && saved[e].path@ == render[at[e]].path@ && loaded_as_text(
        orig,
        saved[e].path@,
        text::opt_text(saved[e].content),
    ) by {
        assert(all[e] == edit_text(saved[e]));
    }
    at
}

/// Whether `orig[k]` is the first file at `path`.
pub open spec fn first_with_path(orig: Seq<FileChange>, path: Seq<char>, k: int) -> bool {
    0 <= k < orig.len() && orig[k].path@ == path && forall|j: int|
        0 <= j < k ==> (#[trigger] orig[j]).path@ != path
}

/// Whether the file at `path` was loaded as editable text, with other content.
pub open spec fn loaded_as_text(
    orig: Seq<FileChange>,
    path: Seq<char>,
    content: Option<Seq<char>>,
) -> bool {
    exists|k: int| #[trigger]
        first_with_path(orig, path, k) && !orig[k].is_binary && !orig[k].conflicted_base
            && text::opt_text(orig[k].new_text) != content
}

proof fn lemma_first_with_path(orig: Seq<FileChange>, path: Seq<char>) -> (k: int)
    requires
        diff_cues::change_for(orig, path) is Some,
    ensures
        first_with_path(orig, path, k),
        diff_cues::change_for(orig, path) == Some(orig[k]),
    decreases orig.len(),
{
    if orig[0].path@ == path {
        0
    } else {
        let rest = orig.skip(1);
        let k = lemma_first_with_path(rest, path);
        assert forall|j: int| 0 <= j < k + 1 implies (#[trigger] orig[j]).path@ != path by {
            if j > 0 {
                assert(rest[j - 1] == orig[j]);
            }
        }
        k + 1
    }
}

proof fn lemma_edits_are_rendered(
    render: Seq<FileChange>,
    orig: Seq<FileChange>,
    patched: Seq<Option<Result<String, String>>>,
    n: int,
) -> (at: Seq<int>)
    requires
        0 <= n <= render.len(),
        edits_of(render, orig, patched, n) is Ok,
    ensures
        at.len() == edits_of(render, orig, patched, n)->Ok_0.len(),
        forall|a: int, b: int| 0 <= a < b < at.len() ==> at[a] < at[b],
        forall|e: int|
            0 <= e < at.len() ==> 0 <= #[trigger] at[e] < n && edits_of(
                render,
                orig,
                patched,
                n,
            )->Ok_0[e].0 == render[at[e]].path@,
        forall|e: int|
            0 <= e < at.len() ==> loaded_as_text(
                orig,
                (#[trigger] edits_of(render, orig, patched, n)->Ok_0[e]).0,
                edits_of(render, orig, patched, n)->Ok_0[e].1,
            ),
    decreases n,
{
    if n <= 0 {
        Seq::<int>::empty()
    } else {
        let init = lemma_edits_are_rendered(render, orig, patched, n - 1);
        let v = edits_of(render, orig, patched, n - 1)->Ok_0;
        let w = edits_of(render, orig, patched, n)->Ok_0;
        let path = render[n - 1].path@;
        if w.len() == v.len() {
            assert(w == v);
            init
        } else {
            let k = lemma_first_with_path(orig, path);
            let at = init.push(n - 1);
            assert(w[v.len() as int].0 == path);
            assert(first_with_path(orig, w[v.len() as int].0, k));
            assert forall|e: int| 0 <= e < at.len() implies loaded_as_text(
                orig,
                (#[trigger] w[e]).0,
                w[e].1,
            ) by {
                if e < v.len() {
                    assert(w[e] == v[e]);
                }
            }
            at
        }
    }
}

/// A save stops at the first patch that does not apply, and tells the file and the
/// reason; with no such patch it goes through.
pub proof fn law_broken_patch_stops_the_save(
    render: Seq<FileChange>,
    orig: Seq<FileChange>,
    patched: Seq<Option<Result<String, String>>>,
    i: int,
)
    requires
        0 <= i <= render.len(),
        forall|j: int|
            0 <= j < i ==> !(editable_text(orig, (#[trigger] render[j]).path@)
                && render[j].new_text is Some && (patched[j] matches Some(p) && p is Err)),
        i < render.len() ==> editable_text(orig, render[i].path@) && render[i].new_text is Some
            && (patched[i] matches Some(p) && p is Err),
    ensures
        edits_of(render, orig, patched, i) is Ok,
        i < render.len() ==> edits_of(render, orig, patched, render.len() as int) == Err::<
            Seq<(Seq<char>, Option<Seq<char>>)>,
            Seq<char>,
        >("Cannot apply edited patch for "@ + render[i].path@ + ": "@ + patched[i]->0->Err_0@),
    decreases i,
{
    if i > 0 {
        lemma_whole_patches_go_through(render, orig, patched, i);
    }
    if i < render.len() {
        lemma_error_stays(render, orig, patched, i + 1, render.len() as int);
    }
}

proof fn lemma_whole_patches_go_through(
    render: Seq<FileChange>,
    orig: Seq<FileChange>,
    patched: Seq<Option<Result<String, String>>>,
    i: int,
)
    requires
        0 <= i <= render.len(),
        forall|j: int|
            0 <= j < i ==> !(editable_text(orig, (#[trigger] render[j]).path@)
                && render[j].new_text is Some && (patched[j] matches Some(p) && p is Err)),
    ensures
        edits_of(render, orig, patched, i) is Ok,
    decreases i,
{
    if i > 0 {
        lemma_whole_patches_go_through(render, orig, patched, i - 1);
        let r = render[i - 1];
        assert(!(editable_text(orig, r.path@) && r.new_text is Some && (patched[i - 1] matches Some(
            p,
        ) && p is Err)));
    }
}

/// Whether a patch gives a text back, up to the line break that patching puts at
/// the end of every text.
pub open spec fn reproduces(patched: Option<Result<Seq<char>, Seq<char>>>, want: Seq<char>) -> bool {
    match patched {
        None => true,
        Some(Ok(content)) => content == want || (want.len() > 0 && want.last() != '\n' && content
            == want.push('\n')),
        Some(Err(_)) => false,
    }
}

/// A diff that nobody has touched gives no edits: where the files are rendered as
/// they were loaded, and their patches give their new sides back.
pub proof fn law_untouched_diff_has_no_edits(
    orig: Seq<FileChange>,
    patched: Seq<Option<Result<String, String>>>,
    n: int,
)
    requires
        0 <= n <= orig.len(),
        patched.len() == orig.len(),
        forall|i: int|
            0 <= i < orig.len() ==> diff_cues::change_for(orig, (#[trigger] orig[i]).path@)
                == Some(orig[i]),
        forall|i: int|
            0 <= i < orig.len() && text::opt_text((#[trigger] orig[i]).new_text) is Some
                ==> reproduces(outcome_text(patched[i]), text::opt_text(orig[i].new_text)->0),
    ensures
        edits_of(orig, orig, patched, n) == Ok::<Seq<(Seq<char>, Option<Seq<char>>)>, Seq<char>>(
            Seq::<(Seq<char>, Option<Seq<char>>)>::empty(),
        ),
    decreases n,
{
    if n > 0 {
        law_untouched_diff_has_no_edits(orig, patched, n - 1);
        let c = orig[n - 1];
        assert(diff_cues::change_for(orig, c.path@) == Some(c));
        if let Some(want) = text::opt_text(c.new_text) {
            assert(reproduces(outcome_text(patched[n - 1]), want));
            if let Some(Ok(content)) = outcome_text(patched[n - 1]) {
                if content != want {
                    assert(content.drop_last() =~= want);
                } else if want.len() > 0 && want.last() != '\n' {
                    assert(content.last() != '\n');
                }
            }
        }
    }
}

/// A file that is reverted as a whole has no change left, leaves the pane, and is
/// put back by the next save to what it was before the commit.
pub proof fn law_reverted_file_is_put_back(
    c: FileChange,
    after: FileChange,
    orig: Seq<FileChange>,
)
    requires
        with_new_text(c, after, text::opt_text(c.old_text)),
        diff_cues::change_for(orig, c.path@) matches Some(o) && text::opt_text(o.new_text)
            != text::opt_text(c.old_text),
    ensures
        !diff_cues::file_revertable(after),
        !shown(after, orig),
        target(after, None) == Ok::<Option<Seq<char>>, Seq<char>>(text::opt_text(c.old_text)),
{
}

/// A file is hidden exactly where it was put back: its two texts are the same, and the
/// diff as loaded says otherwise. `k` is the file's first place there, or -1.
pub proof fn law_only_files_put_back_are_hidden(
    changes: &[FileChange],
    orig: &[FileChange],
    r: Vec<usize>,
    i: usize,
    k: int,
)
    requires
        call_ensures(visible_changes, (changes, orig), r),
        i < changes@.len(),
        if k >= 0 {
            first_with_path(orig@, changes@[i as int].path@, k)
        } else {
            forall|j: int|
                0 <= j < orig@.len() ==> (#[trigger] orig@[j]).path@ != changes@[i as int].path@
        },
    ensures
        r@.contains(i) <==> {
            let c = changes@[i as int];
            ||| text::opt_text(c.old_text) != text::opt_text(c.new_text)
            ||| k >= 0 && text::opt_text(orig@[k].new_text) == text::opt_text(c.new_text)
        },
{
    lemma_change_at(orig@, changes@[i as int].path@, k);
}

/// The change that belongs to a path is the first with it.
proof fn lemma_change_at(orig: Seq<FileChange>, path: Seq<char>, k: int)
    requires
        if k >= 0 {
            first_with_path(orig, path, k)
        } else {
            forall|j: int| 0 <= j < orig.len() ==> (#[trigger] orig[j]).path@ != path
        },
    ensures
        diff_cues::change_for(orig, path) == if k >= 0 {
            Some(orig[k])
        } else {
            None
        },
{
    if diff_cues::change_for(orig, path) is Some {
        let m = lemma_first_with_path(orig, path);
        assert(orig[m].path@ == path);
        if k >= 0 && m < k {
            assert(orig[m].path@ != path);
        } else if k >= 0 && k < m {
            assert(orig[k].path@ != path);
        }
    } else if k >= 0 {
        lemma_no_change(orig, path, k);
    }
}

proof fn lemma_no_change(orig: Seq<FileChange>, path: Seq<char>, k: int)
    requires
        diff_cues::change_for(orig, path) is None,
        0 <= k < orig.len(),
    ensures
        orig[k].path@ != path,
    decreases orig.len(),
{
    if k > 0 {
        assert(orig.skip(1)[k - 1] == orig[k]);
        lemma_no_change(orig.skip(1), path, k - 1);
    }
}

/// Whether `after` is `before` with the text of the file at `k` set to `text`, and
/// nothing else changed.
pub open spec fn only_text_set(
    before: Seq<FileChange>,
    after: Seq<FileChange>,
    k: int,
    text: Option<Seq<char>>,
) -> bool {
    &&& after.len() == before.len()
    &&& text::opt_text(after[k].new_text) == text
    &&& after[k].path == before[k].path
    &&& after[k].kind == before[k].kind
    &&& after[k].old_text == before[k].old_text
    &&& after[k].is_binary == before[k].is_binary
    &&& after[k].conflicted_base == before[k].conflicted_base
    &&& forall|j: int| 0 <= j < before.len() && j != k ==> #[trigger] after[j] == before[j]
}

/// Reverting touches one file: the first with the path gets the text, which for a whole
/// file is its old one, and every other file stays.
pub proof fn law_a_revert_touches_one_file(
    before: Seq<FileChange>,
    after: Seq<FileChange>,
    path: Seq<char>,
    text: Option<Seq<char>>,
    k: int,
)
    requires
        rewrote(before, after, path, text),
        first_with_path(before, path, k),
        forall|a: int, b: int|
            0 <= a < b < before.len() ==> (#[trigger] before[a]).path@ != (
            #[trigger] before[b]).path@,
    ensures
        only_text_set(before, after, k, text),
{
    lemma_change_at(before, path, k);
    let i = choose|i: int|
        0 <= i < before.len() && diff_cues::change_for(before, path) == Some(before[i])
            && after.len() == before.len() && with_new_text(before[i], #[trigger] after[i], text)
            && forall|j: int| 0 <= j < before.len() && j != i ==> #[trigger] after[j] == before[j];
    if i < k {
        assert(before[i].path@ != before[k].path@);
    } else if k < i {
        assert(before[k].path@ != before[i].path@);
    }
}

/// The two texts that a revert works on are those of the first file with the path.
pub proof fn law_a_revert_reads_its_file(
    changes: &[FileChange],
    path: &String,
    r: Option<(String, String)>,
    k: int,
)
    requires
        call_ensures(revert_sides, (changes, path), r),
        first_with_path(changes@, path@, k),
    ensures
        r is Some,
        changes@[k].old_text matches Some(t) ==> (r->0).0@ == t@,
        changes@[k].old_text is None ==> (r->0).0@.len() == 0,
        changes@[k].new_text matches Some(t) ==> (r->0).1@ == t@,
        changes@[k].new_text is None ==> (r->0).1@.len() == 0,
{
    lemma_change_at(changes@, path@, k);
}

/// A file's patch is the last section with its path, applied to its old text; files
/// that are binary, conflicted, deleted or not in the diff as loaded have none.
pub proof fn law_the_last_section_is_applied(
    sections: &[(String, String)],
    render: &[FileChange],
    orig: &[FileChange],
    r: Vec<Option<(String, String)>>,
    i: int,
    k: int,
    m: int,
)
    requires
        call_ensures(patch_jobs, (sections, render, orig), r),
        0 <= i < render@.len(),
        if k >= 0 {
            first_with_path(orig@, render@[i].path@, k)
        } else {
            forall|j: int| 0 <= j < orig@.len() ==> (#[trigger] orig@[j]).path@ != render@[i].path@
        },
        -1 <= m < sections@.len(),
        m >= 0 ==> sections@[m].0@ == render@[i].path@,
        forall|j: int|
            m < j < sections@.len() ==> (#[trigger] sections@[j]).0@ != render@[i].path@,
    ensures
        r@[i] is Some <==> k >= 0 && m >= 0 && !orig@[k].is_binary && !orig@[k].conflicted_base
            && render@[i].new_text is Some,
        r@[i] matches Some(p) ==> p.1@ == sections@[m].1@ && p.0@ == match render@[i].old_text {
            Some(t) => t@,
            None => Seq::<char>::empty(),
        },
{
    lemma_change_at(orig@, render@[i].path@, k);
    lemma_section_for(sections@, render@[i].path@, m);
    assert(job_text(r@[i]) == patch_job(render@[i], orig@, sections@));
}

proof fn lemma_section_for(sections: Seq<(String, String)>, path: Seq<char>, m: int)
    requires
        -1 <= m < sections.len(),
        m >= 0 ==> sections[m].0@ == path,
        forall|j: int| m < j < sections.len() ==> (#[trigger] sections[j]).0@ != path,
    ensures
        section_for(sections, path) == if m >= 0 {
            Some(sections[m].1@)
        } else {
            None
        },
    decreases sections.len(),
{
    if sections.len() > 0 && m < sections.len() - 1 {
        let init = sections.drop_last();
        assert(sections[sections.len() - 1].0@ != path);
        assert forall|j: int| m < j < init.len() implies (#[trigger] init[j]).0@ != path by {
            assert(init[j] == sections[j]);
        }
        lemma_section_for(init, path, m);
    }
}

/// The hunks of all files stand one after the other: hunk `h` of file `f` comes behind
/// all hunks of the files before it.
pub proof fn law_hunks_follow_their_files(files: &[CombinedFile], r: Vec<HunkInfo>, f: int, h: int)
    requires
        call_ensures(flatten_hunks, (files,), r),
        0 <= f < files@.len(),
        0 <= h < files@[f].hunks@.len(),
    ensures
        hunks_of(files@.take(f)).len() + h < r@.len(),
        r@[hunks_of(files@.take(f)).len() + h] == files@[f].hunks@[h],
        hunks_of(files@.take(f + 1)).len() == hunks_of(files@.take(f)).len()
            + files@[f].hunks@.len(),
{
    assert(files@.take(files@.len() as int) =~= files@);
    lemma_hunk_place(files@, files@.len() as int, f, h);
    assert(files@.take(f + 1).drop_last() =~= files@.take(f));
}

proof fn lemma_hunk_place(files: Seq<CombinedFile>, n: int, f: int, h: int)
    requires
        0 <= f < n <= files.len(),
        0 <= h < files[f].hunks@.len(),
    ensures
        hunks_of(files.take(f)).len() + h < hunks_of(files.take(n)).len(),
        hunks_of(files.take(n))[hunks_of(files.take(f)).len() + h] == files[f].hunks@[h],
    decreases n,
{
    assert(files.take(n).drop_last() =~= files.take(n - 1));
    if f < n - 1 {
        lemma_hunk_place(files, n - 1, f, h);
    }
}

/// A click on the old side expands the hunk whose header was hit, and one on the new
/// side reverts it; only the new side answers on the line that names a file.
pub proof fn law_a_click_acts_on_what_it_hit(
    text: &str,
    files: &[CombinedFile],
    line: usize,
    hunk: Option<(usize, usize, String)>,
    file: Option<String>,
    on_old: Option<(DiffCue, String)>,
    on_new: Option<(DiffCue, String)>,
)
    requires
        call_ensures(diff_cues::hunk_target, (text, files, line), hunk),
        call_ensures(diff_cues::file_target, (text, files, line), file),
        call_ensures(cue_at_old, (text, files, line), on_old),
        call_ensures(cue_at_new, (text, files, line), on_new),
    ensures
        match (hunk, file) {
            (Some((f, h, path)), _) => {
                &&& on_old matches Some(c)
                &&& c.0 == DiffCue::Expand(f, h) && c.1@ == path@
                &&& on_new matches Some(d)
                &&& d.0 == DiffCue::RevertHunk(f, h) && d.1@ == path@
            },
            (None, Some(path)) => {
                &&& on_old is None
                &&& on_new matches Some(d)
                &&& d.0 == DiffCue::RevertFile && d.1@ == path@
            },
            (None, None) => on_old is None && on_new is None,
        },
{
}

} // verus!
