//! Conflict mode: which commits are marked, which one is shown next, how the
//! combined buffer is put together and taken apart again.
use crate::indices;
use crate::conflict;
use crate::model::{CommitInfo, ConflictedCommit, WorkingCopyEntry};
use crate::numbers;
use crate::text;
use vstd::prelude::*;

verus! {

/// The changes among the first `n` commits that still have conflicts, each once.
pub open spec fn badges(commits: Seq<ConflictedCommit>, n: int) -> Seq<Seq<char>>
    decreases n,
{
    if n <= 0 {
        Seq::<Seq<char>>::empty()
    } else {
        let init = badges(commits, n - 1);
        let c = commits[n - 1];
        if c.files@.len() > 0 && !init.contains(c.change_id@) {
            init.push(c.change_id@)
        } else {
            init
        }
    }
}

/// The changes that still have conflicts, each once.
pub fn conflicted_changes(commits: &[ConflictedCommit]) -> (r: Vec<String>)
    ensures
        text::texts(r@) == badges(commits@, commits@.len() as int),
{
    let mut out: Vec<String> = Vec::new();
    let mut i: usize = 0;
    assert(text::texts(out@) =~= badges(commits@, 0));
    while i < commits.len()
        invariant
            i <= commits@.len(),
            text::texts(out@) == badges(commits@, i as int),
        decreases commits.len() - i,
    {
        let c = &commits[i];
        if c.files.len() > 0 && !text::contains_text(out.as_slice(), c.change_id.as_str()) {
            let ghost od = out@;
            out.push(c.change_id.clone());
            assert(text::texts(out@) =~= text::texts(od).push(c.change_id@));
        }
        i += 1;
    }
    out
}

/// The first commit that still has conflicts.
pub open spec fn first_badge(commits: Seq<ConflictedCommit>) -> Option<Seq<char>>
    decreases commits.len(),
{
    if commits.len() == 0 {
        None
    } else if commits[0].files@.len() > 0 {
        Some(commits[0].change_id@)
    } else {
        first_badge(commits.skip(1))
    }
}

/// The change to show when conflict mode is entered: the first that has conflicts.
pub fn first_conflicted(commits: &[ConflictedCommit]) -> (r: Option<String>)
    ensures
        text::opt_text(r) == first_badge(commits@),
{
    let mut i: usize = 0;
    assert(commits@.skip(0) =~= commits@);
    while i < commits.len()
        invariant
            i <= commits@.len(),
            first_badge(commits@) == first_badge(commits@.skip(i as int)),
        decreases commits.len() - i,
    {
        assert(commits@.skip(i as int)[0] == commits@[i as int]);
        if commits[i].files.len() > 0 {
            return Some(commits[i].change_id.clone());
        }
        assert(commits@.skip(i as int).skip(1) =~= commits@.skip(i + 1));
        i += 1;
    }
    None
}

/// How many conflicted files the first `n` commits have.
pub open spec fn files_left(commits: Seq<ConflictedCommit>, n: int) -> nat
    decreases n,
{
    if n <= 0 {
        0
    } else {
        files_left(commits, n - 1) + commits[n - 1].files@.len()
    }
}

proof fn lemma_files_left_grows(commits: Seq<ConflictedCommit>, i: int, j: int)
    requires
        0 <= i <= j,
    ensures
        files_left(commits, i) <= files_left(commits, j),
    decreases j,
{
    if i < j {
        lemma_files_left_grows(commits, i, j - 1);
    }
}

/// How many conflicted files are left.
pub fn count_files(commits: &[ConflictedCommit]) -> (r: usize)
    requires
        files_left(commits@, commits@.len() as int) <= usize::MAX,
    ensures
        r == files_left(commits@, commits@.len() as int),
{
    let mut n: usize = 0;
    let mut i: usize = 0;
    while i < commits.len()
        invariant
            i <= commits@.len(),
            files_left(commits@, commits@.len() as int) <= usize::MAX,
            n == files_left(commits@, i as int),
        decreases commits.len() - i,
    {
        proof {
            lemma_files_left_grows(commits@, i + 1, commits@.len() as int);
        }
        n += commits[i].files.len();
        i += 1;
    }
    n
}

/// The banner's text.
pub open spec fn progress_text(files: nat, commits: nat) -> Seq<char> {
    "Conflicts from the rewrite must be resolved before it applies to git — "@ + numbers::decimal(
        files,
    ) + " file(s) across "@ + numbers::decimal(commits) + " commit(s) remaining."@
}

/// The banner's text for so many files in so many commits.
pub fn progress_label(files: usize, commits: usize) -> (r: String)
    ensures
        r@ == progress_text(files as nat, commits as nat),
{
    let mut v = text::chars_of(
        "Conflicts from the rewrite must be resolved before it applies to git — ",
    );
    text::push_all(&mut v, &numbers::write_decimal(files as u64));
    text::push_text(&mut v, " file(s) across ");
    text::push_all(&mut v, &numbers::write_decimal(commits as u64));
    text::push_text(&mut v, " commit(s) remaining.");
    text::string_of(&v)
}

/// The first of `commits` from `i` on whose change is `change`.
pub open spec fn change_position(commits: Seq<CommitInfo>, change: Seq<char>, i: int) -> Option<int>
    decreases commits.len() - i,
{
    if i < 0 || i >= commits.len() {
        None
    } else if commits[i].change_id@ == change {
        Some(i)
    } else {
        change_position(commits, change, i + 1)
    }
}

/// The index of the first commit whose change is `change`.
pub fn position_of_change(commits: &[CommitInfo], change: &str) -> (r: Option<usize>)
    ensures
        (match r {
            Some(i) => i < commits@.len() && change_position(commits@, change@, 0) == Some(
                i as int,
            ) && commits@[i as int].change_id@ == change@,
            None => change_position(commits@, change@, 0) is None,
        }),
{
    let mut i: usize = 0;
    while i < commits.len()
        invariant
            i <= commits@.len(),
            change_position(commits@, change@, 0) == change_position(commits@, change@, i as int),
        decreases commits.len() - i,
    {
        if text::same_text(commits[i].change_id.as_str(), change) {
            return Some(i);
        }
        i += 1;
    }
    None
}

/// The first of `commits` from `i` on whose change is marked.
pub open spec fn first_marked(commits: Seq<CommitInfo>, marks: Seq<Seq<char>>, i: int) -> Option<
    int,
>
    decreases commits.len() - i,
{
    if i < 0 || i >= commits.len() {
        None
    } else if marks.contains(commits[i].change_id@) {
        Some(i)
    } else {
        first_marked(commits, marks, i + 1)
    }
}

/// The row to select: that of the selected change while it is still marked, else
/// the first marked one.
pub open spec fn row_to_select(
    commits: Seq<CommitInfo>,
    marks: Seq<Seq<char>>,
    selected: Option<Seq<char>>,
) -> Option<int> {
    if selected matches Some(c) && marks.contains(c) {
        change_position(commits, selected->0, 0)
    } else {
        first_marked(commits, marks, 0)
    }
}

/// The row to select after the marks have changed.
pub fn conflict_row(commits: &[CommitInfo], marks: &[String], selected: &Option<String>) -> (r:
    Option<usize>)
    ensures
        (match r {
            Some(i) => row_to_select(commits@, text::texts(marks@), text::opt_text(*selected))
                == Some(i as int),
            None => row_to_select(commits@, text::texts(marks@), text::opt_text(*selected)) is None,
        }),
{
    if let Some(c) = selected {
        if text::contains_text(marks, c.as_str()) {
            return position_of_change(commits, c.as_str());
        }
    }
    let mut i: usize = 0;
    while i < commits.len()
        invariant
            i <= commits@.len(),
            row_to_select(commits@, text::texts(marks@), text::opt_text(*selected))
                == first_marked(commits@, text::texts(marks@), i as int),
        decreases commits.len() - i,
    {
        if text::contains_text(marks, commits[i].change_id.as_str()) {
            return Some(i);
        }
        i += 1;
    }
    None
}

/// The entries among the first `n` of a working copy whose change is marked.
pub open spec fn marked_entries(chain: Seq<WorkingCopyEntry>, marks: Seq<Seq<char>>, n: int) -> Seq<
    usize,
>
    decreases n,
{
    if n <= 0 {
        Seq::<usize>::empty()
    } else {
        let init = marked_entries(chain, marks, n - 1);
        if marks.contains(chain[n - 1].info.change_id@) {
            init.push((n - 1) as usize)
        } else {
            init
        }
    }
}

/// The uncommitted entries that are resolved among the commits, above them and in
/// their own order: those whose change is marked.
pub fn conflicted_entries(chain: &[WorkingCopyEntry], marks: &[String]) -> (r: Vec<usize>)
    ensures
        r@ == marked_entries(chain@, text::texts(marks@), chain@.len() as int),
{
    let mut out: Vec<usize> = Vec::new();
    let mut i: usize = 0;
    while i < chain.len()
        invariant
            i <= chain@.len(),
            out@ == marked_entries(chain@, text::texts(marks@), i as int),
        decreases chain.len() - i,
    {
        if text::contains_text(marks, chain[i].info.change_id.as_str()) {
            out.push(i);
        }
        i += 1;
    }
    out
}

/// The label of a conflicted file in the file list.
pub open spec fn file_label(path: Seq<char>, resolvable: bool) -> Seq<char> {
    if resolvable {
        path
    } else {
        "⚠ "@ + path
    }
}

/// The label of a conflicted file in the file list.
pub fn conflict_file_label(path: &str, resolvable: bool) -> (r: String)
    ensures
        r@ == file_label(path@, resolvable),
{
    if resolvable {
        path.to_string()
    } else {
        let mut v = text::chars_of("⚠ ");
        text::push_text(&mut v, path);
        text::string_of(&v)
    }
}

/// A file of the combined buffer: its path, and its snippet unless the conflict is
/// structural.
#[derive(Clone, Debug)]
pub struct ConflictSection {
    pub path: String,
    pub snippet: Option<String>,
}

/// The lines of a file below its header.
pub open spec fn section_body(f: ConflictSection) -> Seq<Seq<char>> {
    match f.snippet {
        Some(t) => text::lines(t@),
        None => seq![conflict::CONFLICT_STRUCTURAL_NOTICE@],
    }
}

/// The lines of the combined buffer for the first `n` files.
pub open spec fn view_lines(files: Seq<ConflictSection>, n: int) -> Seq<Seq<char>>
    decreases n,
{
    if n <= 0 {
        Seq::<Seq<char>>::empty()
    } else {
        view_lines(files, n - 1).push(conflict::header_of(files[n - 1].path@)) + section_body(
            files[n - 1],
        )
    }
}

/// The text of the combined buffer: every file under its header line.
pub fn conflict_view_text(files: &[ConflictSection]) -> (r: String)
    ensures
        r@ == text::join_with(view_lines(files@, files@.len() as int), '\n'),
{
    let mut out: Vec<Vec<char>> = Vec::new();
    let mut i: usize = 0;
    assert(text::deep(out@) =~= view_lines(files@, 0));
    while i < files.len()
        invariant
            i <= files@.len(),
            text::deep(out@) == view_lines(files@, i as int),
        decreases files.len() - i,
    {
        let f = &files[i];
        let header = text::chars_of(conflict::conflict_header_line(f.path.as_str()).as_str());
        let ghost before = out@;
        out.push(header);
        assert(text::deep(out@) =~= text::deep(before).push(header@));
        let ghost mid = out@;
        match &f.snippet {
            Some(t) => {
                let mut body = text::lines_of(t.as_str());
                let ghost gb = body@;
                out.append(&mut body);
                assert(text::deep(out@) =~= text::deep(mid) + text::deep(gb));
            },
            None => {
                let notice = text::chars_of(conflict::CONFLICT_STRUCTURAL_NOTICE);
                out.push(notice);
                assert(text::deep(out@) =~= text::deep(mid) + seq![notice@]);
            },
        }
        i += 1;
    }
    text::string_of(&text::join_chars(&out, '\n'))
}

/// The sections of the first `n` lines: what stands under each file header. Lines
/// above the first header belong to none.
pub open spec fn sections(ls: Seq<Seq<char>>, n: int) -> Seq<Seq<Seq<char>>>
    decreases n,
{
    if n <= 0 {
        Seq::<Seq<Seq<char>>>::empty()
    } else {
        let init = sections(ls, n - 1);
        let l = ls[n - 1];
        if conflict::header_path(l) is Some {
            init.push(Seq::<Seq<char>>::empty())
        } else if init.len() > 0 {
            init.drop_last().push(init.last().push(l))
        } else {
            init
        }
    }
}

/// The views of lists of texts.
pub open spec fn text_lists(v: Seq<Vec<String>>) -> Seq<Seq<Seq<char>>> {
    v.map_values(|x: Vec<String>| text::texts(x@))
}

/// Takes the combined buffer apart: the lines under each file header, in order.
pub fn conflict_sections(text: &str) -> (r: Vec<Vec<String>>)
    ensures
        text_lists(r@) == sections(text::lines(text@), text::lines(text@).len() as int),
{
    let ls = text::lines_of(text);
    let ghost gl = text::lines(text@);
    let mut done: Vec<Vec<String>> = Vec::new();
    let mut cur: Vec<String> = Vec::new();
    let mut open = false;
    let mut i: usize = 0;
    assert(text_lists(done@) =~= sections(gl, 0));
    while i < ls.len()
        invariant
            i <= ls@.len(),
            gl == text::deep(ls@),
            !open ==> text_lists(done@) == sections(gl, i as int) && done@.len() == 0,
            open ==> text_lists(done@).push(text::texts(cur@)) == sections(gl, i as int),
        decreases ls.len() - i,
    {
        assert(gl[i as int] == ls@[i as int]@);
        let line = text::string_of(&ls[i]);
        let ghost before = text_lists(done@);
        assert(before.push(text::texts(cur@)).drop_last() =~= before);
        if conflict::conflict_header_path(line.as_str()).is_some() {
            if open {
                let ghost od = done@;
                let finished = cur;
                done.push(finished);
                assert(text_lists(done@) =~= text_lists(od).push(text::texts(finished@)));
            }
            cur = Vec::new();
            open = true;
            assert(text::texts(cur@) =~= Seq::<Seq<char>>::empty());
        } else if open {
            let ghost od = cur@;
            cur.push(line);
            assert(text::texts(cur@) =~= text::texts(od).push(line@));
        }
        i += 1;
    }
    if open {
        let ghost od = done@;
        done.push(cur);
        assert(text_lists(done@) =~= text_lists(od).push(text::texts(cur@)));
    }
    done
}

/// Whether a file can be told apart in the combined buffer: its path holds no
/// newline, and no line of its snippet looks like a header.
pub open spec fn separable(f: ConflictSection) -> bool {
    &&& text::free_of(f.path@, '\n')
    &&& forall|i: int|
        0 <= i < section_body(f).len() ==> conflict::header_path(#[trigger] section_body(f)[i]) is None
}

proof fn lemma_sections_body(
    ls: Seq<Seq<char>>,
    at: int,
    body: Seq<Seq<char>>,
    n: int,
)
    requires
        0 <= at,
        at + body.len() <= ls.len(),
        0 <= n <= body.len(),
        forall|i: int| 0 <= i < body.len() ==> ls[at + i] == #[trigger] body[i],
        forall|i: int| 0 <= i < body.len() ==> conflict::header_path(#[trigger] body[i]) is None,
        sections(ls, at).len() > 0,
    ensures
        sections(ls, at + n) == sections(ls, at).drop_last().push(
            sections(ls, at).last() + body.take(n),
        ),
    decreases n,
{
    let before = sections(ls, at);
    if n == 0 {
        assert(before.last() + body.take(0) =~= before.last());
        assert(before.drop_last().push(before.last()) =~= before);
    } else {
        lemma_sections_body(ls, at, body, n - 1);
        let init = sections(ls, at + n - 1);
        assert(ls[at + (n - 1)] == body[n - 1]);
        assert(init.drop_last() =~= before.drop_last());
        assert(body.take(n) =~= body.take(n - 1).push(body[n - 1]));
        assert(init.last().push(body[n - 1]) =~= before.last() + body.take(n));
    }
}

proof fn lemma_sections_of_view(files: Seq<ConflictSection>, ls: Seq<Seq<char>>, n: int)
    requires
        0 <= n <= files.len(),
        forall|i: int| 0 <= i < files.len() ==> separable(#[trigger] files[i]),
        view_lines(files, n).is_prefix_of(ls),
    ensures
        sections(ls, view_lines(files, n).len() as int) == Seq::new(
            n as nat,
            |i: int| section_body(files[i]),
        ),
    decreases n,
{
    if n == 0 {
        assert(sections(ls, 0) =~= Seq::new(0, |i: int| section_body(files[i])));
    } else {
        let f = files[n - 1];
        let head = view_lines(files, n - 1);
        let body = section_body(f);
        let all = view_lines(files, n);
        assert(all =~= head.push(conflict::header_of(f.path@)) + body);
        assert(head.is_prefix_of(ls)) by {
            assert(ls.subrange(0, all.len() as int) == all);
            assert(ls.subrange(0, head.len() as int) =~= head) by {
                assert forall|i: int| 0 <= i < head.len() implies ls[i] == head[i] by {
                    assert(ls.subrange(0, all.len() as int)[i] == all[i]);
                }
            }
        }
        lemma_sections_of_view(files, ls, n - 1);
        let k = head.len() as int;
        assert forall|i: int| 0 <= i < all.len() implies ls[i] == #[trigger] all[i] by {
            assert(ls.subrange(0, all.len() as int)[i] == all[i]);
        }
        assert(ls[k] == all[k]);
        conflict::law_header_names_its_path(f.path@);
        let opened = sections(ls, k + 1);
        assert(separable(files[n - 1]));
        assert forall|i: int| 0 <= i < body.len() implies ls[k + 1 + i] == #[trigger] body[i] by {
            assert(all[k + 1 + i] == body[i]);
        }
        lemma_sections_body(ls, k + 1, body, body.len() as int);
        assert(opened.last() + body.take(body.len() as int) =~= body);
        assert(sections(ls, all.len() as int) =~= Seq::new(
            n as nat,
            |i: int| section_body(files[i]),
        ));
    }
}

proof fn lemma_header_free(path: Seq<char>)
    requires
        text::free_of(path, '\n'),
    ensures
        text::free_of(conflict::header_of(path), '\n'),
{
    reveal_strlit("\u{2500}\u{2500}\u{2500} ");
    reveal_strlit(" \u{2500}\u{2500}\u{2500}");
    let l = conflict::header_of(path);
    assert forall|j: int| 0 <= j < l.len() implies l[j] != '\n' by {
        if 4 <= j < 4 + path.len() {
            assert(l[j] == path[j - 4]);
            assert(path.contains(path[j - 4]));
        }
    }
}

proof fn lemma_view_free(files: Seq<ConflictSection>, n: int)
    requires
        0 <= n <= files.len(),
        forall|i: int| 0 <= i < files.len() ==> separable(#[trigger] files[i]),
    ensures
        forall|i: int|
            0 <= i < view_lines(files, n).len() ==> text::free_of(
                #[trigger] view_lines(files, n)[i],
                '\n',
            ),
    decreases n,
{
    if n > 0 {
        lemma_view_free(files, n - 1);
        let f = files[n - 1];
        assert(separable(f));
        lemma_header_free(f.path@);
        let head = view_lines(files, n - 1);
        let all = view_lines(files, n);
        if let Some(t) = f.snippet {
            text::lemma_split_pieces_free(t@, '\n');
        }
        reveal_strlit(
            "⚠ structural conflict — can't be resolved as text here; use “Abort rewrite”",
        );
        assert(text::free_of(conflict::CONFLICT_STRUCTURAL_NOTICE@, '\n'));
        assert forall|i: int| 0 <= i < all.len() implies text::free_of(
            #[trigger] all[i],
            '\n',
        ) by {
            if i < head.len() {
                assert(all[i] == head[i]);
            } else if i > head.len() {
                assert(all[i] == section_body(f)[i - head.len() - 1]);
            }
        }
    }
}

/// Taking the combined buffer apart gives back what was put together: the lines of
/// every file's snippet, file by file.
pub proof fn law_sections_undo_the_view(files: Seq<ConflictSection>)
    requires
        files.len() > 0,
        forall|i: int| 0 <= i < files.len() ==> separable(#[trigger] files[i]),
    ensures
        ({
            let ls = text::lines(
                text::join_with(view_lines(files, files.len() as int), '\n'),
            );
            sections(ls, ls.len() as int) == Seq::new(
                files.len(),
                |i: int| section_body(files[i]),
            )
        }),
{
    let n = files.len() as int;
    let vl = view_lines(files, n);
    lemma_view_free(files, n);
    assert(vl.len() > 0);
    text::lemma_split_join(vl, '\n');
    assert(vl.subrange(0, vl.len() as int) =~= vl);
    lemma_sections_of_view(files, vl, n);
}

proof fn lemma_badges(commits: Seq<ConflictedCommit>, n: int, change: Seq<char>)
    requires
        0 <= n <= commits.len(),
    ensures
        badges(commits, n).contains(change) <==> exists|i: int|
            0 <= i < n && (#[trigger] commits[i]).change_id@ == change && commits[i].files@.len()
                > 0,
        forall|a: int, b: int|
            0 <= a < b < badges(commits, n).len() ==> badges(commits, n)[a] != badges(commits, n)[b],
    decreases n,
{
    let now = badges(commits, n);
    if n > 0 {
        lemma_badges(commits, n - 1, change);
        let init = badges(commits, n - 1);
        let c = commits[n - 1];
        if init.contains(change) {
            let k = choose|k: int| 0 <= k < init.len() && init[k] == change;
            assert(now[k] == change);
            let i = choose|i: int|
                0 <= i < n - 1 && (#[trigger] commits[i]).change_id@ == change
                    && commits[i].files@.len() > 0;
            assert(commits[i].change_id@ == change);
        }
        if c.files@.len() > 0 && c.change_id@ == change && !init.contains(change) {
            assert(now[init.len() as int] == change);
            assert(commits[n - 1].change_id@ == change);
        }
        if now.contains(change) && !init.contains(change) {
            let k = choose|k: int| 0 <= k < now.len() && now[k] == change;
            assert(k == init.len());
            assert(commits[n - 1].change_id@ == change);
        }
        assert forall|a: int, b: int| 0 <= a < b < now.len() implies now[a] != now[b] by {
            if b < init.len() {
                assert(init[a] != init[b]);
            } else {
                assert(init.contains(init[a]));
            }
        }
    }
}

/// A change is marked as conflicted exactly if one of its commits has a conflicted
/// file, and is marked once.
pub proof fn law_conflicted_changes_are_marked(
    commits: &[ConflictedCommit],
    r: Vec<String>,
    change: Seq<char>,
)
    requires
        call_ensures(conflicted_changes, (commits,), r),
    ensures
        text::texts(r@).contains(change) <==> exists|i: int|
            0 <= i < commits@.len() && (#[trigger] commits@[i]).change_id@ == change
                && commits@[i].files@.len() > 0,
        forall|a: int, b: int| 0 <= a < b < r@.len() ==> (#[trigger] r@[a])@ != (#[trigger] r@[b])@,
{
    lemma_badges(commits@, commits@.len() as int, change);
    let all = text::texts(r@);
    assert forall|a: int, b: int| 0 <= a < b < r@.len() implies (#[trigger] r@[a])@ != (
    #[trigger] r@[b])@ by {
        assert(all[a] != all[b]);
    }
}

/// The first conflicted change is that of the first commit with a conflicted file.
pub proof fn law_first_conflict_comes_first(
    commits: &[ConflictedCommit],
    r: Option<String>,
    k: int,
)
    requires
        call_ensures(first_conflicted, (commits,), r),
        0 <= k <= commits@.len(),
        forall|j: int| 0 <= j < k ==> (#[trigger] commits@[j]).files@.len() == 0,
        k < commits@.len() ==> commits@[k].files@.len() > 0,
    ensures
        k < commits@.len() ==> (r matches Some(c) && c@ == commits@[k].change_id@),
        k == commits@.len() ==> r is None,
{
    lemma_first_badge(commits@, k);
}

proof fn lemma_first_badge(commits: Seq<ConflictedCommit>, k: int)
    requires
        0 <= k <= commits.len(),
        forall|j: int| 0 <= j < k ==> (#[trigger] commits[j]).files@.len() == 0,
        k < commits.len() ==> commits[k].files@.len() > 0,
    ensures
        first_badge(commits) == if k < commits.len() {
            Some(commits[k].change_id@)
        } else {
            None
        },
    decreases k,
{
    if k > 0 {
        assert(commits[0].files@.len() == 0);
        let rest = commits.skip(1);
        assert forall|j: int| 0 <= j < k - 1 implies (#[trigger] rest[j]).files@.len() == 0 by {
            assert(rest[j] == commits[j + 1]);
        }
        lemma_first_badge(rest, k - 1);
    }
}

/// The files left are counted commit by commit: none without a commit, and each
/// commit adds its own, whatever the others have.
pub proof fn law_files_add_up(commits: Seq<ConflictedCommit>, more: Seq<ConflictedCommit>)
    ensures
        files_left(commits + more, (commits + more).len() as int) == files_left(
            commits,
            commits.len() as int,
        ) + files_left(more, more.len() as int),
        more.len() == 1 ==> files_left(more, more.len() as int) == more[0].files@.len(),
    decreases more.len(),
{
    let all = commits + more;
    if more.len() == 0 {
        assert(all =~= commits);
    } else {
        lemma_files_added(commits, more, more.len() as int);
        lemma_files_kept(commits, all, commits.len() as int);
        reveal_with_fuel(files_left, 2);
    }
}

proof fn lemma_files_kept(a: Seq<ConflictedCommit>, b: Seq<ConflictedCommit>, n: int)
    requires
        n <= a.len(),
        n <= b.len(),
        forall|i: int| 0 <= i < n ==> #[trigger] a[i] == b[i],
    ensures
        files_left(a, n) == files_left(b, n),
    decreases n,
{
    if n > 0 {
        lemma_files_kept(a, b, n - 1);
        assert(a[n - 1] == b[n - 1]);
    }
}

proof fn lemma_files_added(a: Seq<ConflictedCommit>, b: Seq<ConflictedCommit>, n: int)
    requires
        0 <= n <= b.len(),
    ensures
        files_left(a + b, a.len() + n) == files_left(a, a.len() as int) + files_left(b, n),
    decreases n,
{
    if n > 0 {
        lemma_files_added(a, b, n - 1);
        assert((a + b)[a.len() + n - 1] == b[n - 1]);
    } else {
        lemma_files_kept(a, a + b, a.len() as int);
    }
}

/// A change is found at the first commit that carries it.
pub proof fn law_change_is_found_first(
    commits: Seq<CommitInfo>,
    change: Seq<char>,
    i: int,
    k: int,
)
    requires
        0 <= i <= k <= commits.len(),
        forall|j: int| i <= j < k ==> (#[trigger] commits[j]).change_id@ != change,
        k < commits.len() ==> commits[k].change_id@ == change,
    ensures
        change_position(commits, change, i) == if k < commits.len() {
            Some(k)
        } else {
            None
        },
    decreases k - i,
{
    if i < k {
        assert(commits[i].change_id@ != change);
        law_change_is_found_first(commits, change, i + 1, k);
    }
}

proof fn lemma_first_marked(commits: Seq<CommitInfo>, marks: Seq<Seq<char>>, i: int, k: int)
    requires
        0 <= i <= k <= commits.len(),
        forall|j: int| i <= j < k ==> !marks.contains((#[trigger] commits[j]).change_id@),
        k < commits.len() ==> marks.contains(commits[k].change_id@),
    ensures
        first_marked(commits, marks, i) == if k < commits.len() {
            Some(k)
        } else {
            None
        },
    decreases k - i,
{
    if i < k {
        assert(!marks.contains(commits[i].change_id@));
        lemma_first_marked(commits, marks, i + 1, k);
    }
}

/// The commit to resolve next is the selected one while it is conflicted, and else the
/// topmost that is; `k` is the first commit of the selected change, or the topmost
/// conflicted one.
pub proof fn law_a_conflicted_commit_is_selected(
    commits: &[CommitInfo],
    marks: &[String],
    selected: &Option<String>,
    r: Option<usize>,
    k: int,
)
    requires
        call_ensures(conflict_row, (commits, marks, selected), r),
        0 <= k <= commits@.len(),
        forall|j: int|
            0 <= j < k ==> if stays_selected(marks@, *selected) {
                (#[trigger] commits@[j]).change_id@ != selected->0@
            } else {
                !text::texts(marks@).contains(commits@[j].change_id@)
            },
        k < commits@.len() ==> if stays_selected(marks@, *selected) {
            commits@[k].change_id@ == selected->0@
        } else {
            text::texts(marks@).contains(commits@[k].change_id@)
        },
    ensures
        match r {
            Some(i) => i == k && k < commits@.len() && text::texts(marks@).contains(
                commits@[k].change_id@,
            ),
            None => k == commits@.len(),
        },
{
    if stays_selected(marks@, *selected) {
        law_change_is_found_first(commits@, selected->0@, 0, k);
    } else {
        lemma_first_marked(commits@, text::texts(marks@), 0, k);
    }
}

/// Whether the selected change is still marked.
pub open spec fn stays_selected(marks: Seq<String>, selected: Option<String>) -> bool {
    selected matches Some(c) && text::texts(marks).contains(c@)
}

/// The uncommitted entries that are shown with a conflict are those that are marked,
/// in their order; `at` lists them.
pub proof fn law_marked_entries_are_shown(
    chain: &[WorkingCopyEntry],
    marks: &[String],
    r: Vec<usize>,
    at: Seq<int>,
)
    requires
        call_ensures(conflicted_entries, (chain, marks), r),
        indices::lists(
            at,
            0,
            chain@.len() as int,
            |i: int| text::texts(marks@).contains(chain@[i].info.change_id@),
        ),
    ensures
        r@.map_values(|i: usize| i as int) == at,
{
    lemma_marked_listed(chain@, text::texts(marks@), chain@.len() as int, at);
    assert(chain@.len() <= usize::MAX) by {
        assert(chain.len() == chain@.len());
    }
    assert(r@.map_values(|i: usize| i as int) =~= at);
}

proof fn lemma_marked_listed(
    chain: Seq<WorkingCopyEntry>,
    marks: Seq<Seq<char>>,
    n: int,
    at: Seq<int>,
)
    requires
        0 <= n <= chain.len(),
        indices::lists(at, 0, n, |i: int| marks.contains(chain[i].info.change_id@)),
    ensures
        marked_entries(chain, marks, n) == at.map_values(|i: int| i as usize),
    decreases n,
{
    let p = |i: int| marks.contains(chain[i].info.change_id@);
    indices::lemma_lists_step(at, 0, n, p);
    if n > 0 {
        if p(n - 1) {
            lemma_marked_listed(chain, marks, n - 1, at.drop_last());
            assert(at.map_values(|i: int| i as usize) =~= at.drop_last().map_values(
                |i: int| i as usize,
            ).push((n - 1) as usize));
        } else {
            lemma_marked_listed(chain, marks, n - 1, at);
        }
    } else {
        assert(at.map_values(|i: int| i as usize) =~= Seq::<usize>::empty());
    }
}

/// Every section of the view stands under the header that names its file, right behind
/// the section before.
pub proof fn law_sections_stand_under_their_headers(files: Seq<ConflictSection>, i: int)
    requires
        0 <= i < files.len(),
    ensures
        ({
            let all = view_lines(files, files.len() as int);
            let at = view_lines(files, i).len() as int;
            &&& at < all.len()
            &&& conflict::header_path(all[at]) == Some(files[i].path@)
            &&& i == 0 ==> at == 0
            &&& i + 1 < files.len() ==> view_lines(files, i + 1).len() == at + 1 + section_body(
                files[i],
            ).len()
            &&& all.subrange(at + 1, at + 1 + section_body(files[i]).len()) == section_body(
                files[i],
            )
        }),
{
    let at = view_lines(files, i).len() as int;
    let own = view_lines(files, i + 1);
    let body = section_body(files[i]);
    conflict::law_header_names_its_path(files[i].path@);
    lemma_view_grows(files, i + 1, files.len() as int);
    let all = view_lines(files, files.len() as int);
    assert(own[at] == conflict::header_of(files[i].path@));
    assert(all[at] == own[at]);
    assert forall|k: int| 0 <= k < body.len() implies #[trigger] all[at + 1 + k] == body[k] by {
        assert(own[at + 1 + k] == body[k]);
    }
    assert(all.subrange(at + 1, at + 1 + body.len()) =~= body);
}

proof fn lemma_view_grows(files: Seq<ConflictSection>, i: int, n: int)
    requires
        0 <= i <= n <= files.len(),
    ensures
        view_lines(files, i).len() <= view_lines(files, n).len(),
        forall|k: int|
            0 <= k < view_lines(files, i).len() ==> #[trigger] view_lines(files, n)[k]
                == view_lines(files, i)[k],
    decreases n - i,
{
    if i < n {
        lemma_view_grows(files, i, n - 1);
    }
}

/// Where a change is found, if it is.
pub proof fn lemma_position(commits: Seq<CommitInfo>, change: Seq<char>) -> (k: int)
    ensures
        0 <= k <= commits.len(),
        forall|j: int| 0 <= j < k ==> (#[trigger] commits[j]).change_id@ != change,
        k < commits.len() ==> commits[k].change_id@ == change,
        change_position(commits, change, 0) == if k < commits.len() {
            Some(k)
        } else {
            None
        },
{
    let k = lemma_position_from(commits, change, 0);
    law_change_is_found_first(commits, change, 0, k);
    k
}

proof fn lemma_position_from(commits: Seq<CommitInfo>, change: Seq<char>, i: int) -> (k: int)
    requires
        0 <= i <= commits.len(),
    ensures
        i <= k <= commits.len(),
        forall|j: int| i <= j < k ==> (#[trigger] commits[j]).change_id@ != change,
        k < commits.len() ==> commits[k].change_id@ == change,
    decreases commits.len() - i,
{
    if i >= commits.len() || commits[i].change_id@ == change {
        i
    } else {
        lemma_position_from(commits, change, i + 1)
    }
}

/// Whether a commit carries the change.
pub open spec fn carried(commits: Seq<CommitInfo>, change: Seq<char>) -> bool {
    exists|i: int| 0 <= i < commits.len() && (#[trigger] commits[i]).change_id@ == change
}

/// Whether `i` is the first commit that carries the change.
pub open spec fn first_carrier(commits: Seq<CommitInfo>, change: Seq<char>, i: int) -> bool {
    0 <= i < commits.len() && commits[i].change_id@ == change && forall|j: int|
        0 <= j < i ==> (#[trigger] commits[j]).change_id@ != change
}

} // verus!
