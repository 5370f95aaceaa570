//! The selection of the history list: what a click selects, what the pane then shows,
//! and how the selection is found again after the list is rebuilt.
//!
//! Commits can be selected together; an uncommitted entry is always selected alone.
use crate::conflict_mode;
use crate::display;
use crate::display::DisplayRow;
use crate::dragdrop;
use crate::indices;
use crate::model::{CommitInfo, WorkingCopyEntry};
use crate::text;
use vstd::prelude::*;

verus! {

/// The selected rows, from the top, and the row that a range is counted from.
#[derive(Clone, Debug, PartialEq, Eq)]
pub struct Selected {
    pub rows: Vec<usize>,
    pub anchor: Option<usize>,
}

/// The row that a range begins at: the anchor, else the topmost selected row, else
/// the clicked one.
pub open spec fn range_start(anchor: Option<usize>, selected: Seq<usize>, clicked: usize) -> usize {
    match anchor {
        Some(a) => a,
        None => least_or(selected, clicked),
    }
}

/// The least of the indices, or `other` where there is none.
pub open spec fn least_or(v: Seq<usize>, other: usize) -> usize
    decreases v.len(),
{
    if v.len() == 0 {
        other
    } else if v.len() == 1 {
        v[0]
    } else {
        let m = least_or(v.drop_last(), other);
        if v.last() < m {
            v.last()
        } else {
            m
        }
    }
}

fn least_of(v: &[usize], other: usize) -> (r: usize)
    ensures
        r == least_or(v@, other),
{
    if v.len() == 0 {
        return other;
    }
    let mut m: usize = v[0];
    let mut i: usize = 1;
    assert(v@.take(1)[0] == v@[0]);
    while i < v.len()
        invariant
            1 <= i <= v@.len(),
            m == least_or(v@.take(i as int), other),
        decreases v.len() - i,
    {
        assert(v@.take(i + 1).drop_last() =~= v@.take(i as int));
        assert(v@.take(i + 1).last() == v@[i as int]);
        if v[i] < m {
            m = v[i];
        }
        i += 1;
    }
    assert(v@.take(i as int) =~= v@);
    m
}

/// Whether row `j` is selected after a click on row `clicked`.
pub open spec fn selects(
    rows: Seq<DisplayRow>,
    clicked: usize,
    shift: bool,
    ctrl: bool,
    before: Seq<usize>,
    anchor: Option<usize>,
    j: usize,
) -> bool {
    if !dragdrop::is_commit_row(rows, clicked as int) {
        j == clicked
    } else if shift {
        let a = range_start(anchor, before, clicked);
        let lo = if a < clicked {
            a
        } else {
            clicked
        };
        let hi = if a < clicked {
            clicked
        } else {
            a
        };
        lo <= j <= hi && dragdrop::is_commit_row(rows, j as int)
    } else if ctrl {
        if j == clicked {
            !before.contains(j)
        } else {
            before.contains(j) && dragdrop::is_commit_row(rows, j as int)
        }
    } else {
        j == clicked
    }
}

fn alone(row: usize) -> (r: Vec<usize>)
    ensures
        r@ == seq![row],
{
    let mut v: Vec<usize> = Vec::new();
    v.push(row);
    assert(v@ =~= seq![row]);
    v
}

proof fn lemma_alone(row: usize)
    ensures
        indices::ascending(seq![row]),
        forall|j: usize| #[trigger] seq![row].contains(j) <==> j == row,
{
    let s = seq![row];
    assert(s[0] == row);
}

/// What a click on row `clicked` selects. A plain click selects that row alone; with
/// shift the commits from the anchor to it; with control it adds or takes away that
/// commit. An uncommitted entry is selected alone in any case.
pub fn click(
    rows: &[DisplayRow],
    clicked: usize,
    shift: bool,
    ctrl: bool,
    before: &[usize],
    anchor: Option<usize>,
) -> (r: Selected)
    ensures
        indices::ascending(r.rows@),
        forall|j: usize| #[trigger]
            r.rows@.contains(j) <==> selects(rows@, clicked, shift, ctrl, before@, anchor, j),
        r.anchor == if shift && dragdrop::is_commit_row(rows@, clicked as int) {
            anchor
        } else {
            Some(clicked)
        },
{
    proof {
        lemma_alone(clicked);
    }
    if display::row_commit_index(rows, clicked).is_none() {
        return Selected { rows: alone(clicked), anchor: Some(clicked) };
    }
    if shift {
        let a: usize = match anchor {
            Some(a) => a,
            None => least_of(before, clicked),
        };
        let lo: usize = if a < clicked {
            a
        } else {
            clicked
        };
        let hi: usize = if a < clicked {
            clicked
        } else {
            a
        };
        let n: usize = rows.len();
        let mut out: Vec<usize> = Vec::new();
        let mut j: usize = lo;
        while j <= hi && j < n
            invariant
                lo <= j,
                n == rows@.len(),
                indices::ascending(out@),
                forall|k: int| 0 <= k < out@.len() ==> (#[trigger] out@[k]) < j,
                forall|x: usize| #[trigger]
                    out@.contains(x) <==> lo <= x < j && x <= hi && dragdrop::is_commit_row(
                        rows@,
                        x as int,
                    ),
            decreases n - j,
        {
            let ghost o0 = out@;
            if display::row_commit_index(rows, j).is_some() {
                out.push(j);
                assert forall|x: usize| #[trigger] out@.contains(x) <==> o0.contains(x) || x
                    == j by {
                    indices::lemma_push_member(o0, j, x);
                }
            }
            j += 1;
        }
        return Selected { rows: out, anchor };
    }
    if ctrl {
        let sorted = indices::sorted(before);
        let mut out: Vec<usize> = Vec::new();
        let mut i: usize = 0;
        while i < sorted.len()
            invariant
                i <= sorted@.len(),
                indices::ascending(out@),
                forall|x: usize| #[trigger]
                    out@.contains(x) <==> sorted@.take(i as int).contains(x) && x != clicked
                        && dragdrop::is_commit_row(rows@, x as int),
            decreases sorted.len() - i,
        {
            let x: usize = sorted[i];
            let ghost o0 = out@;
            if x != clicked && display::row_commit_index(rows, x).is_some() {
                indices::insert(&mut out, x);
            }
            assert(sorted@.take(i + 1) =~= sorted@.take(i as int).push(x));
            assert forall|y: usize| #[trigger] out@.contains(y) <==> sorted@.take(i + 1).contains(y)
                && y != clicked && dragdrop::is_commit_row(rows@, y as int) by {
                assert(o0.contains(y) <==> sorted@.take(i as int).contains(y) && y != clicked
                    && dragdrop::is_commit_row(rows@, y as int));
                indices::lemma_push_member(sorted@.take(i as int), x, y);
            }
            i += 1;
        }
        assert(sorted@.take(i as int) =~= sorted@);
        if !indices::contains(before, clicked) {
            indices::insert(&mut out, clicked);
        }
        return Selected { rows: out, anchor: Some(clicked) };
    }
    Selected { rows: alone(clicked), anchor: Some(clicked) }
}

/// Whether a selection holds commits alone, or one row alone.
pub open spec fn unmixed(rows: Seq<DisplayRow>, selected: Seq<usize>) -> bool {
    selected.len() <= 1 || forall|j: usize| #[trigger]
        selected.contains(j) ==> dragdrop::is_commit_row(rows, j as int)
}

/// A click never selects an uncommitted entry together with anything else.
pub proof fn law_clicks_do_not_mix(
    rows: Seq<DisplayRow>,
    clicked: usize,
    shift: bool,
    ctrl: bool,
    before: Seq<usize>,
    anchor: Option<usize>,
    after: Seq<usize>,
)
    requires
        indices::ascending(after),
        forall|j: usize| #[trigger]
            after.contains(j) <==> selects(rows, clicked, shift, ctrl, before, anchor, j),
    ensures
        unmixed(rows, after),
{
    if !dragdrop::is_commit_row(rows, clicked as int) && after.len() > 1 {
        assert(after.contains(after[0]));
        assert(after.contains(after[1]));
        assert(after[0] < after[1]);
    }
}

/// Two clicks with control on the same commit leave the selection of commits as it was.
pub proof fn law_toggling_twice_changes_nothing(
    rows: Seq<DisplayRow>,
    clicked: usize,
    before: Seq<usize>,
    once: Seq<usize>,
    anchor: Option<usize>,
    again: Option<usize>,
    j: usize,
)
    requires
        dragdrop::is_commit_row(rows, clicked as int),
        forall|k: usize| #[trigger]
            before.contains(k) ==> dragdrop::is_commit_row(rows, k as int),
        forall|k: usize| #[trigger]
            once.contains(k) <==> selects(rows, clicked, false, true, before, anchor, k),
    ensures
        selects(rows, clicked, false, true, once, again, j) <==> before.contains(j),
{
    assert(once.contains(j) <==> selects(rows, clicked, false, true, before, anchor, j));
    assert(once.contains(clicked) <==> selects(rows, clicked, false, true, before, anchor, clicked));
}

/// What the selected rows are.
#[derive(Clone, Debug, PartialEq, Eq)]
pub enum Content {
    /// An uncommitted entry: its worktree and its place there.
    Entry { group: usize, entry: usize },
    /// Commits, newest first; none where nothing is selected.
    Commits(Vec<usize>),
}

/// The first uncommitted entry among the selected rows.
pub open spec fn first_entry(rows: Seq<DisplayRow>, selected: Seq<usize>) -> Option<(usize, usize)>
    decreases selected.len(),
{
    if selected.len() == 0 {
        None
    } else {
        match first_entry(rows, selected.drop_last()) {
            Some(e) => Some(e),
            None => {
                let di = selected.last() as int;
                if 0 <= di < rows.len() {
                    match rows[di] {
                        DisplayRow::Wc { group, entry } => Some((group, entry)),
                        DisplayRow::Commit(_) => None,
                    }
                } else {
                    None
                }
            },
        }
    }
}

/// Whether `sorted` lists the selected rows from the top.
pub open spec fn from_top(sorted: Seq<usize>, selected: Seq<usize>) -> bool {
    &&& indices::ascending(sorted)
    &&& forall|x: usize| #[trigger] sorted.contains(x) <==> selected.contains(x)
}

/// Whether the rows `sorted`, listed from the top, are what `c` says.
pub open spec fn is_content(c: Content, rows: Seq<DisplayRow>, sorted: Seq<usize>, n: int) -> bool {
    match first_entry(rows, sorted) {
        Some(e) => c == (Content::Entry { group: e.0, entry: e.1 }),
        None => c matches Content::Commits(v) && dragdrop::as_ints(v@) == dragdrop::commits_of(
            rows,
            sorted,
            n,
        ),
    }
}

/// What the selected rows are, where `n` commits are listed. An entry counts before
/// any commit.
pub fn content(rows: &[DisplayRow], selected: &[usize], n: usize) -> (r: Content)
    ensures
        exists|sorted: Seq<usize>| #[trigger]
            from_top(sorted, selected@) && is_content(r, rows@, sorted, n as int),
{
    let sorted = indices::sorted(selected);
    let mut i: usize = 0;
    while i < sorted.len()
        invariant
            i <= sorted@.len(),
            from_top(sorted@, selected@),
            first_entry(rows@, sorted@.take(i as int)) is None,
        decreases sorted.len() - i,
    {
        let di: usize = sorted[i];
        assert(sorted@.take(i + 1).drop_last() =~= sorted@.take(i as int));
        assert(sorted@.take(i + 1).last() == di);
        if di < rows.len() {
            if let DisplayRow::Wc { group, entry } = rows[di] {
                proof {
                    lemma_first_entry_stays(rows@, sorted@, i + 1);
                }
                assert(from_top(sorted@, selected@));
                return Content::Entry { group, entry };
            }
        }
        i += 1;
    }
    assert(sorted@.take(i as int) =~= sorted@);
    let commits = dragdrop::set_commits(rows, sorted.as_slice(), n);
    assert(from_top(sorted@, selected@));
    Content::Commits(commits)
}

proof fn lemma_first_entry_stays(rows: Seq<DisplayRow>, selected: Seq<usize>, i: int)
    requires
        0 <= i <= selected.len(),
        first_entry(rows, selected.take(i)) is Some,
    ensures
        first_entry(rows, selected) == first_entry(rows, selected.take(i)),
    decreases selected.len(),
{
    if i == selected.len() {
        assert(selected.take(i) =~= selected);
    } else {
        assert(selected.drop_last().take(i) =~= selected.take(i));
        lemma_first_entry_stays(rows, selected.drop_last(), i);
    }
}

/// What the pane shows.
#[derive(Clone, Debug, PartialEq, Eq)]
pub enum Pane {
    /// The diff of an uncommitted entry, and an empty message to commit it with.
    Entry { group: usize, entry: usize },
    /// The conflicted files of a commit, if one is selected.
    Conflict(Option<usize>),
    /// Nothing.
    Empty,
    /// One commit, to be edited.
    Single(usize),
    /// Several commits, to be read; only their identity can be edited.
    Several(Vec<usize>),
}

/// Whether a pane is the right one for a selection. While conflicts are resolved it
/// shows those of the first selected commit, however many are selected.
pub open spec fn pane_for(p: Pane, c: Content, conflict: bool) -> bool {
    match c {
        Content::Entry { group, entry } => p == (Pane::Entry { group, entry }),
        Content::Commits(v) => if conflict {
            p == Pane::Conflict(
                if v@.len() > 0 {
                    Some(v@[0])
                } else {
                    None
                },
            )
        } else if v@.len() == 0 {
            p == Pane::Empty
        } else if v@.len() == 1 {
            p == Pane::Single(v@[0])
        } else {
            p == Pane::Several(v)
        },
    }
}

/// What the pane shows for a selection.
pub fn pane(c: Content, conflict: bool) -> (r: Pane)
    ensures
        pane_for(r, c, conflict),
{
    match c {
        Content::Entry { group, entry } => Pane::Entry { group, entry },
        Content::Commits(v) => if conflict {
            if v.len() > 0 {
                Pane::Conflict(Some(v[0]))
            } else {
                Pane::Conflict(None)
            }
        } else if v.len() == 0 {
            Pane::Empty
        } else if v.len() == 1 {
            Pane::Single(v[0])
        } else {
            Pane::Several(v)
        },
    }
}

/// The commits from the oldest to the newest, as their combined diff is built.
pub fn oldest_first(commits: &[usize]) -> (r: Vec<usize>)
    ensures
        r@ == commits@.reverse(),
{
    let mut out: Vec<usize> = Vec::new();
    let mut n: usize = commits.len();
    let ghost all = commits@.reverse();
    assert(out@ =~= all.take(0));
    while n > 0
        invariant
            n <= commits@.len(),
            all == commits@.reverse(),
            out@ == all.take(commits@.len() - n),
        decreases n,
    {
        out.push(commits[n - 1]);
        n -= 1;
        assert(out@ =~= all.take(commits@.len() - n));
    }
    assert(all.take(commits@.len() as int) =~= all);
    out
}

/// The changes to select again after a rebuild: all of several, else the anchor.
pub open spec fn wanted(several: Seq<Seq<char>>, anchor: Option<Seq<char>>) -> Seq<Seq<char>> {
    if several.len() > 1 {
        several
    } else {
        match anchor {
            Some(a) => seq![a],
            None => Seq::<Seq<char>>::empty(),
        }
    }
}

/// The changes to select again after a rebuild.
pub fn reselect_targets(several: &Vec<String>, anchor: &Option<String>) -> (r: Vec<String>)
    ensures
        text::texts(r@) == wanted(text::texts(several@), text::opt_text(*anchor)),
{
    if several.len() > 1 {
        return text::copy_texts(several);
    }
    let mut out: Vec<String> = Vec::new();
    if let Some(a) = anchor {
        out.push(a.clone());
    }
    assert(text::texts(out@) =~= wanted(text::texts(several@), text::opt_text(*anchor)));
    out
}

/// The rows of the changes that are still listed.
pub open spec fn rows_wanted(
    commits: Seq<CommitInfo>,
    commit_rows: Seq<usize>,
    changes: Seq<Seq<char>>,
) -> Seq<usize>
    decreases changes.len(),
{
    if changes.len() == 0 {
        Seq::<usize>::empty()
    } else {
        let init = rows_wanted(commits, commit_rows, changes.drop_last());
        match conflict_mode::change_position(commits, changes.last(), 0) {
            Some(ci) => if ci < commit_rows.len() {
                init.push(commit_rows[ci])
            } else {
                init
            },
            None => init,
        }
    }
}

/// The rows to select again after a rebuild, given the row of every commit.
pub fn reselect_rows(commits: &[CommitInfo], commit_rows: &[usize], changes: &[String]) -> (r: Vec<
    usize,
>)
    ensures
        r@ == rows_wanted(commits@, commit_rows@, text::texts(changes@)),
{
    let ghost gc = text::texts(changes@);
    let mut out: Vec<usize> = Vec::new();
    let mut i: usize = 0;
    assert(out@ =~= rows_wanted(commits@, commit_rows@, gc.take(0)));
    while i < changes.len()
        invariant
            i <= changes@.len(),
            gc == text::texts(changes@),
            out@ == rows_wanted(commits@, commit_rows@, gc.take(i as int)),
        decreases changes.len() - i,
    {
        assert(gc[i as int] == changes@[i as int]@);
        assert(gc.take(i + 1).drop_last() =~= gc.take(i as int));
        assert(gc.take(i + 1).last() == gc[i as int]);
        if let Some(ci) = conflict_mode::position_of_change(commits, changes[i].as_str()) {
            if ci < commit_rows.len() {
                out.push(commit_rows[ci]);
            }
        }
        i += 1;
    }
    assert(gc.take(i as int) =~= gc);
    out
}

/// The entry of a worktree to show: the wanted one, else the newest.
pub open spec fn entry_wanted(entries: Seq<WorkingCopyEntry>, change: Option<Seq<char>>, i: int) -> Option<
    int,
>
    decreases entries.len() - i,
{
    if i < 0 || i >= entries.len() {
        if entries.len() > 0 {
            Some(0)
        } else {
            None
        }
    } else if change == Some(entries[i].info.change_id@) {
        Some(i)
    } else {
        entry_wanted(entries, change, i + 1)
    }
}

/// The entry of a worktree to show: that with the wanted change id, else the newest.
pub fn entry_to_show(entries: &[WorkingCopyEntry], change: &Option<String>) -> (r: Option<usize>)
    ensures
        match r {
            Some(i) => entry_wanted(entries@, text::opt_text(*change), 0) == Some(i as int),
            None => entry_wanted(entries@, text::opt_text(*change), 0) is None,
        },
{
    let mut i: usize = 0;
    while i < entries.len()
        invariant
            i <= entries@.len(),
            entry_wanted(entries@, text::opt_text(*change), 0) == entry_wanted(
                entries@,
                text::opt_text(*change),
                i as int,
            ),
        decreases entries.len() - i,
    {
        if let Some(c) = change {
            if text::same_text(c.as_str(), entries[i].info.change_id.as_str()) {
                return Some(i);
            }
        }
        i += 1;
    }
    if entries.len() > 0 {
        Some(0)
    } else {
        None
    }
}

proof fn lemma_least(v: Seq<usize>, other: usize, low: usize)
    requires
        v.contains(low),
        forall|x: usize| #[trigger] v.contains(x) ==> low <= x,
    ensures
        least_or(v, other) == low,
    decreases v.len(),
{
    let init = v.drop_last();
    let i = choose|i: int| 0 <= i < v.len() && v[i] == low;
    assert(v.contains(v[v.len() - 1]));
    if v.len() > 1 {
        lemma_least_is_one(init, other);
        assert forall|x: usize| #[trigger] init.contains(x) implies low <= x by {
            let k = choose|k: int| 0 <= k < init.len() && init[k] == x;
            assert(v[k] == x);
            assert(v.contains(x));
        }
        if i < v.len() - 1 {
            assert(init[i] == low);
            lemma_least(init, other, low);
        } else {
            assert(init.contains(least_or(init, other)));
        }
    }
}

proof fn lemma_least_is_one(v: Seq<usize>, other: usize)
    requires
        v.len() > 0,
    ensures
        v.contains(least_or(v, other)),
    decreases v.len(),
{
    if v.len() == 1 {
        assert(v[0] == least_or(v, other));
    } else {
        let init = v.drop_last();
        lemma_least_is_one(init, other);
        let m = least_or(init, other);
        let k = choose|k: int| 0 <= k < init.len() && init[k] == m;
        assert(v[k] == m);
        assert(v[v.len() - 1] == v.last());
    }
}

/// A click with Shift takes every commit between the anchor and the clicked row, on
/// whichever side the anchor lies, and no uncommitted row; the anchor stays. Without an
/// anchor the topmost selected row, `low`, serves.
pub proof fn law_shift_takes_the_range(
    rows: &[DisplayRow],
    clicked: usize,
    ctrl: bool,
    before: &[usize],
    anchor: Option<usize>,
    low: usize,
    r: Selected,
    j: usize,
)
    requires
        call_ensures(click, (rows, clicked, true, ctrl, before, anchor), r),
        clicked < rows@.len(),
        rows@[clicked as int] is Commit,
        anchor is None && before@.len() > 0 ==> before@.contains(low) && forall|x: usize| #[trigger]
            before@.contains(x) ==> low <= x,
        anchor is None && before@.len() == 0 ==> low == clicked,
        anchor is Some ==> low == anchor->0,
    ensures
        r.rows@.contains(j) <==> j < rows@.len() && rows@[j as int] is Commit && (low <= j
            <= clicked || clicked <= j <= low),
        r.anchor == anchor,
        forall|a: int, b: int| 0 <= a < b < r.rows@.len() ==> r.rows@[a] < r.rows@[b],
{
    if anchor is None && before@.len() > 0 {
        lemma_least(before@, clicked, low);
    }
    assert(r.rows@.contains(j) <==> selects(rows@, clicked, true, ctrl, before@, anchor, j));
}

/// A click with Ctrl turns the clicked commit alone, a plain click takes the clicked
/// row alone, and so does any click on uncommitted work; both set the anchor there.
pub proof fn law_other_clicks_turn_or_take_the_row(
    rows: &[DisplayRow],
    clicked: usize,
    ctrl: bool,
    before: &[usize],
    anchor: Option<usize>,
    r: Selected,
    j: usize,
)
    requires
        call_ensures(click, (rows, clicked, false, ctrl, before, anchor), r),
        forall|x: usize| #[trigger]
            before@.contains(x) ==> x < rows@.len() && rows@[x as int] is Commit,
    ensures
        r.anchor == Some(clicked),
        ctrl && clicked < rows@.len() && rows@[clicked as int] is Commit ==> (r.rows@.contains(j)
            <==> (before@.contains(j) != (j == clicked))),
        !(ctrl && clicked < rows@.len() && rows@[clicked as int] is Commit) ==> (r.rows@.contains(j)
            <==> j == clicked),
{
    assert(r.rows@.contains(j) <==> selects(rows@, clicked, false, ctrl, before@, anchor, j));
}

proof fn lemma_first_entry(rows: Seq<DisplayRow>, sorted: Seq<usize>, k: int)
    requires
        0 <= k <= sorted.len(),
        forall|i: int|
            0 <= i < k ==> !((#[trigger] sorted[i]) < rows.len() && rows[sorted[i] as int] is Wc),
        k < sorted.len() ==> sorted[k] < rows.len() && rows[sorted[k] as int] is Wc,
    ensures
        match first_entry(rows, sorted) {
            Some(e) => k < sorted.len() && rows[sorted[k] as int] == (DisplayRow::Wc {
                group: e.0,
                entry: e.1,
            }),
            None => k == sorted.len(),
        },
    decreases sorted.len(),
{
    if sorted.len() > 0 {
        let init = sorted.drop_last();
        if k < sorted.len() - 1 {
            assert(init[k] == sorted[k]);
            assert forall|i: int| 0 <= i < k implies !((#[trigger] init[i]) < rows.len()
                && rows[init[i] as int] is Wc) by {
                assert(init[i] == sorted[i]);
            }
            lemma_first_entry(rows, init, k);
        } else {
            assert forall|i: int| 0 <= i < init.len() implies !((#[trigger] init[i]) < rows.len()
                && rows[init[i] as int] is Wc) by {
                assert(init[i] == sorted[i]);
            }
            lemma_first_entry(rows, init, init.len() as int);
            if k == sorted.len() {
                assert(!(sorted[k - 1] < rows.len() && rows[sorted[k - 1] as int] is Wc));
            }
        }
    }
}

/// Where uncommitted work is selected, the topmost such row is what is shown.
pub proof fn law_selected_work_is_shown_first(
    rows: &[DisplayRow],
    selected: &[usize],
    n: usize,
    r: Content,
    di: usize,
)
    requires
        call_ensures(content, (rows, selected, n), r),
        selected@.contains(di),
        di < rows@.len(),
        rows@[di as int] is Wc,
        forall|x: usize| #[trigger]
            selected@.contains(x) && x < di ==> !(x < rows@.len() && rows@[x as int] is Wc),
    ensures
        r matches Content::Entry { group, entry } && rows@[di as int] == (DisplayRow::Wc {
            group,
            entry,
        }),
{
    let sorted = choose|sorted: Seq<usize>| #[trigger]
        from_top(sorted, selected@) && is_content(r, rows@, sorted, n as int);
    assert(sorted.contains(di));
    let k = choose|k: int| 0 <= k < sorted.len() && sorted[k] == di;
    assert forall|i: int| 0 <= i < k implies !((#[trigger] sorted[i]) < rows@.len()
        && rows@[sorted[i] as int] is Wc) by {
        assert(sorted[i] < sorted[k]);
        assert(sorted.contains(sorted[i]));
        assert(selected@.contains(sorted[i]));
    }
    lemma_first_entry(rows@, sorted, k);
}

/// Where no uncommitted work is selected, the selected commits are what is shown, each
/// once and from the top. The result names their rows.
pub proof fn law_selected_commits_are_shown_from_the_top(
    rows: &[DisplayRow],
    selected: &[usize],
    n: usize,
    r: Content,
) -> (at: Seq<int>)
    requires
        call_ensures(content, (rows, selected, n), r),
        forall|x: usize| #[trigger]
            selected@.contains(x) ==> !(x < rows@.len() && rows@[x as int] is Wc),
    ensures
        r matches Content::Commits(v) && v@.len() == at.len() && (forall|k: int|
            0 <= k < at.len() ==> 0 <= #[trigger] at[k] < rows@.len() && rows@[at[k]]
                == DisplayRow::Commit(v@[k]) && selected@.contains(at[k] as usize)),
        forall|a: int, b: int| 0 <= a < b < at.len() ==> at[a] < at[b],
        forall|x: usize| #[trigger]
            selected@.contains(x) && x < rows@.len() && (
            rows@[x as int] matches DisplayRow::Commit(ci) && ci < n) ==> at.contains(x as int),
{
    let sorted = choose|sorted: Seq<usize>| #[trigger]
        from_top(sorted, selected@) && is_content(r, rows@, sorted, n as int);
    assert forall|i: int| 0 <= i < sorted.len() implies !((#[trigger] sorted[i]) < rows@.len()
        && rows@[sorted[i] as int] is Wc) by {
        assert(sorted.contains(sorted[i]));
        assert(selected@.contains(sorted[i]));
    }
    lemma_first_entry(rows@, sorted, sorted.len() as int);
    let v = r->Commits_0;
    let places = dragdrop::law_a_set_names_its_commits(rows@, sorted, n as int);
    let at = places.map_values(|i: int| sorted[i] as int);
    let cis = dragdrop::commits_of(rows@, sorted, n as int);
    assert(dragdrop::as_ints(v@).len() == v@.len());
    assert forall|k: int| 0 <= k < at.len() implies 0 <= #[trigger] at[k] < rows@.len()
        && rows@[at[k]] == DisplayRow::Commit(v@[k]) && selected@.contains(at[k] as usize) by {
        assert(0 <= places[k] < sorted.len());
        assert(dragdrop::as_ints(v@)[k] == v@[k] as int);
        assert(sorted.contains(sorted[places[k]]));
    }
    assert forall|a: int, b: int| 0 <= a < b < at.len() implies at[a] < at[b] by {
        assert(places[a] < places[b]);
    }
    assert forall|x: usize| #[trigger]
        selected@.contains(x) && x < rows@.len() && (
        rows@[x as int] matches DisplayRow::Commit(ci) && ci < n) implies at.contains(
        x as int,
    ) by {
        assert(sorted.contains(x));
        let i = choose|i: int| 0 <= i < sorted.len() && sorted[i] == x;
        assert(places.contains(i));
        let k = choose|k: int| 0 <= k < places.len() && places[k] == i;
        assert(at[k] == x as int);
    }
    at
}

/// What the pane shows of the selected commits: nothing, the one, or all of them in
/// their order; while conflicts are resolved, the topmost.
pub proof fn law_the_pane_fits_the_selection(v: Vec<usize>, conflict: bool, p: Pane)
    requires
        call_ensures(pane, (Content::Commits(v), conflict), p),
    ensures
        !conflict && v@.len() == 0 ==> p is Empty,
        !conflict && v@.len() == 1 ==> (p matches Pane::Single(ci) && ci == v@[0]),
        !conflict && v@.len() > 1 ==> (p matches Pane::Several(w) && w@ == v@),
        conflict ==> (p matches Pane::Conflict(top) && (top is None <==> v@.len() == 0) && (
        v@.len() > 0 ==> top == Some(v@[0]))),
{
}

/// After a change of the history the same changes are selected again, at the rows
/// where their commits then stand; those that are gone are left out. `at` lists the
/// others.
pub proof fn law_the_same_changes_are_selected_again(
    commits: &[CommitInfo],
    commit_rows: &[usize],
    changes: &[String],
    r: Vec<usize>,
    at: Seq<int>,
)
    requires
        call_ensures(reselect_rows, (commits, commit_rows, changes), r),
        commit_rows@.len() == commits@.len(),
        indices::lists(
            at,
            0,
            changes@.len() as int,
            |i: int| conflict_mode::carried(commits@, changes@[i]@),
        ),
    ensures
        r@.len() == at.len(),
        forall|k: int|
            0 <= k < r@.len() ==> row_again(
                commits@,
                commit_rows@,
                changes@[at[k]]@,
                #[trigger] r@[k],
            ),
{
    assert(text::texts(changes@) =~= text::texts(changes@.take(changes@.len() as int)));
    lemma_rows_listed(commits@, commit_rows@, changes@, changes@.len() as int, at);
}

/// Whether `row` is that of the first commit of the change.
pub open spec fn row_again(
    commits: Seq<CommitInfo>,
    commit_rows: Seq<usize>,
    change: Seq<char>,
    row: usize,
) -> bool {
    exists|ci: int| #[trigger]
        conflict_mode::first_carrier(commits, change, ci) && commit_rows[ci] == row
}

proof fn lemma_rows_listed(
    commits: Seq<CommitInfo>,
    commit_rows: Seq<usize>,
    changes: Seq<String>,
    n: int,
    at: Seq<int>,
)
    requires
        0 <= n <= changes.len(),
        commit_rows.len() == commits.len(),
        indices::lists(at, 0, n, |i: int| conflict_mode::carried(commits, changes[i]@)),
    ensures
        rows_wanted(commits, commit_rows, text::texts(changes.take(n))).len() == at.len(),
        forall|k: int|
            0 <= k < at.len() ==> row_again(
                commits,
                commit_rows,
                changes[at[k]]@,
                #[trigger] rows_wanted(commits, commit_rows, text::texts(changes.take(n)))[k],
            ),
    decreases n,
{
    let p = |i: int| conflict_mode::carried(commits, changes[i]@);
    indices::lemma_lists_step(at, 0, n, p);
    let t = text::texts(changes.take(n));
    if n > 0 {
        assert(t.drop_last() =~= text::texts(changes.take(n - 1)));
        assert(t.last() == changes[n - 1]@);
        let k = conflict_mode::lemma_position(commits, changes[n - 1]@);
        assert(p(n - 1) == (k < commits.len())) by {
            if k < commits.len() {
                assert(commits[k].change_id@ == changes[n - 1]@);
            }
        }
        if p(n - 1) {
            lemma_rows_listed(commits, commit_rows, changes, n - 1, at.drop_last());
            let now = rows_wanted(commits, commit_rows, t);
            let init = rows_wanted(commits, commit_rows, t.drop_last());
            assert(now == init.push(commit_rows[k]));
            assert(conflict_mode::first_carrier(commits, changes[n - 1]@, k));
            assert forall|j: int| 0 <= j < at.len() implies row_again(
                commits,
                commit_rows,
                changes[at[j]]@,
                #[trigger] now[j],
            ) by {
                if j < at.len() - 1 {
                    assert(at.drop_last()[j] == at[j]);
                    assert(now[j] == init[j]);
                }
            }
        } else {
            lemma_rows_listed(commits, commit_rows, changes, n - 1, at);
        }
    }
}

/// The entry to show is the one that was shown, wherever it now stands, and else the
/// topmost; `k` is the first entry of the wanted change, or behind the last.
pub proof fn law_the_wanted_entry_is_shown(
    entries: &[WorkingCopyEntry],
    change: &Option<String>,
    r: Option<usize>,
    k: int,
)
    requires
        call_ensures(entry_to_show, (entries, change), r),
        0 <= k <= entries@.len(),
        forall|j: int|
            0 <= j < k ==> !(*change is Some && (#[trigger] entries@[j]).info.change_id@
                == change->0@),
        k < entries@.len() ==> *change is Some && entries@[k].info.change_id@ == change->0@,
    ensures
        k < entries@.len() ==> (r matches Some(i) && i == k),
        k == entries@.len() && k > 0 ==> r == Some(0usize),
        entries@.len() == 0 ==> r is None,
{
    lemma_entry_wanted(entries@, text::opt_text(*change), 0, k);
}

proof fn lemma_entry_wanted(
    entries: Seq<WorkingCopyEntry>,
    change: Option<Seq<char>>,
    i: int,
    k: int,
)
    requires
        0 <= i <= k <= entries.len(),
        forall|j: int| i <= j < k ==> change != Some((#[trigger] entries[j]).info.change_id@),
        k < entries.len() ==> change == Some(entries[k].info.change_id@),
    ensures
        entry_wanted(entries, change, i) == if k < entries.len() {
            Some(k)
        } else if entries.len() > 0 {
            Some(0int)
        } else {
            None
        },
    decreases k - i,
{
    if i < k {
        assert(change != Some(entries[i].info.change_id@));
        lemma_entry_wanted(entries, change, i + 1, k);
    }
}

/// What is selected again after a change: the several changes that were, and else the
/// one that was shown.
pub proof fn law_the_shown_changes_are_wanted_again(
    several: &Vec<String>,
    anchor: &Option<String>,
    r: Vec<String>,
)
    requires
        call_ensures(reselect_targets, (several, anchor), r),
    ensures
        several@.len() > 1 ==> text::texts(r@) == text::texts(several@),
        several@.len() <= 1 && *anchor is Some ==> r@.len() == 1 && r@[0]@ == anchor->0@,
        several@.len() <= 1 && *anchor is None ==> r@.len() == 0,
{
    let all = text::texts(r@);
    assert(all.len() == r@.len());
    assert(text::texts(several@).len() == several@.len());
    if several@.len() <= 1 && *anchor is Some {
        assert(all[0] == r@[0]@);
    }
}

} // verus!
