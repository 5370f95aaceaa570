//! What a drag of commits and uncommitted entries carries, where it may go, and what
//! a drop does.
//!
//! Rows of the list and commits of the history are counted apart (see the display
//! module): a drag is kept in rows and asked about in commits.
use crate::diff_cues;
use crate::display;
use crate::display::DisplayRow;
use crate::dnd;
use crate::dnd::{DraggedCommit, DraggedCommits};
use crate::indices;
use crate::lanebranch;
use crate::lanebranch::{BranchTip, LaneBranches};
use crate::model::{Candidate, CombinedFile, CommitId, CommitInfo, LocalBranch, ReorderMove};
use crate::text;
use vstd::prelude::*;

verus! {

/// The list that a drag began in.
#[derive(Clone, Copy, Debug, PartialEq, Eq, Structural)]
pub enum DragOrigin {
    History,
    Trash,
    /// An uncommitted entry, which is folded into a commit.
    WorkingCopy,
}

/// A drag in this window: where it began, with which row, and the rows of the
/// selection that goes along; none for a drag of a single row.
#[derive(Clone, Debug, PartialEq, Eq)]
pub struct Drag {
    pub origin: DragOrigin,
    pub from: Option<usize>,
    pub set: Vec<usize>,
}

/// Whether a row shows a commit.
pub open spec fn is_commit_row(rows: Seq<DisplayRow>, di: int) -> bool {
    display::commit_at(rows, di) is Some
}

/// Whether a row is an uncommitted entry.
pub open spec fn is_wc_row(rows: Seq<DisplayRow>, di: int) -> bool {
    0 <= di < rows.len() && rows[di] is Wc
}

fn wc_row(rows: &[DisplayRow], di: usize) -> (r: bool)
    ensures
        r == is_wc_row(rows@, di as int),
{
    if di < rows.len() {
        match rows[di] {
            DisplayRow::Wc { .. } => true,
            DisplayRow::Commit(_) => false,
        }
    } else {
        false
    }
}

/// Whether `v` lists the selected rows that show commits, from the top.
pub open spec fn lists_selected(v: Seq<usize>, rows: Seq<DisplayRow>, selected: Seq<usize>) -> bool {
    &&& indices::ascending(v)
    &&& forall|di: usize| #[trigger]
        v.contains(di) <==> selected.contains(di) && is_commit_row(rows, di as int)
}

fn selected_commits(rows: &[DisplayRow], selected: &[usize]) -> (r: Vec<usize>)
    ensures
        lists_selected(r@, rows@, selected@),
{
    let mut out: Vec<usize> = Vec::new();
    let mut i: usize = 0;
    while i < selected.len()
        invariant
            i <= selected@.len(),
            lists_selected(out@, rows@, selected@.take(i as int)),
        decreases selected.len() - i,
    {
        let di: usize = selected[i];
        let ghost o0 = out@;
        if display::row_commit_index(rows, di).is_some() {
            indices::insert(&mut out, di);
        }
        proof {
            let big = selected@.take(i + 1);
            let small = selected@.take(i as int);
            assert(big =~= small.push(di));
            assert forall|y: usize| #[trigger] out@.contains(y) <==> big.contains(y)
                && is_commit_row(rows@, y as int) by {
                assert(o0.contains(y) <==> small.contains(y) && is_commit_row(rows@, y as int));
                indices::lemma_push_member(small, di, y);
            }
        }
        i += 1;
    }
    assert(selected@.take(i as int) =~= selected@);
    out
}

/// The drag that begins when row `idx` of the history is grabbed while the rows
/// `selected` are selected. An uncommitted entry goes alone; a commit takes along the
/// selected commits if it is one of several.
pub fn drag_start(rows: &[DisplayRow], idx: usize, selected: &[usize]) -> (r: Drag)
    ensures
        r.from == Some(idx),
        r.origin == if is_wc_row(rows@, idx as int) {
            DragOrigin::WorkingCopy
        } else {
            DragOrigin::History
        },
        is_wc_row(rows@, idx as int) ==> r.set@.len() == 0,
        !is_wc_row(rows@, idx as int) ==> exists|all: Seq<usize>| #[trigger]
            lists_selected(all, rows@, selected@) && r.set@ == if all.len() > 1 && all.contains(
                idx,
            ) {
                all
            } else {
                Seq::<usize>::empty()
            },
{
    if wc_row(rows, idx) {
        return Drag { origin: DragOrigin::WorkingCopy, from: Some(idx), set: Vec::new() };
    }
    let all = selected_commits(rows, selected);
    let ghost ga = all@;
    let set: Vec<usize> = if all.len() > 1 && indices::contains(all.as_slice(), idx) {
        all
    } else {
        Vec::new()
    };
    assert(set@ =~= if ga.len() > 1 && ga.contains(idx) {
        ga
    } else {
        Seq::<usize>::empty()
    });
    Drag { origin: DragOrigin::History, from: Some(idx), set }
}

/// The commits of the listed rows, in their order, as far as there are such commits.
pub open spec fn commits_of(rows: Seq<DisplayRow>, set: Seq<usize>, n: int) -> Seq<int>
    decreases set.len(),
{
    if set.len() == 0 {
        Seq::<int>::empty()
    } else {
        let init = commits_of(rows, set.drop_last(), n);
        match display::commit_at(rows, set.last() as int) {
            Some(ci) => if ci < n {
                init.push(ci)
            } else {
                init
            },
            None => init,
        }
    }
}

/// The indices as numbers.
pub open spec fn as_ints(v: Seq<usize>) -> Seq<int> {
    v.map_values(|x: usize| x as int)
}

/// The commits of the listed rows.
pub fn set_commits(rows: &[DisplayRow], set: &[usize], n: usize) -> (r: Vec<usize>)
    ensures
        as_ints(r@) == commits_of(rows@, set@, n as int),
        forall|i: int| 0 <= i < r@.len() ==> (#[trigger] r@[i]) < n,
{
    let mut out: Vec<usize> = Vec::new();
    let mut i: usize = 0;
    assert(as_ints(out@) =~= commits_of(rows@, set@.take(0), n as int));
    while i < set.len()
        invariant
            i <= set@.len(),
            as_ints(out@) == commits_of(rows@, set@.take(i as int), n as int),
            forall|j: int| 0 <= j < out@.len() ==> (#[trigger] out@[j]) < n,
        decreases set.len() - i,
    {
        let ghost o0 = out@;
        assert(set@.take(i + 1).drop_last() =~= set@.take(i as int));
        assert(set@.take(i + 1).last() == set@[i as int]);
        if let Some(ci) = display::row_commit_index(rows, set[i]) {
            if ci < n {
                out.push(ci);
                assert(as_ints(out@) =~= as_ints(o0).push(ci as int));
            }
        }
        i += 1;
    }
    assert(set@.take(i as int) =~= set@);
    out
}

/// What a payload says of the commits at the given places.
pub open spec fn dragged_texts(commits: Seq<CommitInfo>, cis: Seq<int>) -> Seq<dnd::CommitText> {
    cis.map_values(
        |ci: int|
            dnd::CommitText {
                sha: commits[ci].id@,
                change_id: commits[ci].change_id@,
                subject: commits[ci].subject@,
            },
    )
}

/// The rows that a drag carries: its selection, or the grabbed row alone.
pub open spec fn carried(drag: Drag) -> Seq<usize> {
    if drag.set@.len() > 0 {
        drag.set@
    } else {
        match drag.from {
            Some(f) => seq![f],
            None => Seq::<usize>::empty(),
        }
    }
}

/// The payload of a history drag, which another window can read.
pub fn drag_payload(
    rows: &[DisplayRow],
    commits: &[CommitInfo],
    drag: &Drag,
    pid: u32,
    repo_key: Option<&str>,
) -> (r: DraggedCommits)
    ensures
        r@ == (dnd::PayloadText {
            pid: pid as nat,
            repo_key: match repo_key {
                Some(k) => k@,
                None => Seq::<char>::empty(),
            },
            branch: None,
            commits: dragged_texts(
                commits@,
                commits_of(rows@, carried(*drag), commits@.len() as int),
            ),
        }),
{
    let mut dragged: Vec<usize> = Vec::new();
    if drag.set.len() > 0 {
        let mut i: usize = 0;
        while i < drag.set.len()
            invariant
                i <= drag.set@.len(),
                dragged@ == drag.set@.take(i as int),
            decreases drag.set.len() - i,
        {
            dragged.push(drag.set[i]);
            assert(dragged@ =~= drag.set@.take(i + 1));
            i += 1;
        }
        assert(drag.set@.take(i as int) =~= drag.set@);
    } else if let Some(f) = drag.from {
        dragged.push(f);
        assert(dragged@ =~= seq![f]);
    } else {
        assert(dragged@ =~= Seq::<usize>::empty());
    }
    assert(dragged@ =~= carried(*drag));
    let cis = set_commits(rows, dragged.as_slice(), commits.len());
    let ghost gc = as_ints(cis@);
    let ghost all = dragged_texts(commits@, gc);
    let mut out: Vec<DraggedCommit> = Vec::new();
    let mut i: usize = 0;
    assert(dnd::commit_texts(out@) =~= all.take(0));
    while i < cis.len()
        invariant
            i <= cis@.len(),
            forall|j: int| 0 <= j < cis@.len() ==> (#[trigger] cis@[j]) < commits@.len(),
            gc == as_ints(cis@),
            all == dragged_texts(commits@, gc),
            dnd::commit_texts(out@) == all.take(i as int),
        decreases cis.len() - i,
    {
        let ci: usize = cis[i];
        let ghost o0 = out@;
        assert(gc[i as int] == ci);
        let c = &commits[ci];
        out.push(
            DraggedCommit {
                sha: c.id.hex.clone(),
                change_id: c.change_id.clone(),
                subject: c.subject.clone(),
            },
        );
        assert(dnd::commit_texts(out@) =~= dnd::commit_texts(o0).push(all[i as int]));
        assert(dnd::commit_texts(out@) =~= all.take(i + 1));
        i += 1;
    }
    assert(all.take(i as int) =~= all);
    let key = match repo_key {
        Some(k) => k.to_string(),
        None => {
            let none = String::new();
            assert(none@ =~= Seq::<char>::empty());
            none
        },
    };
    DraggedCommits { pid, repo_key: key, branch: None, commits: out }
}

/// Whether a payload came from another window.
pub open spec fn is_foreign(payload: Option<dnd::PayloadText>, own_pid: u32) -> bool {
    payload matches Some(p) && p.pid != own_pid
}

/// The payload that a text holds, if it came from another window.
pub fn foreign_payload(text: Option<&str>, own_pid: u32) -> (r: Option<DraggedCommits>)
    ensures
        match r {
            Some(p) => text matches Some(t) && dnd::parsed(t@) == Some(p@) && p.pid != own_pid,
            None => match text {
                Some(t) => !is_foreign(dnd::parsed(t@), own_pid),
                None => true,
            },
        },
{
    match text {
        Some(t) => match DraggedCommits::parse(t) {
            Some(p) => if p.pid != own_pid {
                Some(p)
            } else {
                None
            },
            None => None,
        },
        None => None,
    }
}

/// The id of the one commit that a foreign payload carries; `None` for more or fewer.
pub fn foreign_pick_sha(payload: &DraggedCommits) -> (r: Option<String>)
    ensures
        match r {
            Some(s) => payload.commits@.len() == 1 && s@ == payload.commits@[0].sha@,
            None => payload.commits@.len() != 1,
        },
{
    if payload.commits.len() == 1 {
        Some(payload.commits[0].sha.clone())
    } else {
        None
    }
}

/// What must be possible for a gap to open: some line across it that the drag can
/// be spliced into.
#[derive(Clone, Debug, PartialEq, Eq)]
pub enum GapQuery {
    /// The drag cannot go between commits.
    Never,
    /// A copy of a commit of another window.
    CherryPick { sha: String, to: usize },
    /// A move of several commits.
    ReorderSet { commits: Vec<usize>, to: usize },
    /// A move of one commit.
    Reorder { from: usize, to: usize },
    /// The return of a trashed commit.
    Restore { from: usize, to: usize },
}

/// Whether a query is the one for opening the gap `gap` of the rows.
pub open spec fn gap_asks(
    q: GapQuery,
    foreign: Option<Option<Seq<char>>>,
    drag: Drag,
    rows: Seq<DisplayRow>,
    n: int,
    trash: int,
    gap: int,
) -> bool {
    let at = display::commits_before(rows, gap);
    match foreign {
        Some(Some(id)) => q matches GapQuery::CherryPick { sha, to } && sha@ == id && to == at,
        Some(None) => q == GapQuery::Never,
        None => match (drag.origin, drag.from) {
            (_, None) => q == GapQuery::Never,
            (DragOrigin::WorkingCopy, _) => q == GapQuery::Never,
            (DragOrigin::Trash, Some(f)) => if f < trash {
                q == (GapQuery::Restore { from: f, to: at as usize })
            } else {
                q == GapQuery::Never
            },
            (DragOrigin::History, Some(f)) => if drag.set@.len() > 1 {
                q matches GapQuery::ReorderSet { commits, to } && as_ints(commits@) == commits_of(
                    rows,
                    drag.set@,
                    n,
                ) && to == at
            } else {
                match display::commit_at(rows, f as int) {
                    Some(ci) => q == (GapQuery::Reorder { from: ci as usize, to: at as usize }),
                    None => q == GapQuery::Never,
                }
            },
        },
    }
}

/// What must be possible for the gap `gap` to open. `foreign` holds the commit that
/// hovers in from another window, if one does, with its id if it is a single one;
/// `n` and `trash` are the numbers of commits and of trashed ones.
pub fn gap_query(
    foreign: Option<Option<String>>,
    drag: &Drag,
    rows: &[DisplayRow],
    n: usize,
    trash: usize,
    gap: usize,
) -> (r: GapQuery)
    ensures
        gap_asks(
            r,
            match foreign {
                Some(s) => Some(text::opt_text(s)),
                None => None,
            },
            *drag,
            rows@,
            n as int,
            trash as int,
            gap as int,
        ),
{
    let to: usize = display::row_commit_gap(rows, gap);
    match foreign {
        Some(Some(sha)) => {
            return GapQuery::CherryPick { sha, to };
        },
        Some(None) => {
            return GapQuery::Never;
        },
        None => {},
    }
    let from: usize = match drag.from {
        Some(f) => f,
        None => {
            return GapQuery::Never;
        },
    };
    match drag.origin {
        DragOrigin::WorkingCopy => GapQuery::Never,
        DragOrigin::Trash => if from < trash {
            GapQuery::Restore { from, to }
        } else {
            GapQuery::Never
        },
        DragOrigin::History => if drag.set.len() > 1 {
            GapQuery::ReorderSet { commits: set_commits(rows, drag.set.as_slice(), n), to }
        } else {
            match display::row_commit_index(rows, from) {
                Some(ci) => GapQuery::Reorder { from: ci, to },
                None => GapQuery::Never,
            }
        },
    }
}

/// What must be possible for a row to be a squash target.
#[derive(Clone, Debug, PartialEq, Eq)]
pub enum SquashQuery {
    /// The drag cannot go onto the row.
    Never,
    /// Every pair of commits: the first into the second.
    Commits(Vec<(usize, usize)>),
    /// A trashed commit into a commit.
    Trashed { from: usize, onto: usize },
    /// The uncommitted entry of a row into a commit.
    Entry { row: usize, onto: usize },
}

/// Whether every listed row shows a commit.
pub open spec fn all_commits(rows: Seq<DisplayRow>, set: Seq<usize>) -> bool {
    forall|i: int| 0 <= i < set.len() ==> is_commit_row(rows, (#[trigger] set[i]) as int)
}

/// The commits of the listed rows, each with the commit it is to go into.
pub open spec fn pairs(rows: Seq<DisplayRow>, set: Seq<usize>, onto: int) -> Seq<(int, int)> {
    set.map_values(
        |di: usize|
            (
                match display::commit_at(rows, di as int) {
                    Some(ci) => ci,
                    None => 0,
                },
                onto,
            ),
    )
}

/// Pairs of indices as numbers.
pub open spec fn pair_ints(v: Seq<(usize, usize)>) -> Seq<(int, int)> {
    v.map_values(|p: (usize, usize)| (p.0 as int, p.1 as int))
}

/// Whether a query is the one for a drop onto row `di`.
pub open spec fn squash_asks(
    q: SquashQuery,
    drag: Drag,
    rows: Seq<DisplayRow>,
    trash: int,
    di: usize,
) -> bool {
    match (display::commit_at(rows, di as int), drag.from) {
        (Some(ci), Some(f)) => match drag.origin {
            DragOrigin::Trash => if f < trash {
                q == (SquashQuery::Trashed { from: f, onto: ci as usize })
            } else {
                q == SquashQuery::Never
            },
            DragOrigin::WorkingCopy => if is_wc_row(rows, f as int) {
                q == (SquashQuery::Entry { row: f, onto: ci as usize })
            } else {
                q == SquashQuery::Never
            },
            DragOrigin::History => if drag.set@.len() > 1 {
                if drag.set@.contains(di) || !all_commits(rows, drag.set@) {
                    q == SquashQuery::Never
                } else {
                    q matches SquashQuery::Commits(v) && pair_ints(v@) == pairs(rows, drag.set@, ci)
                }
            } else {
                match display::commit_at(rows, f as int) {
                    Some(fi) => q matches SquashQuery::Commits(v) && pair_ints(v@) == seq![
                        (fi, ci),
                    ],
                    None => q == SquashQuery::Never,
                }
            },
        },
        _ => q == SquashQuery::Never,
    }
}

fn set_pairs(rows: &[DisplayRow], set: &[usize], onto: usize) -> (r: Option<Vec<(usize, usize)>>)
    ensures
        match r {
            Some(v) => all_commits(rows@, set@) && pair_ints(v@) == pairs(rows@, set@, onto as int),
            None => !all_commits(rows@, set@),
        },
{
    let ghost all = pairs(rows@, set@, onto as int);
    let mut out: Vec<(usize, usize)> = Vec::new();
    let mut i: usize = 0;
    assert(pair_ints(out@) =~= all.take(0));
    while i < set.len()
        invariant
            i <= set@.len(),
            all == pairs(rows@, set@, onto as int),
            forall|j: int| 0 <= j < i ==> is_commit_row(rows@, (#[trigger] set@[j]) as int),
            pair_ints(out@) == all.take(i as int),
        decreases set.len() - i,
    {
        let ghost o0 = out@;
        match display::row_commit_index(rows, set[i]) {
            Some(ci) => {
                out.push((ci, onto));
                assert(pair_ints(out@) =~= pair_ints(o0).push((ci as int, onto as int)));
                assert(pair_ints(out@) =~= all.take(i + 1));
            },
            None => {
                assert(!is_commit_row(rows@, set@[i as int] as int));
                return None;
            },
        }
        i += 1;
    }
    assert(all.take(i as int) =~= all);
    Some(out)
}

/// What must be possible for row `di` to be a squash target: every dragged commit
/// must go into its commit, and none of them may be that commit.
pub fn squash_query(drag: &Drag, rows: &[DisplayRow], trash: usize, di: usize) -> (r: SquashQuery)
    ensures
        squash_asks(r, *drag, rows@, trash as int, di),
{
    let onto: usize = match display::row_commit_index(rows, di) {
        Some(ci) => ci,
        None => {
            return SquashQuery::Never;
        },
    };
    let from: usize = match drag.from {
        Some(f) => f,
        None => {
            return SquashQuery::Never;
        },
    };
    match drag.origin {
        DragOrigin::Trash => if from < trash {
            SquashQuery::Trashed { from, onto }
        } else {
            SquashQuery::Never
        },
        DragOrigin::WorkingCopy => if wc_row(rows, from) {
            SquashQuery::Entry { row: from, onto }
        } else {
            SquashQuery::Never
        },
        DragOrigin::History => if drag.set.len() > 1 {
            if indices::contains(drag.set.as_slice(), di) {
                SquashQuery::Never
            } else {
                match set_pairs(rows, drag.set.as_slice(), onto) {
                    Some(v) => SquashQuery::Commits(v),
                    None => SquashQuery::Never,
                }
            }
        } else {
            match display::row_commit_index(rows, from) {
                Some(ci) => {
                    let mut v: Vec<(usize, usize)> = Vec::new();
                    v.push((ci, onto));
                    assert(pair_ints(v@) =~= seq![(ci as int, onto as int)]);
                    SquashQuery::Commits(v)
                },
                None => SquashQuery::Never,
            }
        },
    }
}

/// A commit is never asked to go into itself by a drag of several.
pub proof fn law_no_commit_into_itself(
    q: SquashQuery,
    drag: Drag,
    rows: Seq<DisplayRow>,
    trash: int,
    di: usize,
)
    requires
        squash_asks(q, drag, rows, trash, di),
        drag.origin == DragOrigin::History,
        drag.set@.len() > 1,
        forall|a: int, b: int|
            0 <= a < b < rows.len() && (#[trigger] rows[a]) is Commit && (#[trigger] rows[b])
                is Commit ==> rows[a] != rows[b],
    ensures
        q matches SquashQuery::Commits(v) ==> forall|i: int|
            0 <= i < v@.len() ==> (#[trigger] v@[i]).0 != v@[i].1,
{
    if let SquashQuery::Commits(v) = q {
        let ci = display::commit_at(rows, di as int)->0;
        let ps = pairs(rows, drag.set@, ci);
        assert(pair_ints(v@) == ps);
        assert(v@.len() == pair_ints(v@).len());
        assert(ps.len() == drag.set@.len());
        assert forall|i: int| 0 <= i < v@.len() implies (#[trigger] v@[i]).0 != v@[i].1 by {
            assert(pair_ints(v@)[i] == ps[i]);
            let s = drag.set@[i];
            assert(is_commit_row(rows, s as int));
            assert(drag.set@.contains(s));
            assert(s != di);
            if (s as int) < (di as int) {
                assert(rows[s as int] != rows[di as int]);
            } else {
                assert(rows[di as int] != rows[s as int]);
            }
        }
    }
}

/// What a drop on the history does.
#[derive(Clone, Debug, PartialEq, Eq)]
pub enum HistoryDrop {
    /// Nothing; the drop is not taken.
    Refused,
    /// Nothing but to say why.
    Told(&'static str),
    /// Copy a commit of another window into a gap.
    CherryPick { sha: String, gap: usize, to: usize },
    /// Fold the selection into the commit of a row, which asks how.
    GroupSquash { onto: usize },
    /// Move the selection to a gap.
    GroupMove { gap: usize, to: usize },
    /// Fold a commit into the commit of a row.
    Squash { from: usize, onto: usize },
    /// Move a commit to a gap.
    Move { from: usize, gap: usize, to: usize },
    /// Fold a trashed commit into the commit of a row.
    TrashSquash { from: usize, onto: usize },
    /// Return a trashed commit to a gap.
    Restore { from: usize, gap: usize, to: usize },
    /// Fold an uncommitted entry into the commit of a row.
    Fold { from: usize, onto: usize },
}

/// Said of a commit dragged in from another repository.
pub const OTHER_REPO: &'static str = "Can't move commits between different repositories";

/// Said of several commits dragged in from another window.
pub const SEVERAL_FOREIGN: &'static str = "Drag a single commit at a time between windows";

/// Said of a commit of another window that the object store does not hold.
pub const NOT_IN_STORE: &'static str = "That commit isn't in this repository's object store";

/// Said where no line at the gap takes the commit of another window.
pub const NO_PLACE: &'static str = "Can't insert the commit here";

/// Whether a drop within this window does what it should.
pub open spec fn own_drop(
    d: HistoryDrop,
    drag: Drag,
    from: usize,
    onto: Option<usize>,
    gap: usize,
    rows: Seq<DisplayRow>,
) -> bool {
    let to = display::commits_before(rows, gap as int) as usize;
    match (drag.origin, onto) {
        (DragOrigin::History, Some(o)) => if drag.set@.len() > 1 {
            d == (HistoryDrop::GroupSquash { onto: o })
        } else {
            d == (HistoryDrop::Squash { from, onto: o })
        },
        (DragOrigin::History, None) => if drag.set@.len() > 1 {
            d == (HistoryDrop::GroupMove { gap, to })
        } else {
            d == (HistoryDrop::Move { from, gap, to })
        },
        (DragOrigin::Trash, Some(o)) => d == (HistoryDrop::TrashSquash { from, onto: o }),
        (DragOrigin::Trash, None) => d == (HistoryDrop::Restore { from, gap, to }),
        (DragOrigin::WorkingCopy, Some(o)) => d == (HistoryDrop::Fold { from, onto: o }),
        (DragOrigin::WorkingCopy, None) => d == HistoryDrop::Refused,
    }
}

/// Whether a drop on the history does what it should.
pub open spec fn drop_does(
    d: HistoryDrop,
    payload: Option<DraggedCommits>,
    own_pid: u32,
    own_key: Option<Seq<char>>,
    index: Option<usize>,
    drag: Drag,
    onto: Option<usize>,
    gap: usize,
    rows: Seq<DisplayRow>,
) -> bool {
    match payload {
        Some(p) => if p.pid != own_pid {
            if own_key != Some(p.repo_key@) {
                d matches HistoryDrop::Told(s) && s@ == OTHER_REPO@
            } else if p.commits@.len() != 1 {
                d matches HistoryDrop::Told(s) && s@ == SEVERAL_FOREIGN@
            } else {
                d matches HistoryDrop::CherryPick { sha, gap: g, to } && sha@ == p.commits@[0].sha@ && g
                    == gap && to == display::commits_before(rows, gap as int)
            }
        } else {
            match drag.from {
                Some(f) => own_drop(d, drag, f, onto, gap, rows),
                None => d == HistoryDrop::Refused,
            }
        },
        None => match index {
            Some(f) => own_drop(d, drag, f, onto, gap, rows),
            None => d == HistoryDrop::Refused,
        },
    }
}

/// What a drop on the history does. A drag of history rows brings a `payload`, which
/// may come from another window; the other drags bring the `index` of their row.
/// `onto` is the row marked as a squash target, `gap` the gap dropped at.
pub fn drop_on_history(
    payload: Option<&DraggedCommits>,
    own_pid: u32,
    own_key: Option<&str>,
    index: Option<usize>,
    drag: &Drag,
    onto: Option<usize>,
    gap: usize,
    rows: &[DisplayRow],
) -> (r: HistoryDrop)
    ensures
        drop_does(
            r,
            match payload {
                Some(p) => Some(*p),
                None => None,
            },
            own_pid,
            match own_key {
                Some(k) => Some(k@),
                None => None,
            },
            index,
            *drag,
            onto,
            gap,
            rows@,
        ),
{
    let to: usize = display::row_commit_gap(rows, gap);
    let from: usize = match payload {
        Some(p) => {
            if p.pid != own_pid {
                let same = match own_key {
                    Some(k) => text::same_text(k, p.repo_key.as_str()),
                    None => false,
                };
                if !same {
                    return HistoryDrop::Told(OTHER_REPO);
                }
                return match foreign_pick_sha(p) {
                    Some(sha) => HistoryDrop::CherryPick { sha, gap, to },
                    None => HistoryDrop::Told(SEVERAL_FOREIGN),
                };
            }
            match drag.from {
                Some(f) => f,
                None => {
                    return HistoryDrop::Refused;
                },
            }
        },
        None => match index {
            Some(f) => f,
            None => {
                return HistoryDrop::Refused;
            },
        },
    };
    let multi = drag.set.len() > 1;
    match (drag.origin, onto) {
        (DragOrigin::History, Some(o)) => if multi {
            HistoryDrop::GroupSquash { onto: o }
        } else {
            HistoryDrop::Squash { from, onto: o }
        },
        (DragOrigin::History, None) => if multi {
            HistoryDrop::GroupMove { gap, to }
        } else {
            HistoryDrop::Move { from, gap, to }
        },
        (DragOrigin::Trash, Some(o)) => HistoryDrop::TrashSquash { from, onto: o },
        (DragOrigin::Trash, None) => HistoryDrop::Restore { from, gap, to },
        (DragOrigin::WorkingCopy, Some(o)) => HistoryDrop::Fold { from, onto: o },
        (DragOrigin::WorkingCopy, None) => HistoryDrop::Refused,
    }
}

/// What a drop on the trash does.
#[derive(Clone, Debug, PartialEq, Eq)]
pub enum TrashDrop {
    /// Nothing; the drop is not taken.
    Refused,
    /// Nothing: the row shows no commit any more.
    Nothing,
    /// Discard the uncommitted entry of a row for good.
    Discard { row: usize },
    /// Drop several commits at once.
    Group(Vec<usize>),
    /// Drop one commit.
    One(usize),
}

/// Whether a drop on the trash does what it should.
pub open spec fn trash_drop_does(
    d: TrashDrop,
    foreign: bool,
    drag: Drag,
    rows: Seq<DisplayRow>,
    n: int,
) -> bool {
    let group = commits_of(rows, drag.set@, n);
    if foreign || drag.origin == DragOrigin::Trash {
        d == TrashDrop::Refused
    } else {
        match drag.from {
            None => d == TrashDrop::Refused,
            Some(f) => if drag.origin == DragOrigin::WorkingCopy {
                if is_wc_row(rows, f as int) {
                    d == (TrashDrop::Discard { row: f })
                } else {
                    d == TrashDrop::Nothing
                }
            } else if group.len() > 1 {
                d matches TrashDrop::Group(v) && as_ints(v@) == group
            } else {
                match display::commit_at(rows, f as int) {
                    Some(ci) => if ci < n {
                        d == TrashDrop::One(ci as usize)
                    } else {
                        d == TrashDrop::Nothing
                    },
                    None => d == TrashDrop::Nothing,
                }
            },
        }
    }
}

/// What a drop on the trash does: a commit is dropped, and can be restored; an
/// uncommitted entry is discarded. What comes from another window, or from the trash
/// itself, is not taken.
pub fn drop_on_trash(foreign: bool, drag: &Drag, rows: &[DisplayRow], n: usize) -> (r: TrashDrop)
    ensures
        trash_drop_does(r, foreign, *drag, rows@, n as int),
{
    if foreign {
        return TrashDrop::Refused;
    }
    match drag.origin {
        DragOrigin::Trash => {
            return TrashDrop::Refused;
        },
        _ => {},
    }
    let from: usize = match drag.from {
        Some(f) => f,
        None => {
            return TrashDrop::Refused;
        },
    };
    match drag.origin {
        DragOrigin::WorkingCopy => {
            return if wc_row(rows, from) {
                TrashDrop::Discard { row: from }
            } else {
                TrashDrop::Nothing
            };
        },
        _ => {},
    }
    let group = set_commits(rows, drag.set.as_slice(), n);
    assert(as_ints(group@).len() == group@.len());
    if group.len() > 1 {
        return TrashDrop::Group(group);
    }
    match display::row_commit_index(rows, from) {
        Some(ci) => if ci < n {
            TrashDrop::One(ci)
        } else {
            TrashDrop::Nothing
        },
        None => TrashDrop::Nothing,
    }
}

/// Said where a drop would leave no commit.
pub const DROP_ALL: &'static str = "Can't drop every commit";

/// Said where one of several commits cannot be dropped.
pub const DROP_ONE_OF: &'static str = "Can't drop one of the selected commits";

/// Said where a commit cannot be dropped.
pub const DROP_THIS: &'static str = "Can't drop this commit";

/// Why several commits cannot be dropped at once, given which of them can be: it
/// would leave none of `n` commits, or one of them cannot be.
pub fn group_drop_refusal(droppable: &[bool], n: usize) -> (r: Option<&'static str>)
    ensures
        match r {
            Some(s) => if droppable@.len() >= n {
                s@ == DROP_ALL@
            } else {
                s@ == DROP_ONE_OF@ && droppable@.contains(false)
            },
            None => droppable@.len() < n && !droppable@.contains(false),
        },
{
    if droppable.len() >= n {
        return Some(DROP_ALL);
    }
    let mut i: usize = 0;
    while i < droppable.len()
        invariant
            i <= droppable@.len(),
            droppable@.len() < n,
            forall|j: int| 0 <= j < i ==> droppable@[j],
        decreases droppable.len() - i,
    {
        if !droppable[i] {
            assert(droppable@[i as int] == false);
            return Some(DROP_ONE_OF);
        }
        i += 1;
    }
    None
}

/// The commit to select once several are dropped: the newest that stays.
pub fn survivor(n: usize, dropped: &[usize]) -> (r: Option<usize>)
    ensures
        match r {
            Some(i) => i < n && !dropped@.contains(i) && forall|j: usize|
                j < i ==> #[trigger] dropped@.contains(j),
            None => forall|j: usize| j < n ==> #[trigger] dropped@.contains(j),
        },
{
    let mut i: usize = 0;
    while i < n
        invariant
            i <= n,
            forall|j: usize| j < i ==> #[trigger] dropped@.contains(j),
        decreases n - i,
    {
        if !indices::contains(dropped, i) {
            return Some(i);
        }
        i += 1;
    }
    None
}

/// The commit to select once the selected commit `ci` of `n` is dropped: the one
/// below it, else the one above it.
pub fn neighbour(n: usize, ci: usize) -> (r: Option<usize>)
    requires
        ci < n,
    ensures
        r == if ci + 1 < n {
            Some((ci + 1) as usize)
        } else if ci > 0 {
            Some((ci - 1) as usize)
        } else {
            None::<usize>
        },
{
    if ci + 1 < n {
        Some(ci + 1)
    } else if ci > 0 {
        Some(ci - 1)
    } else {
        None
    }
}

/// The commits that a move goes between, which tell the line it goes into: its new
/// children, or where it has none its new parents.
pub open spec fn line_of(mv: ReorderMove) -> Seq<CommitId> {
    if mv.new_children@.len() == 0 {
        mv.new_parents@
    } else {
        mv.new_children@
    }
}

/// The commits that tell the line a move goes into.
pub fn line_commits(mv: &ReorderMove) -> (r: &[CommitId])
    ensures
        r@ == line_of(*mv),
{
    if mv.new_children.len() == 0 {
        mv.new_parents.as_slice()
    } else {
        mv.new_children.as_slice()
    }
}

/// The tips of the editable branches, in the order of the local branches.
pub open spec fn editable_tips(local: Seq<LocalBranch>, editable: Seq<Seq<char>>) -> Seq<
    (Seq<char>, Seq<char>),
>
    decreases local.len(),
{
    if local.len() == 0 {
        Seq::<(Seq<char>, Seq<char>)>::empty()
    } else {
        let init = editable_tips(local.drop_last(), editable);
        if editable.contains(local.last().name@) {
            init.push((local.last().name@, local.last().head@))
        } else {
            init
        }
    }
}

/// Names and commits of branch tips.
pub open spec fn tip_texts(v: Seq<BranchTip>) -> Seq<(Seq<char>, Seq<char>)> {
    v.map_values(|b: BranchTip| (b.name@, b.tip@))
}

/// The tips of the editable branches.
pub fn branch_tips(local: &[LocalBranch], editable: &[String]) -> (r: Vec<BranchTip>)
    ensures
        tip_texts(r@) == editable_tips(local@, text::texts(editable@)),
{
    let mut out: Vec<BranchTip> = Vec::new();
    let mut i: usize = 0;
    assert(tip_texts(out@) =~= editable_tips(local@.take(0), text::texts(editable@)));
    while i < local.len()
        invariant
            i <= local@.len(),
            tip_texts(out@) == editable_tips(local@.take(i as int), text::texts(editable@)),
        decreases local.len() - i,
    {
        let ghost o0 = out@;
        let b = &local[i];
        assert(local@.take(i + 1).drop_last() =~= local@.take(i as int));
        assert(local@.take(i + 1).last() == *b);
        if text::contains_text(editable, b.name.as_str()) {
            out.push(
                BranchTip {
                    name: b.name.clone(),
                    tip: CommitId { hex: b.head.hex.clone() },
                },
            );
            assert(tip_texts(out@) =~= tip_texts(o0).push((b.name@, b.head@)));
        }
        i += 1;
    }
    assert(local@.take(i as int) =~= local@);
    out
}

/// The branches of the displayed commits, from the editable ones.
pub fn lane_branches(
    commits: &[CommitInfo],
    local: &[LocalBranch],
    editable: &[String],
) -> (r: LaneBranches)
    ensures
        exists|tips: Seq<BranchTip>| #[trigger]
            r.maps(commits@, tips) && tip_texts(tips) == editable_tips(
                local@,
                text::texts(editable@),
            ),
{
    let tips = branch_tips(local, editable);
    let r = LaneBranches::compute(commits, tips.as_slice());
    assert(r.maps(commits@, tips@));
    r
}

/// How a drop into a gap goes on, given the lines that cross it.
#[derive(Clone, Debug, PartialEq, Eq)]
pub enum LineChoice {
    /// No line takes the drag.
    Nowhere,
    /// The only line takes it at once.
    Only,
    /// A choice of lines: each with its lane, and with its label where it has one.
    Ask(Vec<(usize, Option<String>)>),
}

/// Whether a label is that of a line.
pub open spec fn labels(label: Option<String>, lanes: LaneBranches, line: Seq<CommitId>) -> bool {
    &&& label is Some <==> exists|name: Seq<char>| #[trigger]
        lanebranch::any_names(lanes, line, name)
    &&& label matches Some(t) ==> exists|names: Seq<Seq<char>>| #[trigger]
        lanebranch::line_names(lanes, line, names) && t@ == text::list_with(names, ", "@)
}

/// Whether a choice is the right one for the lines that cross a gap. The lines are
/// labelled where `lanes` tells their branches.
pub open spec fn choice_for(
    choice: LineChoice,
    candidates: Seq<Candidate>,
    lanes: Option<LaneBranches>,
) -> bool {
    if candidates.len() == 0 {
        choice == LineChoice::Nowhere
    } else if candidates.len() == 1 {
        choice == LineChoice::Only
    } else {
        choice matches LineChoice::Ask(v) && v@.len() == candidates.len() && forall|i: int|
            0 <= i < v@.len() ==> (#[trigger] v@[i]).0 == candidates[i].lane && match lanes {
                Some(l) => labels(v@[i].1, l, line_of(candidates[i].mv)),
                None => v@[i].1 is None,
            }
    }
}

/// How a drop goes on, given the lines that cross the gap.
pub fn line_choice(candidates: &[Candidate], lanes: Option<&LaneBranches>) -> (r: LineChoice)
    ensures
        choice_for(
            r,
            candidates@,
            match lanes {
                Some(l) => Some(*l),
                None => None,
            },
        ),
{
    if candidates.len() == 0 {
        return LineChoice::Nowhere;
    }
    if candidates.len() == 1 {
        return LineChoice::Only;
    }
    let ghost gl = match lanes {
        Some(l) => Some(*l),
        None => None,
    };
    let mut out: Vec<(usize, Option<String>)> = Vec::new();
    let mut i: usize = 0;
    while i < candidates.len()
        invariant
            i <= candidates@.len(),
            out@.len() == i,
            gl == match lanes {
                Some(l) => Some(*l),
                None => None,
            },
            forall|j: int|
                0 <= j < i ==> (#[trigger] out@[j]).0 == candidates@[j].lane && match gl {
                    Some(l) => labels(out@[j].1, l, line_of(candidates@[j].mv)),
                    None => out@[j].1 is None,
                },
        decreases candidates.len() - i,
    {
        let c = &candidates[i];
        let label = match lanes {
            Some(l) => l.label_for(line_commits(&c.mv)),
            None => None,
        };
        out.push((c.lane, label));
        i += 1;
    }
    LineChoice::Ask(out)
}

/// How the move of a commit into a line goes on.
#[derive(Clone, Debug, PartialEq, Eq)]
pub enum MoveChoice {
    /// The commit moves at once.
    Move,
    /// A choice between moving and copying, onto the named branches.
    Ask(Option<String>),
}

/// How the move of the commit `source` goes on: within its branches it moves; across
/// a boundary it is asked whether to move or to copy, if there is a row to ask at.
pub fn move_choice(
    lanes: &LaneBranches,
    source: &CommitId,
    mv: &ReorderMove,
    anchored: bool,
) -> (r: MoveChoice)
    ensures
        if lanebranch::crosses(*lanes, source@, line_of(*mv)) && anchored {
            r matches MoveChoice::Ask(label) && labels(label, *lanes, line_of(*mv))
        } else {
            r == MoveChoice::Move
        },
{
    let line = line_commits(mv);
    if !lanes.line_is_cross_branch(source, line) || !anchored {
        MoveChoice::Move
    } else {
        MoveChoice::Ask(lanes.label_for(line))
    }
}

/// ` onto ` and the branches, where they are known.
pub open spec fn onto_text(branch: Option<Seq<char>>) -> Seq<char> {
    match branch {
        Some(b) => " onto "@ + b,
        None => Seq::<char>::empty(),
    }
}

fn write_onto(out: &mut Vec<char>, branch: Option<&str>)
    ensures
        final(out)@ == old(out)@ + onto_text(
            match branch {
                Some(b) => Some(b@),
                None => None,
            },
        ),
{
    let ghost before = out@;
    if let Some(b) = branch {
        text::push_text(out, " onto ");
        text::push_text(out, b);
        assert(out@ =~= before + (" onto "@ + b@));
    } else {
        assert(before + Seq::<char>::empty() =~= before);
    }
}

/// What the choice to move says.
pub fn move_tip(branch: Option<&str>) -> (r: String)
    ensures
        r@ == "Reparent this commit"@ + onto_text(
            match branch {
                Some(b) => Some(b@),
                None => None,
            },
        ) + " — its descendants rebase, and it leaves its old branch."@,
{
    let mut out = text::chars_of("Reparent this commit");
    write_onto(&mut out, branch);
    text::push_text(&mut out, " — its descendants rebase, and it leaves its old branch.");
    text::string_of(&out)
}

/// What the choice to copy says.
pub fn copy_tip(branch: Option<&str>) -> (r: String)
    ensures
        r@ == "Cherry-pick this commit"@ + onto_text(
            match branch {
                Some(b) => Some(b@),
                None => None,
            },
        ) + " — a re-applied copy; the original stays where it is."@,
{
    let mut out = text::chars_of("Cherry-pick this commit");
    write_onto(&mut out, branch);
    text::push_text(&mut out, " — a re-applied copy; the original stays where it is.");
    text::string_of(&out)
}

/// The commit whose squash targets are hinted at when a drag begins: only that of a
/// single row of the history.
pub fn hint_source(drag: &Drag, rows: &[DisplayRow]) -> (r: Option<usize>)
    ensures
        match r {
            Some(ci) => {
                &&& drag.origin == DragOrigin::History
                &&& drag.set@.len() <= 1
                &&& drag.from is Some
                &&& display::commit_at(rows@, drag.from->0 as int) == Some(ci as int)
            },
            None => drag.origin != DragOrigin::History || drag.set@.len() > 1 || drag.from is None
                || display::commit_at(rows@, drag.from->0 as int) is None,
        },
{
    match drag.origin {
        DragOrigin::History => {},
        _ => {
            return None;
        },
    }
    if drag.set.len() > 1 {
        return None;
    }
    match drag.from {
        Some(f) => display::row_commit_index(rows, f),
        None => None,
    }
}

/// A row of the history list that hints at where a dragged commit belongs.
#[derive(Clone, Copy, Debug, PartialEq, Eq, Structural)]
pub struct Hint {
    pub row: usize,
    /// A target by the dragged commit's name.
    pub target: bool,
    /// Another commit that is meant for the same target.
    pub sibling: bool,
    /// The one commit that all removed lines come from. It outdoes the others.
    pub blame: bool,
}

/// The hint of a commit's row.
pub open spec fn hint_of(
    row: usize,
    ci: usize,
    targets: Seq<usize>,
    siblings: Seq<usize>,
    blame: Option<usize>,
) -> Hint {
    Hint {
        row,
        target: targets.contains(ci) && blame != Some(ci),
        sibling: siblings.contains(ci) && blame != Some(ci),
        blame: blame == Some(ci),
    }
}

/// The hint of every commit's row.
pub fn squash_hints(
    commit_rows: &[usize],
    targets: &[usize],
    siblings: &[usize],
    blame: Option<usize>,
) -> (r: Vec<Hint>)
    ensures
        r@.len() == commit_rows@.len(),
        forall|ci: int|
            0 <= ci < r@.len() ==> #[trigger] r@[ci] == hint_of(
                commit_rows@[ci],
                ci as usize,
                targets@,
                siblings@,
                blame,
            ),
{
    let mut out: Vec<Hint> = Vec::new();
    let mut ci: usize = 0;
    while ci < commit_rows.len()
        invariant
            ci <= commit_rows@.len(),
            out@.len() == ci,
            forall|j: int|
                0 <= j < ci ==> #[trigger] out@[j] == hint_of(
                    commit_rows@[j],
                    j as usize,
                    targets@,
                    siblings@,
                    blame,
                ),
        decreases commit_rows.len() - ci,
    {
        let by_blame = match blame {
            Some(b) => b == ci,
            None => false,
        };
        out.push(
            Hint {
                row: commit_rows[ci],
                target: indices::contains(targets, ci) && !by_blame,
                sibling: indices::contains(siblings, ci) && !by_blame,
                blame: by_blame,
            },
        );
        ci += 1;
    }
    out
}

/// Where a dragged hunk comes from.
#[derive(Clone, Debug, PartialEq, Eq)]
pub enum HunkSource {
    /// The commit with this change id.
    Commit(String),
    /// An uncommitted entry: the branch of its worktree, and its change id.
    WorkingCopy { branch: String, change: String },
}

/// A hunk that is dragged by its header: where it comes from, its file, and the first
/// and last of the file's change groups that it covers.
#[derive(Clone, Debug, PartialEq, Eq)]
pub struct HunkDrag {
    pub source: HunkSource,
    pub path: String,
    pub first_group: usize,
    pub last_group: usize,
}

/// Whether buffer `line` is a handle to drag a hunk by: the header of a hunk, unless
/// the diff is locked.
pub fn hunk_handle(text: &str, files: &[CombinedFile], line: usize, locked: bool) -> (r: bool)
    ensures
        r == (!locked && diff_cues::hunk_at(
            text::lines(text@),
            diff_cues::places(files@),
            line as int,
        ) is Some),
{
    !locked && diff_cues::hunk_target(text, files, line).is_some()
}

/// The text, or none.
pub open spec fn text_or_none(s: Option<String>) -> Seq<char> {
    match s {
        Some(t) => t@,
        None => Seq::<char>::empty(),
    }
}

/// Whether a hunk comes from where it should: from the uncommitted entry shown, or
/// from the selected commit.
pub open spec fn comes_from(
    source: HunkSource,
    entry: bool,
    branch: Option<String>,
    change: Option<String>,
    selected: Option<String>,
) -> bool {
    match source {
        HunkSource::WorkingCopy { branch: b, change: c } => entry && b@ == text_or_none(branch)
            && c@ == text_or_none(change),
        HunkSource::Commit(c) => !entry && text::opt_text(selected) == Some(c@),
    }
}

fn owned_or_none(s: &Option<String>) -> (r: String)
    ensures
        r@ == text_or_none(*s),
{
    match s {
        Some(t) => t.clone(),
        None => {
            let v: Vec<char> = Vec::new();
            assert(v@ =~= Seq::<char>::empty());
            text::string_of(&v)
        },
    }
}

/// The drag that begins at buffer `line`: that of the hunk whose header stands there,
/// unless the diff is locked or shows neither an entry nor a commit.
pub fn hunk_drag(
    text: &str,
    files: &[CombinedFile],
    line: usize,
    locked: bool,
    entry: bool,
    branch: &Option<String>,
    change: &Option<String>,
    selected: &Option<String>,
) -> (r: Option<HunkDrag>)
    ensures
        r is Some <==> !locked && (entry || selected is Some) && diff_cues::hunk_at(
            text::lines(text@),
            diff_cues::places(files@),
            line as int,
        ) is Some,
        r matches Some(d) ==> diff_cues::hunk_at(
            text::lines(text@),
            diff_cues::places(files@),
            line as int,
        ) == Some((d.first_group, d.last_group, d.path@)) && comes_from(
            d.source,
            entry,
            *branch,
            *change,
            *selected,
        ),
{
    if locked {
        return None;
    }
    match diff_cues::hunk_target(text, files, line) {
        None => None,
        Some((first_group, last_group, path)) => {
            let source = if entry {
                HunkSource::WorkingCopy {
                    branch: owned_or_none(branch),
                    change: owned_or_none(change),
                }
            } else {
                match selected {
                    Some(c) => HunkSource::Commit(c.clone()),
                    None => {
                        return None;
                    },
                }
            };
            Some(HunkDrag { source, path, first_group, last_group })
        },
    }
}

/// The commits of a set of rows are those of its commit rows, in the order of the set,
/// as far as there are so many commits. The result names the rows of the set.
pub proof fn law_a_set_names_its_commits(rows: Seq<DisplayRow>, set: Seq<usize>, n: int) -> (at:
    Seq<int>)
    ensures
        at.len() == commits_of(rows, set, n).len(),
        forall|a: int, b: int| 0 <= a < b < at.len() ==> at[a] < at[b],
        forall|k: int|
            0 <= k < at.len() ==> 0 <= #[trigger] at[k] < set.len() && set[at[k]] < rows.len()
                && rows[set[at[k]] as int] == DisplayRow::Commit(
                commits_of(rows, set, n)[k] as usize,
            ) && 0 <= commits_of(rows, set, n)[k] < n,
        forall|i: int|
            0 <= i < set.len() && (#[trigger] set[i]) < rows.len() && (
            rows[set[i] as int] matches DisplayRow::Commit(ci) && ci < n) ==> at.contains(i),
    decreases set.len(),
{
    if set.len() == 0 {
        Seq::<int>::empty()
    } else {
        let init = set.drop_last();
        let last = set.len() - 1;
        let before = law_a_set_names_its_commits(rows, init, n);
        let all = commits_of(rows, set, n);
        let at = if all.len() > commits_of(rows, init, n).len() {
            before.push(last)
        } else {
            before
        };
        assert forall|k: int| 0 <= k < at.len() implies 0 <= #[trigger] at[k] < set.len()
            && set[at[k]] < rows.len() && rows[set[at[k]] as int] == DisplayRow::Commit(
            all[k] as usize,
        ) && 0 <= all[k] < n by {
            if k < before.len() {
                assert(before[k] == at[k]);
                assert(init[at[k]] == set[at[k]]);
            }
        }
        assert forall|i: int|
            0 <= i < set.len() && (#[trigger] set[i]) < rows.len() && (
            rows[set[i] as int] matches DisplayRow::Commit(ci) && ci < n) implies at.contains(
            i,
        ) by {
            if i < last {
                assert(init[i] == set[i]);
                assert(before.contains(i));
                let k = choose|k: int| 0 <= k < before.len() && before[k] == i;
                assert(at[k] == i);
            } else {
                assert(at[before.len() as int] == i);
            }
        }
        at
    }
}

/// What a gap is asked: a dragged commit goes, from where it stands, between the
/// commits that stand above the gap and those below; a trashed one is restored there,
/// one from elsewhere is picked there, and uncommitted work goes nowhere. `above` lists
/// the commit rows above the gap.
pub proof fn law_a_gap_is_asked_for_the_dragged(
    foreign: Option<Option<String>>,
    drag: &Drag,
    rows: &[DisplayRow],
    n: usize,
    trash: usize,
    gap: usize,
    q: GapQuery,
    above: Seq<int>,
)
    requires
        call_ensures(gap_query, (foreign, drag, rows, n, trash, gap), q),
        indices::lists(
            above,
            0,
            gap as int,
            |i: int| i < rows@.len() && rows@[i] is Commit,
        ),
    ensures
        foreign matches Some(None) ==> q == GapQuery::Never,
        foreign matches Some(Some(s)) ==> (q matches GapQuery::CherryPick { sha, to } && sha@ == s@
            && to == above.len()),
        foreign is None ==> match (drag.origin, drag.from) {
            (_, None) => q == GapQuery::Never,
            (DragOrigin::WorkingCopy, Some(_)) => q == GapQuery::Never,
            (DragOrigin::Trash, Some(f)) => if f < trash {
                q matches GapQuery::Restore { from, to } && from == f && to == above.len()
            } else {
                q == GapQuery::Never
            },
            (DragOrigin::History, Some(f)) => if drag.set@.len() > 1 {
                q matches GapQuery::ReorderSet { commits, to } && to == above.len() && as_ints(
                    commits@,
                ) == commits_of(rows@, drag.set@, n as int)
            } else if f < rows@.len() {
                match rows@[f as int] {
                    DisplayRow::Commit(ci) => q matches GapQuery::Reorder { from, to } && from == ci
                        && to == above.len(),
                    DisplayRow::Wc { .. } => q == GapQuery::Never,
                }
            } else {
                q == GapQuery::Never
            },
        },
{
    display::law_commits_above_are_counted(rows@, gap as int, above);
    lemma_few_above(above, gap as int, |i: int| i < rows@.len() && rows@[i] is Commit);
}

proof fn lemma_few_above(at: Seq<int>, to: int, p: spec_fn(int) -> bool)
    requires
        0 <= to,
        indices::lists(at, 0, to, p),
    ensures
        at.len() <= to,
    decreases to,
{
    indices::lemma_lists_step(at, 0, to, p);
    if to > 0 {
        if p(to - 1) {
            lemma_few_above(at.drop_last(), to - 1, p);
        } else {
            lemma_few_above(at, to - 1, p);
        }
    }
}

/// What is dropped is what was asked about: a drop on a gap puts the dragged row, or
/// the group, where the question put it, and a drop on a row squashes into that row.
pub proof fn law_a_drop_does_what_was_asked(
    drag: &Drag,
    rows: &[DisplayRow],
    n: usize,
    trash: usize,
    own_pid: u32,
    own_key: Option<&str>,
    onto: Option<usize>,
    gap: usize,
    q: GapQuery,
    d: HistoryDrop,
)
    requires
        call_ensures(gap_query, (None, drag, rows, n, trash, gap), q),
        call_ensures(
            drop_on_history,
            (None, own_pid, own_key, drag.from, drag, onto, gap, rows),
            d,
        ),
        q != GapQuery::Never,
    ensures
        onto is None ==> match q {
            GapQuery::Reorder { from, to } => d matches HistoryDrop::Move { from: f, gap: g, to: t }
                && Some(f) == drag.from && g == gap && t == to && rows@[f as int]
                == DisplayRow::Commit(from),
            GapQuery::ReorderSet { commits, to } => d matches HistoryDrop::GroupMove {
                gap: g,
                to: t,
            } && g == gap && t == to,
            GapQuery::Restore { from, to } => d matches HistoryDrop::Restore {
                from: f,
                gap: g,
                to: t,
            } && f == from && g == gap && t == to,
            _ => false,
        },
        onto matches Some(o) ==> match q {
            GapQuery::Reorder { .. } => d matches HistoryDrop::Squash { from: f, onto: w }
                && Some(f) == drag.from && w == o,
            GapQuery::ReorderSet { .. } => d matches HistoryDrop::GroupSquash { onto: w } && w == o,
            GapQuery::Restore { from, .. } => d matches HistoryDrop::TrashSquash {
                from: f,
                onto: w,
            } && f == from && w == o,
            _ => false,
        },
{
}

/// A drop from another window is picked, at the gap it is dropped on, if it is a
/// single commit of the same repository; anything else of another window is refused
/// with a reason.
pub proof fn law_a_foreign_drop_is_picked_or_told(
    p: &DraggedCommits,
    own_pid: u32,
    own_key: Option<&str>,
    index: Option<usize>,
    drag: &Drag,
    onto: Option<usize>,
    gap: usize,
    rows: &[DisplayRow],
    d: HistoryDrop,
    above: Seq<int>,
)
    requires
        call_ensures(
            drop_on_history,
            (Some(p), own_pid, own_key, index, drag, onto, gap, rows),
            d,
        ),
        p.pid != own_pid,
        indices::lists(
            above,
            0,
            gap as int,
            |i: int| i < rows@.len() && rows@[i] is Commit,
        ),
    ensures
        own_key is Some && own_key->0@ == p.repo_key@ && p.commits@.len() == 1 ==> (
        d matches HistoryDrop::CherryPick { sha, gap: g, to } && sha@ == p.commits@[0].sha@ && g
            == gap && to == above.len()),
        !(own_key is Some && own_key->0@ == p.repo_key@ && p.commits@.len() == 1) ==> d is Told,
{
    display::law_commits_above_are_counted(rows@, gap as int, above);
}

/// What is dropped on the trash: the dragged commits, or the uncommitted work of the
/// dragged row; what comes from the trash or from another window is refused.
pub proof fn law_the_trash_takes_what_is_dragged(
    foreign: bool,
    drag: &Drag,
    rows: &[DisplayRow],
    n: usize,
    d: TrashDrop,
)
    requires
        call_ensures(drop_on_trash, (foreign, drag, rows, n), d),
    ensures
        foreign || drag.origin == DragOrigin::Trash || drag.from is None ==> d == TrashDrop::Refused,
        !foreign && drag.origin == DragOrigin::WorkingCopy && drag.from is Some ==> if drag.from->0
            < rows@.len() && rows@[drag.from->0 as int] is Wc {
            d matches TrashDrop::Discard { row } && Some(row) == drag.from
        } else {
            d == TrashDrop::Nothing
        },
        !foreign && drag.origin == DragOrigin::History && drag.from is Some && drag.set@.len() == 0
            ==> if drag.from->0 < rows@.len() && (
        rows@[drag.from->0 as int] matches DisplayRow::Commit(ci) && ci < n) {
            d matches TrashDrop::One(ci) && rows@[drag.from->0 as int] == DisplayRow::Commit(ci)
        } else {
            d == TrashDrop::Nothing
        },
        !foreign && drag.origin == DragOrigin::History && drag.from is Some && commits_of(
            rows@,
            drag.set@,
            n as int,
        ).len() > 1 ==> (d matches TrashDrop::Group(v) && as_ints(v@) == commits_of(
            rows@,
            drag.set@,
            n as int,
        )),
{
}

/// What a row is asked: each dragged commit is to go into the commit of that row, in
/// the order of the drag; a group never goes into one of its own rows.
pub proof fn law_a_row_is_asked_for_the_dragged(
    drag: &Drag,
    rows: &[DisplayRow],
    trash: usize,
    di: usize,
    q: SquashQuery,
    onto: usize,
)
    requires
        call_ensures(squash_query, (drag, rows, trash, di), q),
        di < rows@.len(),
        rows@[di as int] == DisplayRow::Commit(onto),
    ensures
        drag.origin == DragOrigin::History && drag.set@.len() > 1 && drag.from is Some ==> {
            &&& drag.set@.contains(di) ==> q == SquashQuery::Never
            &&& q matches SquashQuery::Commits(v) ==> v@.len() == drag.set@.len() && forall|k: int|
                0 <= k < v@.len() ==> drag.set@[k] < rows@.len() && rows@[drag.set@[k] as int]
                    == DisplayRow::Commit((#[trigger] v@[k]).0) && v@[k].1 == onto
            &&& !drag.set@.contains(di) && (forall|k: int|
                0 <= k < drag.set@.len() ==> (#[trigger] drag.set@[k]) < rows@.len()
                    && rows@[drag.set@[k] as int] is Commit) ==> q is Commits
        },
        drag.origin == DragOrigin::History && drag.set@.len() <= 1 && drag.from is Some
            && drag.from->0 < rows@.len() ==> match rows@[drag.from->0 as int] {
            DisplayRow::Commit(ci) => q matches SquashQuery::Commits(v) && v@.len() == 1
                && v@[0].0 == ci && v@[0].1 == onto,
            DisplayRow::Wc { .. } => q == SquashQuery::Never,
        },
        drag.origin == DragOrigin::Trash && drag.from is Some && drag.from->0 < trash ==> (
        q matches SquashQuery::Trashed { from, onto: o } && Some(from) == drag.from && o == onto),
        drag.origin == DragOrigin::WorkingCopy && drag.from is Some && drag.from->0 < rows@.len()
            && rows@[drag.from->0 as int] is Wc ==> (q matches SquashQuery::Entry { row, onto: o }
            && Some(row) == drag.from && o == onto),
{
    if let SquashQuery::Commits(v) = q {
        let all = pair_ints(v@);
        assert(all.len() == v@.len());
        assert forall|k: int| 0 <= k < v@.len() implies all[k] == (
            (#[trigger] v@[k]).0 as int,
            v@[k].1 as int,
        ) by {}
        if drag.origin == DragOrigin::History && drag.set@.len() > 1 && drag.from is Some {
            let want = pairs(rows@, drag.set@, onto as int);
            assert forall|k: int| 0 <= k < v@.len() implies drag.set@[k] < rows@.len()
                && rows@[drag.set@[k] as int] == DisplayRow::Commit((#[trigger] v@[k]).0)
                && v@[k].1 == onto by {
                assert(all[k] == want[k]);
                assert(is_commit_row(rows@, drag.set@[k] as int));
            }
        } else if v@.len() > 0 {
            assert(all[0] == (v@[0].0 as int, v@[0].1 as int));
        }
    }
}

/// A drag carries, for every commit of it, the commit's own id, change and subject, in
/// the order of the drag, and tells the window and the repository it comes from.
pub proof fn law_a_drag_carries_its_commits(
    rows: &[DisplayRow],
    commits: &[CommitInfo],
    drag: &Drag,
    pid: u32,
    repo_key: Option<&str>,
    r: DraggedCommits,
)
    requires
        call_ensures(drag_payload, (rows, commits, drag, pid, repo_key), r),
    ensures
        r.pid == pid,
        r.repo_key@ == match repo_key {
            Some(k) => k@,
            None => Seq::<char>::empty(),
        },
        ({
            let rs = if drag.set@.len() > 0 {
                drag.set@
            } else if drag.from is Some {
                seq![drag.from->0]
            } else {
                Seq::<usize>::empty()
            };
            let cis = commits_of(rows@, rs, commits@.len() as int);
            &&& r.commits@.len() == cis.len()
            &&& forall|k: int|
                0 <= k < cis.len() ==> (#[trigger] r.commits@[k]).sha@ == commits@[cis[k]].id.hex@
                    && r.commits@[k].change_id@ == commits@[cis[k]].change_id@
                    && r.commits@[k].subject@ == commits@[cis[k]].subject@
        }),
{
    let rs = if drag.set@.len() > 0 {
        drag.set@
    } else if drag.from is Some {
        seq![drag.from->0]
    } else {
        Seq::<usize>::empty()
    };
    assert(rs == carried(*drag));
    let cis = commits_of(rows@, rs, commits@.len() as int);
    let want = dragged_texts(commits@, cis);
    let all = r@.commits;
    assert(all == want);
    assert(all.len() == r.commits@.len());
    assert forall|k: int| 0 <= k < cis.len() implies (#[trigger] r.commits@[k]).sha@
        == commits@[cis[k]].id.hex@ && r.commits@[k].change_id@ == commits@[cis[k]].change_id@
        && r.commits@[k].subject@ == commits@[cis[k]].subject@ by {
        assert(all[k] == r.commits@[k]@);
        assert(want[k].sha == commits@[cis[k]].id@);
    }
}

/// The branches that lines are told apart by are the local ones that are edited, each
/// with its head, in their order; `at` lists them.
pub proof fn law_tips_are_those_of_edited_branches(
    local: &[LocalBranch],
    editable: &[String],
    r: Vec<BranchTip>,
    at: Seq<int>,
)
    requires
        call_ensures(branch_tips, (local, editable), r),
        indices::lists(
            at,
            0,
            local@.len() as int,
            |i: int| text::texts(editable@).contains(local@[i].name@),
        ),
    ensures
        r@.len() == at.len(),
        forall|k: int|
            0 <= k < r@.len() ==> (#[trigger] r@[k]).name@ == local@[at[k]].name@ && r@[k].tip.hex@
                == local@[at[k]].head.hex@,
{
    lemma_tips_listed(local@, text::texts(editable@), local@.len() as int, at);
    assert(local@.take(local@.len() as int) =~= local@);
    let all = tip_texts(r@);
    assert(all.len() == r@.len());
    assert forall|k: int| 0 <= k < r@.len() implies (#[trigger] r@[k]).name@ == local@[at[k]].name@
        && r@[k].tip.hex@ == local@[at[k]].head.hex@ by {
        assert(all[k] == (r@[k].name@, r@[k].tip@));
    }
}

proof fn lemma_tips_listed(
    local: Seq<LocalBranch>,
    editable: Seq<Seq<char>>,
    n: int,
    at: Seq<int>,
)
    requires
        0 <= n <= local.len(),
        indices::lists(at, 0, n, |i: int| editable.contains(local[i].name@)),
    ensures
        editable_tips(local.take(n), editable) == at.map_values(
            |i: int| (local[i].name@, local[i].head@),
        ),
    decreases n,
{
    let p = |i: int| editable.contains(local[i].name@);
    indices::lemma_lists_step(at, 0, n, p);
    let f = |i: int| (local[i].name@, local[i].head@);
    if n > 0 {
        assert(local.take(n).drop_last() =~= local.take(n - 1));
        assert(local.take(n).last() == local[n - 1]);
        if p(n - 1) {
            lemma_tips_listed(local, editable, n - 1, at.drop_last());
            assert(at.map_values(f) =~= at.drop_last().map_values(f).push(f(n - 1)));
        } else {
            lemma_tips_listed(local, editable, n - 1, at);
        }
    } else {
        assert(at.map_values(f) =~= Seq::<(Seq<char>, Seq<char>)>::empty());
    }
}

/// The line that a move goes into is told by the commits above it, and at its top,
/// where there are none, by those below.
pub proof fn law_a_line_is_told_by_its_children(mv: &ReorderMove, r: &[CommitId])
    requires
        call_ensures(line_commits, (mv,), r),
    ensures
        mv.new_children@.len() > 0 ==> r@ == mv.new_children@,
        mv.new_children@.len() == 0 ==> r@ == mv.new_parents@,
{
}

/// Every commit row is told what a squash into it means, and the commit that caused
/// the work is marked as that alone.
pub proof fn law_hints_mark_their_commits(
    commit_rows: &[usize],
    targets: &[usize],
    siblings: &[usize],
    blame: Option<usize>,
    r: Vec<Hint>,
    ci: usize,
)
    requires
        call_ensures(squash_hints, (commit_rows, targets, siblings, blame), r),
        ci < commit_rows@.len(),
    ensures
        r@.len() == commit_rows@.len(),
        r@[ci as int].row == commit_rows@[ci as int],
        r@[ci as int].blame <==> blame == Some(ci),
        blame == Some(ci) ==> !r@[ci as int].target && !r@[ci as int].sibling,
        blame != Some(ci) ==> (r@[ci as int].target <==> targets@.contains(ci)) && (
        r@[ci as int].sibling <==> siblings@.contains(ci)),
{
    assert(r@[ci as int] == hint_of(commit_rows@[ci as int], ci, targets@, siblings@, blame));
}

/// A dragged hunk is the one whose header is dragged: it names the groups and the file
/// that a click on the header means, and the commit or the entry that is shown.
pub proof fn law_a_dragged_hunk_is_that_of_its_header(
    text: &str,
    files: &[CombinedFile],
    line: usize,
    entry: bool,
    branch: &Option<String>,
    change: &Option<String>,
    selected: &Option<String>,
    r: Option<HunkDrag>,
    t: Option<(usize, usize, String)>,
)
    requires
        call_ensures(
            hunk_drag,
            (text, files, line, false, entry, branch, change, selected),
            r,
        ),
        call_ensures(diff_cues::hunk_target, (text, files, line), t),
        entry || *selected is Some,
    ensures
        r is Some <==> t is Some,
        r is Some ==> r->0.first_group == (t->0).0 && r->0.last_group == (t->0).1 && r->0.path@
            == (t->0).2@,
        r is Some && entry ==> (r->0.source matches HunkSource::WorkingCopy { branch: b, change: c }
            && (*branch is Some ==> b@ == branch->0@) && (*change is Some ==> c@ == change->0@)),
        r is Some && !entry ==> (r->0.source matches HunkSource::Commit(c) && c@ == selected->0@),
{
}

} // verus!
