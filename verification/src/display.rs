//! The rows of the history list: the commits, newest first, with the uncommitted
//! entries of every worktree directly above the commit they sit on.
//!
//! A row of the list is told apart from a commit of the history by its index: rows
//! count the uncommitted entries, commits do not.
use crate::indices;
use crate::model::{CommitInfo, Uncommitted};
use crate::text;
use vstd::prelude::*;

verus! {

/// A row of the history list.
#[derive(Clone, Copy, Debug, PartialEq, Eq, Structural)]
pub enum DisplayRow {
    /// An uncommitted entry: the worktree it belongs to and its place there.
    Wc { group: usize, entry: usize },
    /// A commit, by its place in the history.
    Commit(usize),
}

/// The rows of the history list, and where each commit stands.
#[derive(Clone, Debug)]
pub struct Display {
    pub rows: Vec<DisplayRow>,
    /// Whether the node of a row is drawn hollow: an uncommitted entry.
    pub hollow: Vec<bool>,
    /// The row of each commit.
    pub commit_rows: Vec<usize>,
}

/// Whether the entries of a worktree sit on a commit: its oldest entry is a child of it.
pub open spec fn sits_on(group: Uncommitted, commit: CommitInfo) -> bool {
    &&& group.entries@.len() > 0
    &&& group.entries@.last().info.parents@.len() > 0
    &&& group.entries@.last().info.parents@[0]@ == commit.id@
}

/// The rows of a worktree's entries.
pub open spec fn group_rows(group: int, n: int) -> Seq<DisplayRow> {
    Seq::new(n as nat, |e: int| DisplayRow::Wc { group: group as usize, entry: e as usize })
}

/// The rows above a commit for the first `k` worktrees.
pub open spec fn rows_above(groups: Seq<Uncommitted>, commit: CommitInfo, k: int) -> Seq<DisplayRow>
    decreases k,
{
    if k <= 0 {
        Seq::<DisplayRow>::empty()
    } else {
        let init = rows_above(groups, commit, k - 1);
        if sits_on(groups[k - 1], commit) {
            init + group_rows(k - 1, groups[k - 1].entries@.len() as int)
        } else {
            init
        }
    }
}

/// All rows above a commit.
pub open spec fn all_above(groups: Seq<Uncommitted>, commit: CommitInfo) -> Seq<DisplayRow> {
    rows_above(groups, commit, groups.len() as int)
}

/// The rows for the first `n` commits.
pub open spec fn rows_of(commits: Seq<CommitInfo>, groups: Seq<Uncommitted>, n: int) -> Seq<
    DisplayRow,
>
    decreases n,
{
    if n <= 0 {
        Seq::<DisplayRow>::empty()
    } else {
        (rows_of(commits, groups, n - 1) + all_above(groups, commits[n - 1])).push(
            DisplayRow::Commit((n - 1) as usize),
        )
    }
}

/// The row of the commit `ci`.
pub open spec fn commit_row(commits: Seq<CommitInfo>, groups: Seq<Uncommitted>, ci: int) -> int {
    (rows_of(commits, groups, ci) + all_above(groups, commits[ci])).len() as int
}

impl Display {
    /// Whether the rows are those of the given commits and uncommitted entries.
    pub open spec fn shows(&self, commits: Seq<CommitInfo>, groups: Seq<Uncommitted>) -> bool {
        &&& self.rows@ == rows_of(commits, groups, commits.len() as int)
        &&& self.hollow@.len() == self.rows@.len()
        &&& forall|i: int|
            0 <= i < self.rows@.len() ==> #[trigger] self.hollow@[i] == (self.rows@[i] is Wc)
        &&& self.commit_rows@.len() == commits.len()
        &&& forall|ci: int|
            0 <= ci < commits.len() ==> #[trigger] self.commit_rows@[ci] == commit_row(
                commits,
                groups,
                ci,
            )
    }
}

fn group_sits_on(group: &Uncommitted, commit: &CommitInfo) -> (r: bool)
    ensures
        r == sits_on(*group, *commit),
{
    let n: usize = group.entries.len();
    if n == 0 {
        return false;
    }
    let last = &group.entries[n - 1];
    if last.info.parents.len() == 0 {
        return false;
    }
    text::same_text(last.info.parents[0].hex.as_str(), commit.id.hex.as_str())
}

/// The rows of the history list.
pub fn interleave(commits: &[CommitInfo], groups: &[Uncommitted]) -> (r: Display)
    ensures
        r.shows(commits@, groups@),
{
    let mut rows: Vec<DisplayRow> = Vec::new();
    let mut hollow: Vec<bool> = Vec::new();
    let mut commit_rows: Vec<usize> = Vec::new();
    let mut ci: usize = 0;
    while ci < commits.len()
        invariant
            ci <= commits@.len(),
            rows@ == rows_of(commits@, groups@, ci as int),
            hollow@.len() == rows@.len(),
            forall|i: int| 0 <= i < rows@.len() ==> #[trigger] hollow@[i] == (rows@[i] is Wc),
            commit_rows@.len() == ci,
            forall|j: int|
                0 <= j < ci ==> #[trigger] commit_rows@[j] == commit_row(commits@, groups@, j),
        decreases commits.len() - ci,
    {
        let commit = &commits[ci];
        let ghost before = rows@;
        let mut g: usize = 0;
        assert(before + rows_above(groups@, *commit, 0) =~= before);
        while g < groups.len()
            invariant
                g <= groups@.len(),
                ci < commits@.len(),
                *commit == commits@[ci as int],
                before == rows_of(commits@, groups@, ci as int),
                rows@ == before + rows_above(groups@, *commit, g as int),
                hollow@.len() == rows@.len(),
                forall|i: int| 0 <= i < rows@.len() ==> #[trigger] hollow@[i] == (rows@[i] is Wc),
            decreases groups.len() - g,
        {
            if group_sits_on(&groups[g], commit) {
                let n: usize = groups[g].entries.len();
                let ghost r1 = rows@;
                let mut e: usize = 0;
                assert(r1 + group_rows(g as int, 0) =~= r1);
                while e < n
                    invariant
                        e <= n,
                        rows@ == r1 + group_rows(g as int, e as int),
                        hollow@.len() == rows@.len(),
                        forall|i: int|
                            0 <= i < rows@.len() ==> #[trigger] hollow@[i] == (rows@[i] is Wc),
                    decreases n - e,
                {
                    rows.push(DisplayRow::Wc { group: g, entry: e });
                    hollow.push(true);
                    assert(rows@ =~= r1 + group_rows(g as int, e + 1));
                    e += 1;
                }
                assert(rows@ =~= before + rows_above(groups@, *commit, g + 1));
            }
            g += 1;
        }
        assert(rows@ =~= before + all_above(groups@, commits@[ci as int]));
        commit_rows.push(rows.len());
        rows.push(DisplayRow::Commit(ci));
        hollow.push(false);
        ci += 1;
    }
    Display { rows, hollow, commit_rows }
}

/// The commit that a row shows.
pub open spec fn commit_at(rows: Seq<DisplayRow>, di: int) -> Option<int> {
    if 0 <= di < rows.len() {
        match rows[di] {
            DisplayRow::Commit(ci) => Some(ci as int),
            DisplayRow::Wc { .. } => None,
        }
    } else {
        None
    }
}

/// The commit that row `di` shows; `None` for an uncommitted entry and beyond the rows.
pub fn row_commit_index(rows: &[DisplayRow], di: usize) -> (r: Option<usize>)
    ensures
        match r {
            Some(ci) => commit_at(rows@, di as int) == Some(ci as int),
            None => commit_at(rows@, di as int) is None,
        },
{
    if di < rows.len() {
        match rows[di] {
            DisplayRow::Commit(ci) => Some(ci),
            DisplayRow::Wc { .. } => None,
        }
    } else {
        None
    }
}

/// How many of the first `gap` rows show commits.
pub open spec fn commits_before(rows: Seq<DisplayRow>, gap: int) -> int
    decreases gap,
{
    if gap <= 0 {
        0
    } else {
        commits_before(rows, gap - 1) + if gap <= rows.len() && rows[gap - 1] is Commit {
            1int
        } else {
            0int
        }
    }
}

/// The place between commits for a gap between rows: the number of commits above it.
pub fn row_commit_gap(rows: &[DisplayRow], gap: usize) -> (r: usize)
    ensures
        r == commits_before(rows@, gap as int),
        r <= gap,
        r <= rows@.len(),
{
    let n: usize = rows.len();
    let mut count: usize = 0;
    let mut i: usize = 0;
    while i < gap && i < n
        invariant
            i <= gap,
            i <= n,
            n == rows@.len(),
            count <= i,
            count == commits_before(rows@, i as int),
        decreases n - i,
    {
        match rows[i] {
            DisplayRow::Commit(_) => {
                count += 1;
            },
            DisplayRow::Wc { .. } => {},
        }
        i += 1;
    }
    proof {
        lemma_no_commits_beyond(rows@, i as int, gap as int);
    }
    count
}

proof fn lemma_no_commits_beyond(rows: Seq<DisplayRow>, i: int, gap: int)
    requires
        0 <= i <= gap,
        i == gap || i == rows.len(),
    ensures
        commits_before(rows, gap) == commits_before(rows, i),
    decreases gap,
{
    if i < gap {
        lemma_no_commits_beyond(rows, i, gap - 1);
    }
}

/// Whether row `di` is the entry of that branch's worktree with that change id.
pub open spec fn is_entry(
    rows: Seq<DisplayRow>,
    groups: Seq<Uncommitted>,
    di: int,
    branch: Seq<char>,
    change: Seq<char>,
) -> bool {
    0 <= di < rows.len() && (rows[di] matches DisplayRow::Wc { group, entry } && (group as int)
        < groups.len() && groups[group as int].branch@ == branch && (entry as int)
        < groups[group as int].entries@.len()
        && groups[group as int].entries@[entry as int].info.change_id@ == change)
}

/// The first row of the entry of that branch's worktree with that change id.
pub fn find_wc_row(
    rows: &[DisplayRow],
    groups: &[Uncommitted],
    branch: &str,
    change: &str,
) -> (r: Option<usize>)
    ensures
        match r {
            Some(di) => is_entry(rows@, groups@, di as int, branch@, change@) && forall|k: int|
                0 <= k < di ==> !is_entry(rows@, groups@, k, branch@, change@),
            None => forall|k: int| !is_entry(rows@, groups@, k, branch@, change@),
        },
{
    let mut i: usize = 0;
    while i < rows.len()
        invariant
            i <= rows@.len(),
            forall|k: int| 0 <= k < i ==> !is_entry(rows@, groups@, k, branch@, change@),
        decreases rows.len() - i,
    {
        match rows[i] {
            DisplayRow::Wc { group, entry } => {
                if group < groups.len() && text::same_text(groups[group].branch.as_str(), branch)
                    && entry < groups[group].entries.len() && text::same_text(
                    groups[group].entries[entry].info.change_id.as_str(),
                    change,
                ) {
                    return Some(i);
                }
            },
            DisplayRow::Commit(_) => {},
        }
        i += 1;
    }
    None
}

/// The first row that shows a commit.
pub fn first_commit_row(rows: &[DisplayRow]) -> (r: Option<usize>)
    ensures
        match r {
            Some(di) => di < rows@.len() && rows@[di as int] is Commit && forall|k: int|
                0 <= k < di ==> !(#[trigger] rows@[k] is Commit),
            None => forall|k: int| 0 <= k < rows@.len() ==> !(#[trigger] rows@[k] is Commit),
        },
{
    let mut i: usize = 0;
    while i < rows.len()
        invariant
            i <= rows@.len(),
            forall|k: int| 0 <= k < i ==> !(#[trigger] rows@[k] is Commit),
        decreases rows.len() - i,
    {
        match rows[i] {
            DisplayRow::Commit(_) => {
                return Some(i);
            },
            DisplayRow::Wc { .. } => {},
        }
        i += 1;
    }
    None
}

proof fn lemma_above_are_entries(groups: Seq<Uncommitted>, commit: CommitInfo, k: int, i: int)
    requires
        k <= groups.len() <= usize::MAX,
        0 <= i < rows_above(groups, commit, k).len(),
        forall|g: int|
            0 <= g < groups.len() ==> (#[trigger] groups[g]).entries@.len() <= usize::MAX,
    ensures
        rows_above(groups, commit, k)[i] matches DisplayRow::Wc { group, entry } && (group as int)
            < k && sits_on(groups[group as int], commit) && (entry as int)
            < groups[group as int].entries@.len(),
    decreases k,
{
    if k > 0 {
        let init = rows_above(groups, commit, k - 1);
        if i < init.len() {
            lemma_above_are_entries(groups, commit, k - 1, i);
        } else {
            let n = groups[k - 1].entries@.len() as int;
            assert(rows_above(groups, commit, k)[i] == group_rows(k - 1, n)[i - init.len()]);
        }
    }
}

proof fn lemma_no_commits_in_entries(rows: Seq<DisplayRow>, from: int, to: int)
    requires
        0 <= from <= to <= rows.len(),
        forall|i: int| from <= i < to ==> !(#[trigger] rows[i] is Commit),
    ensures
        commits_before(rows, to) == commits_before(rows, from),
    decreases to - from,
{
    if from < to {
        lemma_no_commits_in_entries(rows, from, to - 1);
        assert(!(rows[to - 1] is Commit));
    }
}

proof fn lemma_prefix_counts(a: Seq<DisplayRow>, b: Seq<DisplayRow>, gap: int)
    requires
        gap <= a.len(),
    ensures
        commits_before(a + b, gap) == commits_before(a, gap),
    decreases gap,
{
    if gap > 0 {
        lemma_prefix_counts(a, b, gap - 1);
        assert((a + b)[gap - 1] == a[gap - 1]);
    }
}

proof fn lemma_rows(commits: Seq<CommitInfo>, groups: Seq<Uncommitted>, n: int, ci: int)
    requires
        0 <= ci < n <= commits.len() <= usize::MAX,
        groups.len() <= usize::MAX,
        forall|g: int|
            0 <= g < groups.len() ==> (#[trigger] groups[g]).entries@.len() <= usize::MAX,
    ensures
        commit_row(commits, groups, ci) < rows_of(commits, groups, n).len(),
        rows_of(commits, groups, n)[commit_row(commits, groups, ci)] == DisplayRow::Commit(
            ci as usize,
        ),
        commits_before(rows_of(commits, groups, n), commit_row(commits, groups, ci)) == ci,
        commits_before(rows_of(commits, groups, n), rows_of(commits, groups, n).len() as int) == n,
    decreases n,
{
    let init = rows_of(commits, groups, n - 1);
    let above = all_above(groups, commits[n - 1]);
    let all = rows_of(commits, groups, n);
    let p = (init + above).len() as int;
    let tail = seq![DisplayRow::Commit((n - 1) as usize)];
    assert(all =~= (init + above) + tail);
    assert(all =~= init + (above + tail));
    if n - 1 > 0 {
        lemma_rows(commits, groups, n - 1, n - 2);
    }
    assert(commits_before(init, init.len() as int) == n - 1);
    lemma_prefix_counts(init, above + tail, init.len() as int);
    assert forall|i: int| init.len() <= i < p implies !(#[trigger] all[i] is Commit) by {
        lemma_above_are_entries(groups, commits[n - 1], groups.len() as int, i - init.len());
        assert(all[i] == above[i - init.len()]);
    }
    lemma_no_commits_in_entries(all, init.len() as int, p);
    assert(all[p] == DisplayRow::Commit((n - 1) as usize));
    assert(commits_before(all, p + 1) == n);
    if ci < n - 1 {
        lemma_rows(commits, groups, n - 1, ci);
        let q = commit_row(commits, groups, ci);
        assert(all[q] == init[q]);
        lemma_prefix_counts(init, above + tail, q);
    }
}

/// A commit's row shows that commit; as many commits stand above it as it has newer
/// ones; and the gap below all rows lies below all commits.
pub proof fn law_commits_and_rows_agree(
    commits: Seq<CommitInfo>,
    groups: Seq<Uncommitted>,
    ci: int,
)
    requires
        0 <= ci < commits.len() <= usize::MAX,
        groups.len() <= usize::MAX,
        forall|g: int|
            0 <= g < groups.len() ==> (#[trigger] groups[g]).entries@.len() <= usize::MAX,
    ensures
        ({
            let rows = rows_of(commits, groups, commits.len() as int);
            let row = commit_row(commits, groups, ci);
            &&& commit_at(rows, row) == Some(ci)
            &&& commits_before(rows, row) == ci
            &&& commits_before(rows, rows.len() as int) == commits.len()
        }),
{
    lemma_rows(commits, groups, commits.len() as int, ci);
}

/// Every uncommitted entry stands between the commit it sits on and the commit
/// above that, if there is one.
pub proof fn law_entries_stand_above_their_tip(
    commits: Seq<CommitInfo>,
    groups: Seq<Uncommitted>,
    ci: int,
    di: int,
)
    requires
        0 <= ci < commits.len() <= usize::MAX,
        groups.len() <= usize::MAX,
        forall|g: int|
            0 <= g < groups.len() ==> (#[trigger] groups[g]).entries@.len() <= usize::MAX,
        rows_of(commits, groups, ci).len() <= di < commit_row(commits, groups, ci),
    ensures
        ci > 0 ==> rows_of(commits, groups, ci).last() is Commit,
        rows_of(commits, groups, ci + 1)[di] matches DisplayRow::Wc { group, entry } && (
        group as int) < groups.len() && sits_on(groups[group as int], commits[ci]) && (entry as int)
            < groups[group as int].entries@.len(),
{
    let init = rows_of(commits, groups, ci);
    let above = all_above(groups, commits[ci]);
    lemma_above_are_entries(groups, commits[ci], groups.len() as int, di - init.len());
    assert(rows_of(commits, groups, ci + 1)[di] == above[di - init.len()]);
}

/// The commit rows above a gap are counted one by one; `at` lists them.
pub proof fn law_commits_above_are_counted(rows: Seq<DisplayRow>, gap: int, at: Seq<int>)
    requires
        0 <= gap,
        indices::lists(
            at,
            0,
            gap,
            |i: int| i < rows.len() && rows[i] is Commit,
        ),
    ensures
        commits_before(rows, gap) == at.len(),
    decreases gap,
{
    let p = |i: int| i < rows.len() && rows[i] is Commit;
    indices::lemma_lists_step(at, 0, gap, p);
    if gap > 0 {
        if p(gap - 1) {
            law_commits_above_are_counted(rows, gap - 1, at.drop_last());
        } else {
            law_commits_above_are_counted(rows, gap - 1, at);
        }
    }
}

proof fn lemma_group_rows_at(groups: Seq<Uncommitted>, commit: CommitInfo, g: int, k: int)
    requires
        0 <= g < k <= groups.len(),
        sits_on(groups[g], commit),
    ensures
        ({
            let at = rows_above(groups, commit, g).len() as int;
            let all = rows_above(groups, commit, k);
            &&& at + groups[g].entries@.len() <= all.len()
            &&& forall|e: int|
                0 <= e < groups[g].entries@.len() ==> #[trigger] all[at + e] == (DisplayRow::Wc {
                    group: g as usize,
                    entry: e as usize,
                })
        }),
    decreases k,
{
    let at = rows_above(groups, commit, g).len() as int;
    let all = rows_above(groups, commit, k);
    let n = groups[g].entries@.len() as int;
    if k - 1 > g {
        lemma_group_rows_at(groups, commit, g, k - 1);
        let init = rows_above(groups, commit, k - 1);
        assert forall|e: int| 0 <= e < n implies #[trigger] all[at + e] == (DisplayRow::Wc {
            group: g as usize,
            entry: e as usize,
        }) by {
            assert(all[at + e] == init[at + e]);
        }
    } else {
        let own = group_rows(g, n);
        assert forall|e: int| 0 <= e < n implies #[trigger] all[at + e] == (DisplayRow::Wc {
            group: g as usize,
            entry: e as usize,
        }) by {
            assert(all[at + e] == own[e]);
        }
    }
}

proof fn lemma_rows_grow(commits: Seq<CommitInfo>, groups: Seq<Uncommitted>, i: int, n: int)
    requires
        0 <= i <= n <= commits.len(),
    ensures
        rows_of(commits, groups, i).len() <= rows_of(commits, groups, n).len(),
        forall|d: int|
            0 <= d < rows_of(commits, groups, i).len() ==> #[trigger] rows_of(commits, groups, n)[d]
                == rows_of(commits, groups, i)[d],
    decreases n - i,
{
    if i < n {
        lemma_rows_grow(commits, groups, i, n - 1);
    }
}

proof fn lemma_above_is_uncommitted(groups: Seq<Uncommitted>, commit: CommitInfo, k: int)
    requires
        0 <= k <= groups.len(),
    ensures
        forall|d: int|
            0 <= d < rows_above(groups, commit, k).len() ==> (#[trigger] rows_above(
                groups,
                commit,
                k,
            )[d]) is Wc,
    decreases k,
{
    if k > 0 {
        lemma_above_is_uncommitted(groups, commit, k - 1);
    }
}

/// The uncommitted work on a commit is shown whole and in its order right above it:
/// where the oldest entry of group `g` has commit `ci` as its parent, all entries of
/// the group stand from row `at` on, with nothing but uncommitted work between them
/// and the commit's own row. The result is that row.
pub proof fn law_uncommitted_work_is_shown_above_its_commit(
    commits: &[CommitInfo],
    groups: &[Uncommitted],
    r: Display,
    ci: int,
    g: int,
) -> (at: int)
    requires
        call_ensures(interleave, (commits, groups), r),
        0 <= ci < commits@.len(),
        0 <= g < groups@.len(),
        groups@[g].entries@.len() > 0,
        groups@[g].entries@.last().info.parents@.len() > 0,
        groups@[g].entries@.last().info.parents@[0].hex@ == commits@[ci].id.hex@,
    ensures
        0 <= at,
        at + groups@[g].entries@.len() <= r.commit_rows@[ci] < r.rows@.len(),
        forall|e: int|
            0 <= e < groups@[g].entries@.len() ==> #[trigger] r.rows@[at + e] == (DisplayRow::Wc {
                group: g as usize,
                entry: e as usize,
            }) && r.hollow@[at + e],
        forall|d: int| at <= d < r.commit_rows@[ci] ==> (#[trigger] r.rows@[d]) is Wc,
        r.rows@[r.commit_rows@[ci] as int] == DisplayRow::Commit(ci as usize),
        !r.hollow@[r.commit_rows@[ci] as int],
{
    let c = commits@[ci];
    let gs = groups@;
    let n = commits@.len() as int;
    let base = rows_of(commits@, gs, ci).len() as int;
    let off = rows_above(gs, c, g).len() as int;
    let at = base + off;
    let above = all_above(gs, c);
    let own = rows_of(commits@, gs, ci + 1);
    lemma_group_rows_at(gs, c, g, gs.len() as int);
    lemma_above_is_uncommitted(gs, c, gs.len() as int);
    lemma_rows_grow(commits@, gs, ci + 1, n);
    let row = r.commit_rows@[ci] as int;
    assert(row == base + above.len());
    assert(own.len() == row + 1);
    assert(own[row] == DisplayRow::Commit(ci as usize));
    assert(r.rows@[row] == own[row]);
    assert forall|d: int| base <= d < row implies #[trigger] r.rows@[d] == above[d - base] by {
        assert(own[d] == above[d - base]);
    }
    assert forall|e: int| 0 <= e < gs[g].entries@.len() implies #[trigger] r.rows@[at + e] == (
    DisplayRow::Wc { group: g as usize, entry: e as usize }) && r.hollow@[at + e] by {
        assert(r.rows@[at + e] == above[off + e]);
    }
    at
}

/// The row sought for an entry is any that shows it, the first row of all included: one
/// of the worktree of that branch, for the change with that id.
pub proof fn law_any_row_can_show_the_entry(
    rows: Seq<DisplayRow>,
    groups: Seq<Uncommitted>,
    d: int,
    branch: Seq<char>,
    change: Seq<char>,
)
    requires
        0 <= d < rows.len(),
    ensures
        rows[d] matches DisplayRow::Wc { group, entry } ==> group < groups.len() ==> entry
            < groups[group as int].entries@.len() ==> (is_entry(rows, groups, d, branch, change)
            <==> groups[group as int].branch@ == branch
            && groups[group as int].entries@[entry as int].info.change_id@ == change),
        rows[d] is Commit ==> !is_entry(rows, groups, d, branch, change),
{
}

} // verus!
