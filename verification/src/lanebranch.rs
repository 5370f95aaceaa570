//! Which branches each commit of the displayed history belongs to: those whose tip
//! reaches it over the commits shown.
use crate::model::{CommitId, CommitInfo};
use crate::order;
use crate::text;
use vstd::prelude::*;

verus! {

/// A branch's name and the commit at its tip.
#[derive(Debug, Clone, PartialEq, Eq)]
pub struct BranchTip {
    pub name: String,
    pub tip: CommitId,
}

/// The branches of every displayed commit, in order of their names.
pub struct LaneBranches {
    pub rows: Vec<(CommitId, Vec<String>)>,
}

/// The row at which the commit `id` is displayed; the last, if it is more than once.
pub open spec fn row_of(commits: Seq<CommitInfo>, id: Seq<char>) -> Option<int>
    decreases commits.len(),
{
    if commits.len() == 0 {
        None
    } else if commits.last().id@ == id {
        Some(commits.len() - 1)
    } else {
        row_of(commits.drop_last(), id)
    }
}

/// Whether the commit at row `j` is a parent of the commit at row `i`.
pub open spec fn is_parent(commits: Seq<CommitInfo>, i: int, j: int) -> bool {
    exists|p: int|
        0 <= p < commits[i].parents@.len() && row_of(commits, (#[trigger] commits[i].parents@[p])@)
            == Some(j)
}

/// Whether `n` steps from child to parent lead from row `i` to row `j`.
pub open spec fn walk(commits: Seq<CommitInfo>, i: int, j: int, n: nat) -> bool
    decreases n,
{
    if n == 0 {
        i == j
    } else {
        exists|k: int| #[trigger] is_parent(commits, i, k) && walk(commits, k, j, (n - 1) as nat)
    }
}

/// Whether the commit at row `j` is the one at row `i` or an ancestor of it, over
/// displayed commits only.
pub open spec fn reaches(commits: Seq<CommitInfo>, i: int, j: int) -> bool {
    exists|n: nat| #[trigger] walk(commits, i, j, n)
}

/// Whether the branch reaches the commit at row `j`; one whose tip is not
/// displayed reaches nothing.
pub open spec fn branch_reaches(commits: Seq<CommitInfo>, b: BranchTip, j: int) -> bool {
    row_of(commits, b.tip@) matches Some(i) && reaches(commits, i, j)
}

/// Whether a branch called `name` reaches the commit at row `j`.
pub open spec fn named_branch_reaches(
    commits: Seq<CommitInfo>,
    branches: Seq<BranchTip>,
    name: Seq<char>,
    j: int,
) -> bool {
    exists|b: int|
        0 <= b < branches.len() && (#[trigger] branches[b]).name@ == name && branch_reaches(
            commits,
            branches[b],
            j,
        )
}

/// The names of the row at which `id` stands, or none.
pub open spec fn names_in(rows: Seq<(CommitId, Vec<String>)>, id: Seq<char>) -> Seq<Seq<char>>
    decreases rows.len(),
{
    if rows.len() == 0 {
        Seq::<Seq<char>>::empty()
    } else if rows.last().0@ == id {
        text::texts(rows.last().1@)
    } else {
        names_in(rows.drop_last(), id)
    }
}

impl LaneBranches {
    /// The branches of the commit `id`.
    pub open spec fn names(&self, id: Seq<char>) -> Seq<Seq<char>> {
        names_in(self.rows@, id)
    }

    /// Whether this is the mapping of the given commits and branches.
    pub open spec fn maps(&self, commits: Seq<CommitInfo>, branches: Seq<BranchTip>) -> bool {
        &&& self.rows@.len() == commits.len()
        &&& forall|j: int|
            0 <= j < commits.len() ==> {
                &&& (#[trigger] self.rows@[j]).0@ == commits[j].id@
                &&& order::ordered(text::texts(self.rows@[j].1@))
                &&& forall|name: Seq<char>| #[trigger]
                    text::texts(self.rows@[j].1@).contains(name) <==> named_branch_reaches(
                        commits,
                        branches,
                        name,
                        j,
                    )
            }
    }
}

proof fn lemma_row_of(commits: Seq<CommitInfo>, id: Seq<char>)
    ensures
        row_of(commits, id) matches Some(i) ==> 0 <= i < commits.len() && commits[i].id@ == id,
    decreases commits.len(),
{
    if commits.len() > 0 {
        lemma_row_of(commits.drop_last(), id);
    }
}

fn find_row(commits: &[CommitInfo], id: &CommitId) -> (r: Option<usize>)
    ensures
        (match r {
            Some(i) => row_of(commits@, id@) == Some(i as int) && i < commits@.len(),
            None => row_of(commits@, id@) is None,
        }),
{
    let mut n: usize = commits.len();
    assert(commits@.take(n as int) =~= commits@);
    while n > 0
        invariant
            n <= commits@.len(),
            row_of(commits@, id@) == row_of(commits@.take(n as int), id@),
        decreases n,
    {
        assert(commits@.take(n as int).last() == commits@[n - 1]);
        if commits[n - 1].id.hex == id.hex {
            return Some(n - 1);
        }
        assert(commits@.take(n as int).drop_last() =~= commits@.take(n - 1));
        n -= 1;
    }
    None
}

/// Whether `links` lists, for every row, the rows of its parents.
spec fn links_parents(commits: Seq<CommitInfo>, links: Seq<Vec<usize>>) -> bool {
    &&& links.len() == commits.len()
    &&& forall|i: int, j: usize|
        0 <= i < links.len() ==> (#[trigger] links[i]@.contains(j) <==> is_parent(
            commits,
            i,
            j as int,
        ))
    &&& forall|i: int, k: int|
        0 <= i < links.len() && 0 <= k < links[i]@.len() ==> #[trigger] links[i]@[k]
            < commits.len()
}

/// The rows of the parents of the commit at row `i`.
fn parent_rows(commits: &[CommitInfo], i: usize) -> (r: Vec<usize>)
    requires
        i < commits@.len(),
    ensures
        forall|j: usize| #[trigger] r@.contains(j) <==> is_parent(commits@, i as int, j as int),
        forall|k: int| 0 <= k < r@.len() ==> #[trigger] r@[k] < commits@.len(),
{
    let parents = &commits[i].parents;
    let ghost gp = commits@[i as int].parents@;
    let mut out: Vec<usize> = Vec::new();
    let mut p: usize = 0;
    while p < parents.len()
        invariant
            p <= parents@.len(),
            gp == parents@,
            forall|j: usize| #[trigger]
                out@.contains(j) <==> exists|q: int|
                    0 <= q < p && row_of(commits@, (#[trigger] gp[q])@) == Some(j as int),
            forall|k: int| 0 <= k < out@.len() ==> #[trigger] out@[k] < commits@.len(),
        decreases parents.len() - p,
    {
        let ghost o0 = out@;
        match find_row(commits, &parents[p]) {
            Some(row) => {
                out.push(row);
                assert forall|j: usize| #[trigger] out@.contains(j) <==> exists|q: int|
                    0 <= q < p + 1 && row_of(commits@, (#[trigger] gp[q])@) == Some(
                        j as int,
                    ) by {
                    if out@.contains(j) {
                        let k = choose|k: int| 0 <= k < out@.len() && out@[k] == j;
                        if k < o0.len() {
                            assert(o0[k] == j);
                            assert(o0.contains(j));
                            let q = choose|q: int|
                                0 <= q < p && row_of(commits@, (#[trigger] gp[q])@) == Some(
                                    j as int,
                                );
                            assert(row_of(commits@, gp[q]@) == Some(j as int));
                        } else {
                            assert(row_of(commits@, gp[p as int]@) == Some(j as int));
                        }
                    }
                    if exists|q: int|
                        0 <= q < p + 1 && row_of(commits@, (#[trigger] gp[q])@) == Some(
                            j as int,
                        ) {
                        let q = choose|q: int|
                            0 <= q < p + 1 && row_of(commits@, (#[trigger] gp[q])@) == Some(
                                j as int,
                            );
                        if q < p {
                            assert(row_of(commits@, gp[q]@) == Some(j as int));
                            assert(o0.contains(j));
                            let k = choose|k: int| 0 <= k < o0.len() && o0[k] == j;
                            assert(out@[k] == j);
                        } else {
                            assert(out@[out@.len() - 1] == j);
                        }
                    }
                }
            },
            None => {
                assert forall|j: usize| #[trigger] out@.contains(j) <==> exists|q: int|
                    0 <= q < p + 1 && row_of(commits@, (#[trigger] gp[q])@) == Some(
                        j as int,
                    ) by {
                    if exists|q: int|
                        0 <= q < p + 1 && row_of(commits@, (#[trigger] gp[q])@) == Some(
                            j as int,
                        ) {
                        let q = choose|q: int|
                            0 <= q < p + 1 && row_of(commits@, (#[trigger] gp[q])@) == Some(
                                j as int,
                            );
                        assert(row_of(commits@, gp[q]@) == Some(j as int));
                        assert(q < p);
                    }
                    if out@.contains(j) {
                        let q = choose|q: int|
                            0 <= q < p && row_of(commits@, (#[trigger] gp[q])@) == Some(j as int);
                        assert(row_of(commits@, gp[q]@) == Some(j as int));
                    }
                }
            },
        }
        p += 1;
    }
    proof {
        assert forall|j: usize| #[trigger] out@.contains(j) <==> is_parent(
            commits@,
            i as int,
            j as int,
        ) by {
            if out@.contains(j) {
                let q = choose|q: int|
                    0 <= q < p && row_of(commits@, (#[trigger] gp[q])@) == Some(j as int);
                assert(row_of(commits@, commits@[i as int].parents@[q]@) == Some(j as int));
            }
            if is_parent(commits@, i as int, j as int) {
                let q = choose|q: int|
                    0 <= q < commits@[i as int].parents@.len() && row_of(
                        commits@,
                        (#[trigger] commits@[i as int].parents@[q])@,
                    ) == Some(j as int);
                assert(row_of(commits@, gp[q]@) == Some(j as int));
            }
        }
    }
    out
}

fn link_rows(commits: &[CommitInfo]) -> (r: Vec<Vec<usize>>)
    ensures
        links_parents(commits@, r@),
{
    let mut out: Vec<Vec<usize>> = Vec::new();
    let mut i: usize = 0;
    while i < commits.len()
        invariant
            i <= commits@.len(),
            out@.len() == i,
            forall|a: int, j: usize|
                0 <= a < i ==> (#[trigger] out@[a]@.contains(j) <==> is_parent(
                    commits@,
                    a,
                    j as int,
                )),
            forall|a: int, k: int|
                0 <= a < i && 0 <= k < out@[a]@.len() ==> #[trigger] out@[a]@[k] < commits@.len(),
        decreases commits.len() - i,
    {
        let row = parent_rows(commits, i);
        out.push(row);
        i += 1;
    }
    out
}

/// How many rows have not been visited.
spec fn unvisited(v: Seq<bool>) -> nat
    decreases v.len(),
{
    if v.len() == 0 {
        0
    } else {
        unvisited(v.drop_last()) + if v.last() {
            0nat
        } else {
            1nat
        }
    }
}

proof fn lemma_visit(v: Seq<bool>, i: int)
    requires
        0 <= i < v.len(),
        !v[i],
    ensures
        unvisited(v.update(i, true)) + 1 == unvisited(v),
    decreases v.len(),
{
    let w = v.update(i, true);
    if i == v.len() - 1 {
        assert(w.drop_last() =~= v.drop_last());
    } else {
        lemma_visit(v.drop_last(), i);
        assert(w.drop_last() =~= v.drop_last().update(i, true));
    }
}

/// A set of rows that holds the parents of its members holds all that they reach.
proof fn lemma_closed(commits: Seq<CommitInfo>, v: Seq<bool>, i: int, j: int, n: nat)
    requires
        v.len() == commits.len(),
        0 <= i < v.len(),
        v[i],
        forall|a: int, b: int|
            0 <= a < v.len() && v[a] && #[trigger] is_parent(commits, a, b) ==> 0 <= b < v.len()
                && v[b],
        walk(commits, i, j, n),
    ensures
        0 <= j < v.len(),
        v[j],
    decreases n,
{
    if n > 0 {
        let k = choose|k: int|
            #[trigger] is_parent(commits, i, k) && walk(commits, k, j, (n - 1) as nat);
        lemma_closed(commits, v, k, j, (n - 1) as nat);
    }
}

proof fn lemma_walk_on(commits: Seq<CommitInfo>, i: int, j: int, k: int, n: nat)
    requires
        walk(commits, i, j, n),
        is_parent(commits, j, k),
    ensures
        walk(commits, i, k, n + 1),
    decreases n,
{
    if n == 0 {
        assert(walk(commits, k, k, 0));
        assert(is_parent(commits, i, k) && walk(commits, k, k, (n + 1 - 1) as nat));
    } else {
        let m = choose|m: int|
            #[trigger] is_parent(commits, i, m) && walk(commits, m, j, (n - 1) as nat);
        lemma_walk_on(commits, m, j, k, (n - 1) as nat);
        assert(is_parent(commits, i, m) && walk(commits, m, k, (n + 1 - 1) as nat));
    }
}

/// For every row, whether it is reached from row `start`.
fn reached_rows(commits: &[CommitInfo], links: &Vec<Vec<usize>>, start: usize) -> (r: Vec<bool>)
    requires
        links_parents(commits@, links@),
        start < commits@.len(),
    ensures
        r@.len() == commits@.len(),
        forall|j: int|
            0 <= j < r@.len() ==> #[trigger] r@[j] == reaches(commits@, start as int, j),
{
    let n: usize = commits.len();
    let mut visited: Vec<bool> = Vec::new();
    let mut i: usize = 0;
    while i < n
        invariant
            i <= n,
            visited@.len() == i,
            forall|j: int| 0 <= j < i ==> !#[trigger] visited@[j],
        decreases n - i,
    {
        visited.push(false);
        i += 1;
    }
    let mut stack: Vec<usize> = Vec::new();
    stack.push(start);
    proof {
        assert(walk(commits@, start as int, start as int, 0));
        assert(stack@[0] == start);
        assert(stack@.contains(start));
    }
    while stack.len() > 0
        invariant
            n == commits@.len(),
            start < n,
            visited@.len() == n,
            links_parents(commits@, links@),
            forall|k: int|
                0 <= k < stack@.len() ==> (#[trigger] stack@[k]) < n && reaches(
                    commits@,
                    start as int,
                    stack@[k] as int,
                ),
            forall|j: int|
                0 <= j < n && #[trigger] visited@[j] ==> reaches(commits@, start as int, j),
            visited@[start as int] || stack@.contains(start),
            forall|a: int, b: usize|
                0 <= a < n && visited@[a] && #[trigger] links@[a]@.contains(b) ==> visited@[b as int]
                    || stack@.contains(b),
        decreases unvisited(visited@), stack@.len(),
    {
        let ghost s0 = stack@;
        let ghost v0 = visited@;
        let top: usize = stack.len() - 1;
        let row: usize = stack[top];
        assert(s0[top as int] == row);
        stack.truncate(top);
        assert(stack@ =~= s0.take(top as int));
        assert forall|b: usize| s0.contains(b) && b != row implies #[trigger] stack@.contains(b) by {
            let k = choose|k: int| 0 <= k < s0.len() && s0[k] == b;
            assert(stack@[k] == b);
        }
        assert forall|k: int| 0 <= k < stack@.len() implies (#[trigger] stack@[k]) < n && reaches(
            commits@,
            start as int,
            stack@[k] as int,
        ) by {
            assert(stack@[k] == s0[k]);
        }
        if visited[row] {
            assert forall|a: int, b: usize|
                0 <= a < n && visited@[a] && #[trigger] links@[a]@.contains(b) implies visited@[b as int]
                || stack@.contains(b) by {
                if b != row && s0.contains(b) {
                    assert(stack@.contains(b));
                }
            }
        } else {
            proof {
                lemma_visit(v0, row as int);
            }
            visited.set(row, true);
            let ps = &links[row];
            let ghost s1 = stack@;
            let mut k: usize = 0;
            while k < ps.len()
                invariant
                    k <= ps@.len(),
                    ps@ == links@[row as int]@,
                    row < n,
                    n == commits@.len(),
                    links_parents(commits@, links@),
                    reaches(commits@, start as int, row as int),
                    forall|m: int|
                        0 <= m < stack@.len() ==> (#[trigger] stack@[m]) < n && reaches(
                            commits@,
                            start as int,
                            stack@[m] as int,
                        ),
                    forall|b: usize| s1.contains(b) ==> #[trigger] stack@.contains(b),
                    forall|m: int| 0 <= m < k ==> stack@.contains(#[trigger] ps@[m]),
                decreases ps.len() - k,
            {
                let p: usize = ps[k];
                let ghost s2 = stack@;
                proof {
                    assert(links@[row as int]@[k as int] == p);
                    assert(links@[row as int]@.contains(p));
                    assert(is_parent(commits@, row as int, p as int));
                    let w = choose|w: nat| #[trigger]
                        walk(commits@, start as int, row as int, w);
                    lemma_walk_on(commits@, start as int, row as int, p as int, w);
                    assert(reaches(commits@, start as int, p as int));
                }
                stack.push(p);
                proof {
                    assert forall|b: usize| s2.contains(b) || b == p implies
                        #[trigger] stack@.contains(b) by {
                        if s2.contains(b) {
                            let m = choose|m: int| 0 <= m < s2.len() && s2[m] == b;
                            assert(stack@[m] == b);
                        } else {
                            assert(stack@[stack@.len() - 1] == p);
                        }
                    }
                }
                k += 1;
            }
            proof {
                assert forall|a: int, b: usize|
                    0 <= a < n && visited@[a] && #[trigger] links@[a]@.contains(
                        b,
                    ) implies visited@[b as int] || stack@.contains(b) by {
                    if a == row {
                        let m = choose|m: int| 0 <= m < ps@.len() && ps@[m] == b;
                        assert(stack@.contains(ps@[m]));
                    } else {
                        assert(v0[a]);
                        if !v0[b as int] && b != row {
                            assert(s0.contains(b));
                            assert(s1.contains(b));
                        }
                    }
                }
                if start != row && !v0[start as int] {
                    assert(s0.contains(start));
                    assert(s1.contains(start));
                }
            }
        }
    }
    proof {
        assert(!stack@.contains(start));
        assert forall|j: int| 0 <= j < n implies #[trigger] visited@[j] == reaches(
            commits@,
            start as int,
            j,
        ) by {
            if reaches(commits@, start as int, j) {
                let w = choose|w: nat| #[trigger] walk(commits@, start as int, j, w);
                assert forall|a: int, b: int|
                    0 <= a < n && visited@[a] && #[trigger] is_parent(commits@, a, b) implies 0
                    <= b < n && visited@[b] by {
                    let q = choose|q: int|
                        0 <= q < commits@[a].parents@.len() && row_of(
                            commits@,
                            (#[trigger] commits@[a].parents@[q])@,
                        ) == Some(b);
                    lemma_row_of(commits@, commits@[a].parents@[q]@);
                    assert(links@[a]@.contains(b as usize));
                }
                lemma_closed(commits@, visited@, start as int, j, w);
            }
        }
    }
    visited
}

impl LaneBranches {
    /// The mapping of the displayed `commits` for the given branches.
    pub fn compute(commits: &[CommitInfo], branches: &[BranchTip]) -> (r: Self)
        ensures
            r.maps(commits@, branches@),
    {
        let links = link_rows(commits);
        let mut rows: Vec<(CommitId, Vec<String>)> = Vec::new();
        let mut i: usize = 0;
        while i < commits.len()
            invariant
                i <= commits@.len(),
                rows@.len() == i,
                forall|j: int|
                    0 <= j < i ==> (#[trigger] rows@[j]).0@ == commits@[j].id@ && rows@[j].1@.len()
                        == 0,
            decreases commits.len() - i,
        {
            rows.push((CommitId { hex: commits[i].id.hex.clone() }, Vec::new()));
            i += 1;
        }
        let mut b: usize = 0;
        proof {
            assert forall|j: int| 0 <= j < commits@.len() implies (#[trigger] rows@[j]).0@
                == commits@[j].id@ && row_maps(rows@[j], commits@, branches@, 0, j) by {
                assert(text::texts(rows@[j].1@).len() == 0);
            }
        }
        while b < branches.len()
            invariant
                b <= branches@.len(),
                rows@.len() == commits@.len(),
                links_parents(commits@, links@),
                forall|j: int|
                    0 <= j < commits@.len() ==> (#[trigger] rows@[j]).0@ == commits@[j].id@
                        && row_maps(rows@[j], commits@, branches@, b as int, j),
            decreases branches.len() - b,
        {
            let branch = &branches[b];
            match find_row(commits, &branch.tip) {
                Some(start) => {
                    let hit = reached_rows(commits, &links, start);
                    add_branch(&mut rows, commits, branches, b, &hit);
                },
                None => {
                    assert forall|j: int| 0 <= j < commits@.len() implies (#[trigger] rows@[j]).0@
                        == commits@[j].id@ && row_maps(
                        rows@[j],
                        commits@,
                        branches@,
                        b + 1,
                        j,
                    ) by {
                        lemma_row_step(rows@[j], commits@, branches@, b as int, j);
                    }
                },
            }
            b += 1;
        }
        let r = LaneBranches { rows };
        proof {
            assert forall|j: int| 0 <= j < commits@.len() implies {
                &&& (#[trigger] r.rows@[j]).0@ == commits@[j].id@
                &&& order::ordered(text::texts(r.rows@[j].1@))
                &&& forall|name: Seq<char>| #[trigger]
                    text::texts(r.rows@[j].1@).contains(name) <==> named_branch_reaches(
                        commits@,
                        branches@,
                        name,
                        j,
                    )
            } by {
                assert(row_maps(rows@[j], commits@, branches@, b as int, j));
                assert(branches@.take(b as int) =~= branches@);
            }
        }
        r
    }

    /// The branches that reach the commit `id`, in order of their names.
    pub fn branches_of(&self, id: &CommitId) -> (r: Vec<String>)
        ensures
            text::texts(r@) == self.names(id@),
    {
        let mut n: usize = self.rows.len();
        assert(self.rows@.take(n as int) =~= self.rows@);
        while n > 0
            invariant
                n <= self.rows@.len(),
                names_in(self.rows@, id@) == names_in(self.rows@.take(n as int), id@),
            decreases n,
        {
            assert(self.rows@.take(n as int).last() == self.rows@[n - 1]);
            if self.rows[n - 1].0.hex == id.hex {
                return text::copy_texts(&self.rows[n - 1].1);
            }
            assert(self.rows@.take(n as int).drop_last() =~= self.rows@.take(n - 1));
            n -= 1;
        }
        let r: Vec<String> = Vec::new();
        assert(text::texts(r@) =~= Seq::<Seq<char>>::empty());
        r
    }
}

/// Whether a branch called `name` is among those of some commit of `ids`.
pub open spec fn any_names(lanes: LaneBranches, ids: Seq<CommitId>, name: Seq<char>) -> bool {
    exists|i: int| 0 <= i < ids.len() && lanes.names((#[trigger] ids[i])@).contains(name)
}

/// Whether `names` lists the branches of the commits `ids`, in order.
pub open spec fn line_names(
    lanes: LaneBranches,
    ids: Seq<CommitId>,
    names: Seq<Seq<char>>,
) -> bool {
    &&& order::ordered(names)
    &&& forall|name: Seq<char>| #[trigger] names.contains(name) <==> any_names(lanes, ids, name)
}

/// Whether the commit `source` and the line through `line` both lie on branches
/// but on none in common.
pub open spec fn crosses(lanes: LaneBranches, source: Seq<char>, line: Seq<CommitId>) -> bool {
    &&& lanes.names(source).len() > 0
    &&& exists|name: Seq<char>| #[trigger] any_names(lanes, line, name)
    &&& forall|name: Seq<char>| #[trigger]
        any_names(lanes, line, name) ==> !lanes.names(source).contains(name)
}

impl LaneBranches {
    /// The branches that reach any of `ids`, in order of their names.
    pub fn branches_of_any(&self, ids: &[CommitId]) -> (r: Vec<String>)
        ensures
            line_names(*self, ids@, text::texts(r@)),
    {
        let mut out: Vec<String> = Vec::new();
        let mut i: usize = 0;
        assert(text::texts(out@).len() == 0);
        while i < ids.len()
            invariant
                i <= ids@.len(),
                line_names(*self, ids@.take(i as int), text::texts(out@)),
            decreases ids.len() - i,
        {
            let names = self.branches_of(&ids[i]);
            let ghost gn = text::texts(names@);
            let ghost g0 = text::texts(out@);
            let mut k: usize = 0;
            while k < names.len()
                invariant
                    k <= names@.len(),
                    gn == text::texts(names@),
                    order::ordered(text::texts(out@)),
                    forall|y: Seq<char>| #[trigger]
                        text::texts(out@).contains(y) <==> g0.contains(y) || gn.take(
                            k as int,
                        ).contains(y),
                decreases names.len() - k,
            {
                let ghost g1 = text::texts(out@);
                order::insert_ordered(&mut out, names[k].as_str());
                let ghost g2 = text::texts(out@);
                assert(gn[k as int] == names@[k as int]@);
                assert forall|y: Seq<char>| #[trigger] g2.contains(y) <==> g0.contains(y)
                    || gn.take(k + 1).contains(y) by {
                    assert(g2.contains(y) <==> g1.contains(y) || y == gn[k as int]);
                    assert(g1.contains(y) <==> g0.contains(y) || gn.take(k as int).contains(y));
                    lemma_take_members(gn, k as int, y);
                }
                k += 1;
            }
            assert(gn.take(k as int) =~= gn);
            proof {
                assert forall|y: Seq<char>| #[trigger]
                    text::texts(out@).contains(y) <==> any_names(*self, ids@.take(i + 1), y) by {
                    assert(text::texts(out@).contains(y) <==> g0.contains(y) || gn.contains(y));
                    assert(g0.contains(y) <==> any_names(*self, ids@.take(i as int), y));
                    lemma_any_step(*self, ids@, i as int, y);
                }
            }
            i += 1;
        }
        assert(ids@.take(i as int) =~= ids@);
        out
    }

    /// Whether the line through `line` lies on other branches than the commit
    /// `source`. One that lies on no branch crosses nothing.
    pub fn line_is_cross_branch(&self, source: &CommitId, line: &[CommitId]) -> (r: bool)
        ensures
            r == crosses(*self, source@, line@),
    {
        let a = self.branches_of(source);
        let b = self.branches_of_any(line);
        let ghost ga = text::texts(a@);
        let ghost gb = text::texts(b@);
        if a.len() == 0 || b.len() == 0 {
            assert(ga.len() == 0 || gb.len() == 0);
            assert forall|name: Seq<char>| gb.len() == 0 implies !#[trigger] any_names(
                *self,
                line@,
                name,
            ) by {
                assert(!gb.contains(name));
            }
            return false;
        }
        assert(gb.contains(gb[0]));
        assert(any_names(*self, line@, gb[0]));
        let mut i: usize = 0;
        while i < b.len()
            invariant
                i <= b@.len(),
                ga == text::texts(a@),
                gb == text::texts(b@),
                ga == self.names(source@),
                line_names(*self, line@, gb),
                forall|k: int| 0 <= k < i ==> !ga.contains(#[trigger] gb[k]),
            decreases b.len() - i,
        {
            assert(gb[i as int] == b@[i as int]@);
            if text::contains_text(a.as_slice(), b[i].as_str()) {
                assert(gb.contains(gb[i as int]));
                assert(any_names(*self, line@, gb[i as int]));
                return false;
            }
            i += 1;
        }
        assert forall|name: Seq<char>| #[trigger] any_names(*self, line@, name) implies !ga.contains(
            name,
        ) by {
            assert(gb.contains(name));
            let k = choose|k: int| 0 <= k < gb.len() && gb[k] == name;
            assert(!ga.contains(gb[k]));
        }
        true
    }

    /// The names of the branches of the line through `ids`, or `None` where it
    /// lies on none.
    pub fn label_for(&self, ids: &[CommitId]) -> (r: Option<String>)
        ensures
            r is Some <==> exists|name: Seq<char>| #[trigger] any_names(*self, ids@, name),
            r matches Some(t) ==> exists|names: Seq<Seq<char>>| #[trigger]
                line_names(*self, ids@, names) && t@ == text::list_with(names, ", "@),
    {
        let set = self.branches_of_any(ids);
        let ghost gs = text::texts(set@);
        if set.len() == 0 {
            assert forall|name: Seq<char>| !#[trigger] any_names(*self, ids@, name) by {
                assert(!gs.contains(name));
            }
            None
        } else {
            assert(gs.contains(gs[0]));
            assert(any_names(*self, ids@, gs[0]));
            Some(text::list_texts(&set, ", "))
        }
    }
}

proof fn lemma_take_members(v: Seq<Seq<char>>, k: int, y: Seq<char>)
    requires
        0 <= k < v.len(),
    ensures
        v.take(k + 1).contains(y) <==> v.take(k).contains(y) || y == v[k],
{
    let big = v.take(k + 1);
    let small = v.take(k);
    if big.contains(y) {
        let m = choose|m: int| 0 <= m < big.len() && big[m] == y;
        if m < k {
            assert(small[m] == y);
        }
    }
    if small.contains(y) {
        let m = choose|m: int| 0 <= m < small.len() && small[m] == y;
        assert(big[m] == y);
    }
    assert(big[k] == v[k]);
}

proof fn lemma_any_step(lanes: LaneBranches, ids: Seq<CommitId>, i: int, y: Seq<char>)
    requires
        0 <= i < ids.len(),
    ensures
        any_names(lanes, ids.take(i + 1), y) <==> any_names(lanes, ids.take(i), y) || lanes.names(
            ids[i]@,
        ).contains(y),
{
    let big = ids.take(i + 1);
    let small = ids.take(i);
    if any_names(lanes, big, y) {
        let k = choose|k: int|
            0 <= k < big.len() && lanes.names((#[trigger] big[k])@).contains(y);
        if k < i {
            assert(small[k] == big[k]);
        }
    }
    if any_names(lanes, small, y) {
        let k = choose|k: int|
            0 <= k < small.len() && lanes.names((#[trigger] small[k])@).contains(y);
        assert(big[k] == small[k]);
    }
    assert(big[i] == ids[i]);
}

/// The names that a mapping gives a commit are those of its row.
proof fn lemma_names_of_row(lanes: LaneBranches, commits: Seq<CommitInfo>, id: Seq<char>)
    requires
        lanes.rows@.len() == commits.len(),
        forall|j: int| 0 <= j < commits.len() ==> (#[trigger] lanes.rows@[j]).0@ == commits[j].id@,
    ensures
        match row_of(commits, id) {
            Some(j) => 0 <= j < commits.len() && lanes.names(id) == text::texts(lanes.rows@[j].1@),
            None => lanes.names(id).len() == 0,
        },
{
    lemma_names_prefix(lanes.rows@, commits, id, commits.len() as int);
    assert(lanes.rows@.take(commits.len() as int) =~= lanes.rows@);
    assert(commits.take(commits.len() as int) =~= commits);
}

proof fn lemma_names_prefix(
    rows: Seq<(CommitId, Vec<String>)>,
    commits: Seq<CommitInfo>,
    id: Seq<char>,
    n: int,
)
    requires
        rows.len() == commits.len(),
        0 <= n <= rows.len(),
        forall|j: int| 0 <= j < commits.len() ==> (#[trigger] rows[j]).0@ == commits[j].id@,
    ensures
        match row_of(commits.take(n), id) {
            Some(j) => 0 <= j < n && names_in(rows.take(n), id) == text::texts(rows[j].1@),
            None => names_in(rows.take(n), id).len() == 0,
        },
    decreases n,
{
    if n > 0 {
        let r = rows.take(n);
        let c = commits.take(n);
        assert(r.last() == rows[n - 1]);
        assert(c.last() == commits[n - 1]);
        assert(r.drop_last() =~= rows.take(n - 1));
        assert(c.drop_last() =~= commits.take(n - 1));
        lemma_names_prefix(rows, commits, id, n - 1);
    }
}

/// A commit lies on exactly the branches whose displayed tip reaches it over
/// displayed commits; one that is not displayed lies on none.
pub proof fn law_branches_are_those_that_reach(
    lanes: LaneBranches,
    commits: Seq<CommitInfo>,
    branches: Seq<BranchTip>,
    id: Seq<char>,
    name: Seq<char>,
)
    requires
        lanes.maps(commits, branches),
    ensures
        lanes.names(id).contains(name) <==> (row_of(commits, id) matches Some(j)
            && named_branch_reaches(commits, branches, name, j)),
        order::ordered(lanes.names(id)),
{
    lemma_names_of_row(lanes, commits, id);
    if let Some(j) = row_of(commits, id) {
        assert(lanes.rows@[j].0@ == commits[j].id@);
        assert(text::texts(lanes.rows@[j].1@).contains(name) <==> named_branch_reaches(
            commits,
            branches,
            name,
            j,
        ));
    }
}

/// An ancestor of a commit, over displayed commits, lies on every branch that the
/// commit lies on; so a line through it is never across a boundary for the commit.
pub proof fn law_ancestors_share_the_branches(
    lanes: LaneBranches,
    commits: Seq<CommitInfo>,
    branches: Seq<BranchTip>,
    i: int,
    j: int,
    line: Seq<CommitId>,
    at: int,
)
    requires
        lanes.maps(commits, branches),
        0 <= i < commits.len(),
        0 <= j < commits.len(),
        row_of(commits, commits[i].id@) == Some(i),
        row_of(commits, commits[j].id@) == Some(j),
        reaches(commits, i, j),
        0 <= at < line.len(),
        line[at]@ == commits[j].id@,
    ensures
        forall|name: Seq<char>|
            lanes.names(commits[i].id@).contains(name) ==> #[trigger] lanes.names(
                commits[j].id@,
            ).contains(name),
        !crosses(lanes, commits[i].id@, line),
{
    let src = commits[i].id@;
    let dst = commits[j].id@;
    assert forall|name: Seq<char>| lanes.names(src).contains(name) implies #[trigger] lanes.names(
        dst,
    ).contains(name) by {
        law_branches_are_those_that_reach(lanes, commits, branches, src, name);
        law_branches_are_those_that_reach(lanes, commits, branches, dst, name);
        let b = choose|b: int|
            0 <= b < branches.len() && (#[trigger] branches[b]).name@ == name && branch_reaches(
                commits,
                branches[b],
                i,
            );
        let t = row_of(commits, branches[b].tip@)->0;
        let n = choose|n: nat| #[trigger] walk(commits, t, i, n);
        let m = choose|m: nat| #[trigger] walk(commits, i, j, m);
        lemma_walk_through(commits, t, i, j, n, m);
        assert(branch_reaches(commits, branches[b], j));
    }
    if lanes.names(src).len() > 0 {
        let name = lanes.names(src)[0];
        assert(lanes.names(src).contains(name));
        assert(lanes.names(line[at]@).contains(name));
        assert(any_names(lanes, line, name));
    }
}

proof fn lemma_walk_through(commits: Seq<CommitInfo>, i: int, j: int, k: int, n: nat, m: nat)
    requires
        walk(commits, i, j, n),
        walk(commits, j, k, m),
    ensures
        walk(commits, i, k, n + m),
    decreases n,
{
    if n > 0 {
        let a = choose|a: int|
            #[trigger] is_parent(commits, i, a) && walk(commits, a, j, (n - 1) as nat);
        lemma_walk_through(commits, a, j, k, (n - 1) as nat, m);
        assert(is_parent(commits, i, a) && walk(commits, a, k, (n + m - 1) as nat));
    }
}

/// Where all branches bear one name, no line is across a boundary.
pub proof fn law_one_branch_has_no_boundary(
    lanes: LaneBranches,
    commits: Seq<CommitInfo>,
    branches: Seq<BranchTip>,
    only: Seq<char>,
    source: Seq<char>,
    line: Seq<CommitId>,
)
    requires
        lanes.maps(commits, branches),
        forall|b: int| 0 <= b < branches.len() ==> (#[trigger] branches[b]).name@ == only,
    ensures
        !crosses(lanes, source, line),
{
    if crosses(lanes, source, line) {
        let a = lanes.names(source)[0];
        assert(lanes.names(source).contains(a));
        law_branches_are_those_that_reach(lanes, commits, branches, source, a);
        let b = choose|b: Seq<char>| #[trigger] any_names(lanes, line, b);
        let k = choose|k: int|
            0 <= k < line.len() && lanes.names((#[trigger] line[k])@).contains(b);
        law_branches_are_those_that_reach(lanes, commits, branches, line[k]@, b);
        assert(a == only && b == only);
    }
}

/// Whether a row names exactly the first `b` branches that reach it.
spec fn row_maps(
    row: (CommitId, Vec<String>),
    commits: Seq<CommitInfo>,
    branches: Seq<BranchTip>,
    b: int,
    j: int,
) -> bool {
    &&& order::ordered(text::texts(row.1@))
    &&& forall|name: Seq<char>| #[trigger]
        text::texts(row.1@).contains(name) <==> named_branch_reaches(
            commits,
            branches.take(b),
            name,
            j,
        )
}

proof fn lemma_branch_step(
    commits: Seq<CommitInfo>,
    branches: Seq<BranchTip>,
    b: int,
    name: Seq<char>,
    j: int,
)
    requires
        0 <= b < branches.len(),
    ensures
        named_branch_reaches(commits, branches.take(b + 1), name, j) <==> named_branch_reaches(
            commits,
            branches.take(b),
            name,
            j,
        ) || (branches[b].name@ == name && branch_reaches(commits, branches[b], j)),
{
    let big = branches.take(b + 1);
    let small = branches.take(b);
    if named_branch_reaches(commits, big, name, j) {
        let k = choose|k: int|
            0 <= k < big.len() && (#[trigger] big[k]).name@ == name && branch_reaches(
                commits,
                big[k],
                j,
            );
        if k < b {
            assert(small[k] == big[k]);
        }
    }
    if named_branch_reaches(commits, small, name, j) {
        let k = choose|k: int|
            0 <= k < small.len() && (#[trigger] small[k]).name@ == name && branch_reaches(
                commits,
                small[k],
                j,
            );
        assert(big[k] == small[k]);
    }
    if branches[b].name@ == name && branch_reaches(commits, branches[b], j) {
        assert(big[b] == branches[b]);
    }
}

/// A branch that does not reach a row leaves it as it is.
proof fn lemma_row_step(
    row: (CommitId, Vec<String>),
    commits: Seq<CommitInfo>,
    branches: Seq<BranchTip>,
    b: int,
    j: int,
)
    requires
        0 <= b < branches.len(),
        row_maps(row, commits, branches, b, j),
        !branch_reaches(commits, branches[b], j),
    ensures
        row_maps(row, commits, branches, b + 1, j),
{
    assert forall|name: Seq<char>| #[trigger]
        text::texts(row.1@).contains(name) <==> named_branch_reaches(
            commits,
            branches.take(b + 1),
            name,
            j,
        ) by {
        lemma_branch_step(commits, branches, b, name, j);
    }
}

/// Adds the name of branch `b` to the rows that it reaches.
fn add_branch(
    rows: &mut Vec<(CommitId, Vec<String>)>,
    commits: &[CommitInfo],
    branches: &[BranchTip],
    b: usize,
    hit: &Vec<bool>,
)
    requires
        b < branches@.len(),
        old(rows)@.len() == commits@.len(),
        hit@.len() == commits@.len(),
        forall|j: int|
            0 <= j < hit@.len() ==> #[trigger] hit@[j] == branch_reaches(
                commits@,
                branches@[b as int],
                j,
            ),
        forall|j: int|
            0 <= j < commits@.len() ==> (#[trigger] old(rows)@[j]).0@ == commits@[j].id@
                && row_maps(old(rows)@[j], commits@, branches@, b as int, j),
    ensures
        final(rows)@.len() == commits@.len(),
        forall|j: int|
            0 <= j < commits@.len() ==> (#[trigger] final(rows)@[j]).0@ == commits@[j].id@
                && row_maps(final(rows)@[j], commits@, branches@, b + 1, j),
{
    let n: usize = commits.len();
    let ghost r0 = rows@;
    let mut j: usize = 0;
    while j < n
        invariant
            j <= n,
            n == commits@.len(),
            b < branches@.len(),
            rows@.len() == n,
            r0.len() == n,
            hit@.len() == n,
            forall|k: int|
                0 <= k < hit@.len() ==> #[trigger] hit@[k] == branch_reaches(
                    commits@,
                    branches@[b as int],
                    k,
                ),
            forall|k: int|
                0 <= k < n ==> (#[trigger] r0[k]).0@ == commits@[k].id@ && row_maps(
                    r0[k],
                    commits@,
                    branches@,
                    b as int,
                    k,
                ),
            forall|k: int| j <= k < n ==> #[trigger] rows@[k] == r0[k],
            forall|k: int|
                0 <= k < j ==> (#[trigger] rows@[k]).0@ == commits@[k].id@ && row_maps(
                    rows@[k],
                    commits@,
                    branches@,
                    b + 1,
                    k,
                ),
        decreases n - j,
    {
        assert(rows@[j as int] == r0[j as int]);
        assert(row_maps(r0[j as int], commits@, branches@, b as int, j as int));
        let ghost g0 = text::texts(r0[j as int].1@);
        if hit[j] {
            let mut names = text::copy_texts(&rows[j].1);
            order::insert_ordered(&mut names, branches[b].name.as_str());
            let id = CommitId { hex: rows[j].0.hex.clone() };
            let ghost g1 = text::texts(names@);
            let row = (id, names);
            assert(row_maps(row, commits@, branches@, b + 1, j as int)) by {
                assert forall|name: Seq<char>| #[trigger]
                    text::texts(row.1@).contains(name) <==> named_branch_reaches(
                        commits@,
                        branches@.take(b + 1),
                        name,
                        j as int,
                    ) by {
                    lemma_branch_step(commits@, branches@, b as int, name, j as int);
                    assert(g1.contains(name) <==> g0.contains(name) || name
                        == branches@[b as int].name@);
                }
            }
            rows.set(j, row);
        } else {
            proof {
                lemma_row_step(r0[j as int], commits@, branches@, b as int, j as int);
            }
        }
        j += 1;
    }
}

/// A commit's row is the last with its id.
pub proof fn law_a_commit_stands_in_its_last_row(
    commits: Seq<CommitInfo>,
    id: Seq<char>,
    k: int,
)
    requires
        -1 <= k < commits.len(),
        k >= 0 ==> commits[k].id.hex@ == id,
        forall|j: int| k < j < commits.len() ==> (#[trigger] commits[j]).id.hex@ != id,
    ensures
        row_of(commits, id) == if k >= 0 {
            Some(k)
        } else {
            None
        },
    decreases commits.len(),
{
    if commits.len() > 0 && k < commits.len() - 1 {
        let init = commits.drop_last();
        assert(commits[commits.len() - 1].id.hex@ != id);
        assert forall|j: int| k < j < init.len() implies (#[trigger] init[j]).id.hex@ != id by {
            assert(init[j] == commits[j]);
        }
        law_a_commit_stands_in_its_last_row(init, id, k);
    }
}

/// A commit belongs to the branches whose tip it is, and to those of every commit that
/// names it as a parent.
pub proof fn law_a_parent_shares_the_branches(
    lanes: LaneBranches,
    commits: Seq<CommitInfo>,
    branches: Seq<BranchTip>,
    i: int,
    j: int,
    p: int,
    b: int,
)
    requires
        lanes.maps(commits, branches),
        forall|x: int, y: int|
            0 <= x < y < commits.len() ==> (#[trigger] commits[x]).id.hex@ != (
            #[trigger] commits[y]).id.hex@,
        0 <= i < commits.len(),
        0 <= j < commits.len(),
        0 <= p < commits[i].parents@.len(),
        commits[i].parents@[p].hex@ == commits[j].id.hex@,
        0 <= b < branches.len(),
    ensures
        forall|name: Seq<char>|
            lanes.names(commits[i].id.hex@).contains(name) ==> #[trigger] lanes.names(
                commits[j].id.hex@,
            ).contains(name),
        branches[b].tip.hex@ == commits[i].id.hex@ ==> lanes.names(
            commits[i].id.hex@,
        ).contains(branches[b].name@),
{
    assert forall|k: int| i < k < commits.len() implies (#[trigger] commits[k]).id.hex@
        != commits[i].id.hex@ by {
        assert(commits[i].id.hex@ != commits[k].id.hex@);
    }
    assert forall|k: int| j < k < commits.len() implies (#[trigger] commits[k]).id.hex@
        != commits[j].id.hex@ by {
        assert(commits[j].id.hex@ != commits[k].id.hex@);
    }
    law_a_commit_stands_in_its_last_row(commits, commits[i].id@, i);
    law_a_commit_stands_in_its_last_row(commits, commits[j].id@, j);
    assert(row_of(commits, commits[i].parents@[p]@) == Some(j));
    assert(is_parent(commits, i, j));
    assert(walk(commits, j, j, 0));
    assert(walk(commits, i, j, 1)) by {
        assert(is_parent(commits, i, j) && walk(commits, j, j, 0));
    }
    assert(reaches(commits, i, j));
    let line = seq![commits[j].id];
    law_ancestors_share_the_branches(lanes, commits, branches, i, j, line, 0);
    if branches[b].tip.hex@ == commits[i].id.hex@ {
        let name = branches[b].name@;
        assert(walk(commits, i, i, 0));
        assert(reaches(commits, i, i));
        assert(branch_reaches(commits, branches[b], i));
        assert(named_branch_reaches(commits, branches, name, i));
        law_branches_are_those_that_reach(lanes, commits, branches, commits[i].id@, name);
    }
}

/// The branches of several commits are those of each of them, in order and each once;
/// a line crosses branches where it has some, the source has some, and none is shared.
pub proof fn law_several_commits_gather_their_branches(
    lanes: &LaneBranches,
    ids: &[CommitId],
    id: &CommitId,
    all: Vec<String>,
    own: Vec<String>,
    k: int,
    i: int,
    j: int,
)
    requires
        call_ensures(LaneBranches::branches_of_any, (lanes, ids), all),
        0 <= k < ids@.len(),
        *id == ids@[k],
        call_ensures(LaneBranches::branches_of, (lanes, id), own),
    ensures
        0 <= i < own@.len() ==> text::texts(all@).contains(own@[i]@),
        ids@.len() == 1 && 0 <= j < all@.len() ==> text::texts(own@).contains(all@[j]@),
        0 <= i < j < all@.len() ==> order::text_lt(all@[i]@, all@[j]@),
{
    let a = text::texts(all@);
    let o = text::texts(own@);
    if 0 <= i < own@.len() {
        assert(o[i] == own@[i]@);
        assert(lanes.names(ids@[k]@).contains(o[i]));
        assert(any_names(*lanes, ids@, o[i]));
    }
    if 0 <= j < all@.len() {
        assert(a[j] == all@[j]@);
        assert(a.contains(a[j]));
        assert(any_names(*lanes, ids@, a[j]));
    }
    if 0 <= i < j < all@.len() {
        assert(a[i] == all@[i]@);
        assert(order::ordered(a));
    }
}

} // verus!
