//! The trash: the commits dropped in a session, from which they can be restored.
//!
//! A rewrite that conflicts is held back until the conflicts are resolved, and so is
//! the change that it makes to the trash: it happens on a clean resolution and never
//! happens if the rewrite is aborted.
use crate::indices;
use crate::lanebranch::LaneBranches;
use crate::model::{CommitId, CommitInfo};
use crate::text;
use vstd::prelude::*;

verus! {

/// A dropped commit and the branch it was dropped from, if one reached it.
#[derive(Clone, Debug, PartialEq, Eq)]
pub struct Dropped {
    pub info: CommitInfo,
    pub origin: Option<String>,
}

/// A change to the trash that waits for a conflict to be resolved.
#[derive(Clone, Debug, PartialEq, Eq)]
pub enum PendingTrashOp {
    /// The commits are to join the trash.
    Drop(Vec<Dropped>),
    /// The commit with this change id is to leave it.
    Restore(String),
}

/// The dropped commits, oldest drop first.
#[derive(Clone, Debug, PartialEq, Eq)]
pub struct Trash {
    pub commits: Vec<CommitInfo>,
    /// The branch that each change was dropped from; the last entry counts.
    pub origins: Vec<(String, String)>,
    pub pending: Option<PendingTrashOp>,
}

/// The commits without those of a change.
pub open spec fn without(v: Seq<CommitInfo>, change: Seq<char>) -> Seq<CommitInfo>
    decreases v.len(),
{
    if v.len() == 0 {
        v
    } else {
        let init = without(v.drop_last(), change);
        if v.last().change_id@ == change {
            init
        } else {
            init.push(v.last())
        }
    }
}

/// The branch that a change was dropped from.
pub open spec fn origin_in(v: Seq<(String, String)>, change: Seq<char>) -> Option<Seq<char>>
    decreases v.len(),
{
    if v.len() == 0 {
        None
    } else if v.last().0@ == change {
        Some(v.last().1@)
    } else {
        origin_in(v.drop_last(), change)
    }
}

/// The commits of a list of drops.
pub open spec fn infos(v: Seq<Dropped>) -> Seq<CommitInfo> {
    v.map_values(|d: Dropped| d.info)
}

/// The branch of a change once the drops have been noted on top of what was known.
pub open spec fn origin_after(
    known: Option<Seq<char>>,
    drops: Seq<Dropped>,
    change: Seq<char>,
) -> Option<Seq<char>>
    decreases drops.len(),
{
    if drops.len() == 0 {
        known
    } else if drops.last().info.change_id@ == change && drops.last().origin is Some {
        text::opt_text(drops.last().origin)
    } else {
        origin_after(known, drops.drop_last(), change)
    }
}

impl Trash {
    /// The branch that a change was dropped from.
    pub open spec fn origin(&self, change: Seq<char>) -> Option<Seq<char>> {
        origin_in(self.origins@, change)
    }

    /// The commits once the change that is held back has been made.
    pub open spec fn settled(&self) -> Seq<CommitInfo> {
        match self.pending {
            None => self.commits@,
            Some(PendingTrashOp::Drop(drops)) => self.commits@ + infos(drops@),
            Some(PendingTrashOp::Restore(change)) => without(self.commits@, change@),
        }
    }

    /// The branch of a change once the change that is held back has been made.
    pub open spec fn settled_origin(&self, change: Seq<char>) -> Option<Seq<char>> {
        match self.pending {
            Some(PendingTrashOp::Drop(drops)) => origin_after(self.origin(change), drops@, change),
            _ => self.origin(change),
        }
    }

    /// An empty trash.
    pub fn new() -> (r: Self)
        ensures
            r.commits@.len() == 0,
            r.origins@.len() == 0,
            r.pending is None,
    {
        Trash { commits: Vec::new(), origins: Vec::new(), pending: None }
    }

    /// The commit at a row of the trash.
    pub fn get(&self, i: usize) -> (r: Option<&CommitInfo>)
        ensures
            match r {
                Some(c) => i < self.commits@.len() && *c == self.commits@[i as int],
                None => i >= self.commits@.len(),
            },
    {
        if i < self.commits.len() {
            Some(&self.commits[i])
        } else {
            None
        }
    }

    /// The branch that a change was dropped from, to which a restore goes back.
    pub fn origin_of(&self, change: &str) -> (r: Option<String>)
        ensures
            text::opt_text(r) == self.origin(change@),
    {
        let mut n: usize = self.origins.len();
        assert(self.origins@.take(n as int) =~= self.origins@);
        while n > 0
            invariant
                n <= self.origins@.len(),
                self.origin(change@) == origin_in(self.origins@.take(n as int), change@),
            decreases n,
        {
            assert(self.origins@.take(n as int).last() == self.origins@[n - 1]);
            assert(self.origins@.take(n as int).drop_last() =~= self.origins@.take(n - 1));
            if text::same_text(self.origins[n - 1].0.as_str(), change) {
                return Some(self.origins[n - 1].1.clone());
            }
            n -= 1;
        }
        None
    }

    /// Adds dropped commits, in their order, and notes where they came from.
    pub fn add(&mut self, drops: Vec<Dropped>)
        ensures
            final(self).commits@ == old(self).commits@ + infos(drops@),
            forall|change: Seq<char>| #[trigger]
                final(self).origin(change) == origin_after(
                    old(self).origin(change),
                    drops@,
                    change,
                ),
            final(self).pending == old(self).pending,
    {
        let ghost gd = drops@;
        let ghost c0 = self.commits@;
        let ghost o0 = self.origins@;
        let mut drops = drops;
        let mut done: usize = 0;
        let n: usize = drops.len();
        assert(gd.skip(0) =~= gd);
        assert(c0 + infos(gd.take(0)) =~= c0);
        while done < n
            invariant
                done <= n,
                n == gd.len(),
                drops@ == gd.skip(done as int),
                self.commits@ == c0 + infos(gd.take(done as int)),
                forall|change: Seq<char>| #[trigger]
                    origin_in(self.origins@, change) == origin_after(
                        origin_in(o0, change),
                        gd.take(done as int),
                        change,
                    ),
                self.pending == old(self).pending,
            decreases n - done,
        {
            let d = drops.remove(0);
            assert(d == gd[done as int]);
            assert(drops@ =~= gd.skip(done + 1));
            let ghost taken = gd.take(done + 1);
            assert(taken.drop_last() =~= gd.take(done as int));
            assert(taken.last() == d);
            let ghost o1 = self.origins@;
            if let Some(o) = &d.origin {
                self.origins.push((d.info.change_id.clone(), o.clone()));
                assert(self.origins@.drop_last() =~= o1);
            }
            assert forall|change: Seq<char>| #[trigger]
                origin_in(self.origins@, change) == origin_after(
                    origin_in(o0, change),
                    taken,
                    change,
                ) by {
                assert(origin_in(o1, change) == origin_after(
                    origin_in(o0, change),
                    gd.take(done as int),
                    change,
                ));
            }
            let Dropped { info, origin: _ } = d;
            self.commits.push(info);
            assert(self.commits@ =~= c0 + infos(taken));
            done += 1;
        }
        assert(gd.take(done as int) =~= gd);
    }

    /// Removes the commits of a change.
    pub fn forget(&mut self, change: &str)
        ensures
            final(self).commits@ == without(old(self).commits@, change@),
            final(self).origins == old(self).origins,
            final(self).pending == old(self).pending,
    {
        let ghost c0 = self.commits@;
        let mut i: usize = 0;
        let ghost mut seen: int = 0;
        assert(without(c0.take(0), change@) =~= Seq::<CommitInfo>::empty());
        assert(self.commits@.take(0) =~= Seq::<CommitInfo>::empty());
        assert(c0.skip(0) =~= c0);
        assert(self.commits@.skip(0) =~= c0);
        while i < self.commits.len()
            invariant
                0 <= seen <= c0.len(),
                i <= self.commits@.len(),
                self.commits@.take(i as int) == without(c0.take(seen), change@),
                self.commits@.skip(i as int) == c0.skip(seen),
                self.origins == old(self).origins,
                self.pending == old(self).pending,
            decreases self.commits@.len() - i,
        {
            let ghost v = self.commits@;
            assert(v.skip(i as int)[0] == v[i as int]);
            assert(c0.skip(seen).len() > 0);
            assert(seen < c0.len());
            assert(c0.skip(seen)[0] == c0[seen]);
            let ghost t = c0.take(seen + 1);
            assert(t.drop_last() =~= c0.take(seen));
            assert(t.last() == c0[seen]);
            assert(v.skip(i as int).skip(1) =~= v.skip(i + 1));
            assert(c0.skip(seen).skip(1) =~= c0.skip(seen + 1));
            if text::same_text(self.commits[i].change_id.as_str(), change) {
                let _ = self.commits.remove(i);
                assert(self.commits@.take(i as int) =~= v.take(i as int));
                assert(self.commits@.skip(i as int) =~= v.skip(i + 1));
            } else {
                assert(v.take(i + 1) =~= v.take(i as int).push(v[i as int]));
                i += 1;
            }
            proof {
                seen = seen + 1;
            }
        }
        assert(self.commits@.skip(i as int).len() == 0);
        assert(c0.take(seen) =~= c0);
        assert(self.commits@.take(i as int) =~= self.commits@);
    }

    /// Removes a change and where it came from, once its content is back in a
    /// working tree.
    pub fn forget_restored(&mut self, change: &str)
        ensures
            final(self).commits@ == without(old(self).commits@, change@),
            final(self).origin(change@) is None,
            forall|other: Seq<char>|
                other != change@ ==> #[trigger] final(self).origin(other) == old(self).origin(
                    other,
                ),
            final(self).pending == old(self).pending,
    {
        self.forget(change);
        let ghost o0 = self.origins@;
        let ghost c1 = self.commits@;
        let mut kept: Vec<(String, String)> = Vec::new();
        let mut i: usize = 0;
        while i < self.origins.len()
            invariant
                i <= self.origins@.len(),
                self.origins@ == o0,
                self.commits@ == c1,
                self.pending == old(self).pending,
                origin_in(kept@, change@) is None,
                forall|other: Seq<char>|
                    other != change@ ==> #[trigger] origin_in(kept@, other) == origin_in(
                        o0.take(i as int),
                        other,
                    ),
            decreases self.origins.len() - i,
        {
            let ghost k0 = kept@;
            assert(o0.take(i + 1).drop_last() =~= o0.take(i as int));
            assert(o0.take(i + 1).last() == o0[i as int]);
            if !text::same_text(self.origins[i].0.as_str(), change) {
                kept.push((self.origins[i].0.clone(), self.origins[i].1.clone()));
                assert(kept@.drop_last() =~= k0);
            }
            assert forall|other: Seq<char>| other != change@ implies #[trigger] origin_in(
                kept@,
                other,
            ) == origin_in(o0.take(i + 1), other) by {
                assert(origin_in(k0, other) == origin_in(o0.take(i as int), other));
            }
            i += 1;
        }
        assert(o0.take(i as int) =~= o0);
        self.origins = kept;
    }

    /// Holds back a drop until its conflicts are resolved.
    pub fn hold_drop(&mut self, drops: Vec<Dropped>)
        ensures
            *final(self) == holding(*old(self), Some(PendingTrashOp::Drop(drops))),
    {
        self.pending = Some(PendingTrashOp::Drop(drops));
    }

    /// Holds back a restore until its conflicts are resolved.
    pub fn hold_restore(&mut self, change: String)
        ensures
            *final(self) == holding(*old(self), Some(PendingTrashOp::Restore(change))),
    {
        self.pending = Some(PendingTrashOp::Restore(change));
    }

    /// Makes the change that was held back, now that the conflicts are resolved.
    pub fn settle(&mut self)
        ensures
            final(self).pending is None,
            final(self).commits@ == old(self).settled(),
            forall|change: Seq<char>| #[trigger]
                final(self).origin(change) == old(self).settled_origin(change),
    {
        let pending = self.pending.take();
        match pending {
            Some(PendingTrashOp::Drop(drops)) => {
                self.add(drops);
            },
            Some(PendingTrashOp::Restore(change)) => {
                self.forget(change.as_str());
            },
            None => {},
        }
    }

    /// Gives up the change that was held back, as the rewrite was aborted.
    pub fn abort(&mut self)
        ensures
            *final(self) == holding(*old(self), None),
    {
        self.pending = None;
    }

    /// Empties the trash: the session went back in time, or was opened anew.
    pub fn reset(&mut self)
        ensures
            final(self).pending is None,
            final(self).commits@.len() == 0,
            final(self).origins == old(self).origins,
    {
        self.pending = None;
        self.commits = Vec::new();
    }
}

/// A change that was forgotten is no longer in the trash, and no other has left it.
pub proof fn law_forgotten_is_gone(v: Seq<CommitInfo>, change: Seq<char>, c: CommitInfo)
    ensures
        without(v, change).contains(c) <==> v.contains(c) && c.change_id@ != change,
    decreases v.len(),
{
    if v.len() > 0 {
        let init = v.drop_last();
        let kept = without(init, change);
        law_forgotten_is_gone(init, change, c);
        if v.contains(c) {
            let i = choose|i: int| 0 <= i < v.len() && v[i] == c;
            if i < v.len() - 1 {
                assert(init[i] == c);
            }
        }
        if init.contains(c) {
            let i = choose|i: int| 0 <= i < init.len() && init[i] == c;
            assert(v[i] == c);
        }
        assert(v[v.len() - 1] == v.last());
        let w = without(v, change);
        if w != kept {
            assert(w[w.len() - 1] == v.last());
            if kept.contains(c) {
                let i = choose|i: int| 0 <= i < kept.len() && kept[i] == c;
                assert(w[i] == c);
            }
            if w.contains(c) {
                let i = choose|i: int| 0 <= i < w.len() && w[i] == c;
                if i < kept.len() {
                    assert(kept[i] == c);
                }
            }
        }
    }
}

/// A commit that is dropped and then restored leaves the trash as it was before.
pub proof fn law_restore_undoes_drop(v: Seq<CommitInfo>, info: CommitInfo)
    requires
        forall|i: int| 0 <= i < v.len() ==> (#[trigger] v[i]).change_id@ != info.change_id@,
    ensures
        without(v.push(info), info.change_id@) == v,
{
    assert(v.push(info).drop_last() =~= v);
    lemma_nothing_to_forget(v, info.change_id@);
}

proof fn lemma_nothing_to_forget(v: Seq<CommitInfo>, change: Seq<char>)
    requires
        forall|i: int| 0 <= i < v.len() ==> (#[trigger] v[i]).change_id@ != change,
    ensures
        without(v, change) == v,
    decreases v.len(),
{
    if v.len() > 0 {
        assert(v[v.len() - 1].change_id@ != change);
        assert forall|i: int| 0 <= i < v.drop_last().len() implies (
        #[trigger] v.drop_last()[i]).change_id@ != change by {
            assert(v.drop_last()[i] == v[i]);
        }
        lemma_nothing_to_forget(v.drop_last(), change);
        assert(v.drop_last().push(v.last()) =~= v);
    }
}

/// The trash with another change held back.
pub open spec fn holding(t: Trash, pending: Option<PendingTrashOp>) -> Trash {
    Trash { commits: t.commits, origins: t.origins, pending }
}

/// What is held back happens on settling and not before: held and settled, a drop
/// leaves the trash as the drop itself would, and a restore as the restore; held and
/// given up, either leaves it as it was.
pub proof fn law_held_back_until_settled(
    t: Trash,
    drops: Vec<Dropped>,
    change: String,
    other: Seq<char>,
)
    ensures
        holding(t, Some(PendingTrashOp::Drop(drops))).settled() == t.commits@ + infos(drops@),
        holding(t, Some(PendingTrashOp::Drop(drops))).settled_origin(other) == origin_after(
            t.origin(other),
            drops@,
            other,
        ),
        holding(t, Some(PendingTrashOp::Restore(change))).settled() == without(
            t.commits@,
            change@,
        ),
        holding(t, Some(PendingTrashOp::Drop(drops))).commits@ == t.commits@,
        holding(t, Some(PendingTrashOp::Restore(change))).commits@ == t.commits@,
        holding(t, None).settled() == t.commits@,
        holding(t, None).settled_origin(other) == t.origin(other),
{
}

/// The branch to note for a dropped commit: the primary one if it reaches the
/// commit, else the first that does.
pub open spec fn origin_branch(
    lanes: LaneBranches,
    primary: Option<Seq<char>>,
    id: Seq<char>,
) -> Option<Seq<char>> {
    let set = lanes.names(id);
    if set.len() == 0 {
        None
    } else {
        match primary {
            Some(p) => if set.contains(p) {
                Some(p)
            } else {
                Some(set[0])
            },
            None => Some(set[0]),
        }
    }
}

/// The branch to note for a dropped commit, so that a restore goes back to it;
/// `None` where no branch reaches it.
pub fn trash_origin(lanes: &LaneBranches, primary: Option<&str>, id: &CommitId) -> (r: Option<
    String,
>)
    ensures
        text::opt_text(r) == origin_branch(
            *lanes,
            match primary {
                Some(p) => Some(p@),
                None => None,
            },
            id@,
        ),
{
    let set = lanes.branches_of(id);
    let ghost gs = text::texts(set@);
    if set.len() == 0 {
        assert(gs.len() == 0);
        return None;
    }
    assert(gs[0] == set@[0]@);
    if let Some(p) = primary {
        if text::contains_text(set.as_slice(), p) {
            return Some(p.to_string());
        }
    }
    Some(set[0].clone())
}

/// What stays in the trash when a commit is taken out, in the order it had; `at` lists
/// the others.
pub proof fn law_the_others_keep_their_order(v: Seq<CommitInfo>, change: Seq<char>, at: Seq<int>)
    requires
        indices::lists(at, 0, v.len() as int, |i: int| v[i].change_id@ != change),
    ensures
        without(v, change) == at.map_values(|i: int| v[i]),
{
    lemma_without_listed(v, change, v.len() as int, at);
    assert(v.take(v.len() as int) =~= v);
}

proof fn lemma_without_listed(v: Seq<CommitInfo>, change: Seq<char>, n: int, at: Seq<int>)
    requires
        0 <= n <= v.len(),
        indices::lists(at, 0, n, |i: int| v[i].change_id@ != change),
    ensures
        without(v.take(n), change) == at.map_values(|i: int| v[i]),
    decreases n,
{
    let p = |i: int| v[i].change_id@ != change;
    indices::lemma_lists_step(at, 0, n, p);
    if n > 0 {
        assert(v.take(n).drop_last() =~= v.take(n - 1));
        assert(v.take(n).last() == v[n - 1]);
        if p(n - 1) {
            lemma_without_listed(v, change, n - 1, at.drop_last());
            assert(at.map_values(|i: int| v[i]) =~= at.drop_last().map_values(|i: int| v[i]).push(
                v[n - 1],
            ));
        } else {
            lemma_without_listed(v, change, n - 1, at);
        }
    } else {
        assert(v.take(0) =~= at.map_values(|i: int| v[i]));
    }
}

/// A dropped commit remembers the branch that it was last dropped from: a drop without
/// a branch, and the drop of another change, leave that alone. `k` is the last drop
/// that tells, or -1.
pub proof fn law_the_last_origin_counts(
    known: Option<Seq<char>>,
    drops: Seq<Dropped>,
    change: Seq<char>,
    k: int,
)
    requires
        -1 <= k < drops.len(),
        forall|j: int|
            k < j < drops.len() ==> (#[trigger] drops[j]).info.change_id@ != change
                || drops[j].origin is None,
        k >= 0 ==> drops[k].info.change_id@ == change && drops[k].origin is Some,
    ensures
        origin_after(known, drops, change) == if k >= 0 {
            text::opt_text(drops[k].origin)
        } else {
            known
        },
    decreases drops.len(),
{
    if drops.len() > 0 && k < drops.len() - 1 {
        let init = drops.drop_last();
        assert(drops[drops.len() - 1].info.change_id@ != change || drops[drops.len() - 1].origin
            is None);
        assert forall|j: int| k < j < init.len() implies (#[trigger] init[j]).info.change_id@
            != change || init[j].origin is None by {
            assert(init[j] == drops[j]);
        }
        law_the_last_origin_counts(known, init, change, k);
    }
}

/// The branch of a change is the one recorded last for it.
pub proof fn law_the_last_record_counts(v: Seq<(String, String)>, change: Seq<char>, k: int)
    requires
        -1 <= k < v.len(),
        forall|j: int| k < j < v.len() ==> (#[trigger] v[j]).0@ != change,
        k >= 0 ==> v[k].0@ == change,
    ensures
        origin_in(v, change) == if k >= 0 {
            Some(v[k].1@)
        } else {
            None
        },
    decreases v.len(),
{
    if v.len() > 0 && k < v.len() - 1 {
        let init = v.drop_last();
        assert(v[v.len() - 1].0@ != change);
        assert forall|j: int| k < j < init.len() implies (#[trigger] init[j]).0@ != change by {
            assert(init[j] == v[j]);
        }
        law_the_last_record_counts(init, change, k);
    }
}

/// A commit is dropped from a branch that holds it: the main one if that does, and
/// else the first by name; a commit on no branch is dropped from none.
pub proof fn law_a_drop_comes_from_a_branch_of_its_own(
    lanes: &LaneBranches,
    primary: Option<&str>,
    id: &CommitId,
    r: Option<String>,
)
    requires
        call_ensures(trash_origin, (lanes, primary, id), r),
    ensures
        r is None <==> lanes.names(id.hex@).len() == 0,
        r matches Some(b) ==> lanes.names(id.hex@).contains(b@),
        primary is Some && lanes.names(id.hex@).contains(primary->0@) ==> (r matches Some(b) && b@
            == primary->0@),
        r matches Some(b) ==> (primary is Some && primary->0@ == b@) || b@ == lanes.names(
            id.hex@,
        )[0],
{
    let set = lanes.names(id@);
    if set.len() > 0 {
        assert(set.contains(set[0]));
    }
}

} // verus!
