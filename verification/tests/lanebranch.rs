use commedit_gtk::lanebranch::{BranchTip, LaneBranches};
use commedit_gtk::model::{CommitId, CommitInfo};

fn cid(id: u8) -> CommitId {
    CommitId {
        hex: format!("{id:02x}"),
    }
}

fn ci(id: u8, parent: u8) -> CommitInfo {
    CommitInfo {
        id: cid(id),
        change_id: format!("{id:02x}"),
        subject: String::new(),
        description: String::new(),
        author_name: String::new(),
        author_email: String::new(),
        committer_name: String::new(),
        committer_email: String::new(),
        author_time: String::new(),
        committer_time: String::new(),
        parents: vec![cid(parent)],
    }
}

fn tip(name: &str, id: u8) -> BranchTip {
    BranchTip {
        name: name.to_string(),
        tip: cid(id),
    }
}

/// Two branches forked at a shared ancestor 1: A is `3 <- 1`, B is `5 <- 4 <- 1`.
/// Display order newest-first `[5, 4, 3, 1]`.
fn two_branch_dag() -> Vec<CommitInfo> {
    vec![ci(5, 4), ci(4, 1), ci(3, 1), ci(1, 0)]
}

#[test]
fn each_commit_maps_to_the_branches_reaching_it() {
    let h = two_branch_dag();
    let lb = LaneBranches::compute(&h, &[tip("a", 3), tip("b", 5)]);
    // A's tip and B's chain are each on their own branch…
    assert_eq!(lb.branches_of(&cid(3)), ["a"]);
    assert_eq!(lb.branches_of(&cid(4)), ["b"]);
    assert_eq!(lb.branches_of(&cid(5)), ["b"]);
    // …and the fork point 1 is shared by both.
    assert_eq!(lb.branches_of(&cid(1)), ["a", "b"]);
}

#[test]
fn distinct_branch_tips_are_cross_branch() {
    let h = two_branch_dag();
    let lb = LaneBranches::compute(&h, &[tip("a", 3), tip("b", 5)]);
    // A's tip vs B's commits: different branches.
    assert!(lb.line_is_cross_branch(&cid(3), &[cid(5)]));
    assert!(lb.line_is_cross_branch(&cid(3), &[cid(4)]));
    // B's own commits are not cross-branch with each other.
    assert!(!lb.line_is_cross_branch(&cid(5), &[cid(4)]));
}

#[test]
fn a_shared_ancestor_is_not_cross_branch() {
    let h = two_branch_dag();
    let lb = LaneBranches::compute(&h, &[tip("a", 3), tip("b", 5)]);
    assert!(!lb.line_is_cross_branch(&cid(3), &[cid(1)]));
    assert!(!lb.line_is_cross_branch(&cid(5), &[cid(1)]));
}

#[test]
fn a_singleton_set_never_crosses_a_boundary() {
    let h = two_branch_dag();
    let lb = LaneBranches::compute(&h, &[tip("a", 3)]);
    assert!(!lb.line_is_cross_branch(&cid(3), &[cid(1)]));
    // 5/4 are off the (single) editable branch.
    assert!(!lb.line_is_cross_branch(&cid(3), &[cid(5)]));
    assert!(lb.branches_of(&cid(5)).is_empty());
}

#[test]
fn a_destination_line_takes_its_commits_branches() {
    let h = two_branch_dag();
    let lb = LaneBranches::compute(&h, &[tip("a", 3), tip("b", 5)]);
    // A line re-parenting B's commit 5 is on branch B; A's tip crosses onto it.
    assert!(lb.line_is_cross_branch(&cid(3), &[cid(5)]));
    assert_eq!(lb.label_for(&[cid(5)]).as_deref(), Some("b"));
    // A line on the shared fork point is labelled with both branches and is
    // not a boundary crossing for either tip.
    assert!(!lb.line_is_cross_branch(&cid(3), &[cid(1)]));
    assert_eq!(lb.label_for(&[cid(1)]).as_deref(), Some("a, b"));
    // An off-branch line (no editable branch reaches it) is unlabelled.
    assert_eq!(lb.label_for(&[cid(9)]), None);
    assert!(!lb.line_is_cross_branch(&cid(3), &[cid(9)]));
}

#[test]
fn names_come_in_order_and_once() {
    let h = two_branch_dag();
    let lb = LaneBranches::compute(&h, &[tip("zeta", 5), tip("alpha", 4), tip("zeta", 3)]);
    assert_eq!(lb.branches_of(&cid(1)), ["alpha", "zeta"]);
    assert_eq!(lb.branches_of_any(&[cid(3), cid(4)]), ["alpha", "zeta"]);
    assert_eq!(lb.label_for(&[cid(3), cid(4)]).as_deref(), Some("alpha, zeta"));
    assert_eq!(lb.label_for(&[]), None);
}

#[test]
fn a_tip_that_is_not_displayed_reaches_nothing() {
    let h = two_branch_dag();
    let lb = LaneBranches::compute(&h, &[tip("gone", 9)]);
    assert!(lb.branches_of(&cid(1)).is_empty());
    assert!(lb.branches_of(&cid(9)).is_empty());
}

#[test]
fn a_cycle_of_parents_ends() {
    let h = vec![ci(1, 2), ci(2, 1)];
    let lb = LaneBranches::compute(&h, &[tip("loop", 1)]);
    assert_eq!(lb.branches_of(&cid(2)), ["loop"]);
}
