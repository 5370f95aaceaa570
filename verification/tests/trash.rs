use commedit_gtk::lanebranch::{BranchTip, LaneBranches};
use commedit_gtk::model::{CommitId, CommitInfo};
use commedit_gtk::trash::{trash_origin, Dropped, PendingTrashOp, Trash};

fn id(hex: &str) -> CommitId {
    CommitId {
        hex: hex.to_string(),
    }
}

fn commit(hex: &str, change: &str) -> CommitInfo {
    CommitInfo {
        id: id(hex),
        change_id: change.to_string(),
        subject: format!("subject of {change}"),
        description: String::new(),
        author_name: String::new(),
        author_email: String::new(),
        committer_name: String::new(),
        committer_email: String::new(),
        author_time: String::new(),
        committer_time: String::new(),
        parents: vec![],
    }
}

fn dropped(change: &str, origin: Option<&str>) -> Dropped {
    Dropped {
        info: commit(&format!("id-{change}"), change),
        origin: origin.map(str::to_string),
    }
}

fn changes(t: &Trash) -> Vec<&str> {
    t.commits.iter().map(|c| c.change_id.as_str()).collect()
}

#[test]
fn drops_are_kept_with_their_branch() {
    let mut t = Trash::new();
    assert!(t.get(0).is_none());
    t.add(vec![dropped("x", Some("main")), dropped("y", None)]);
    t.add(vec![dropped("z", Some("topic"))]);
    assert_eq!(changes(&t), ["x", "y", "z"]);
    assert_eq!(t.get(1).unwrap().change_id, "y");
    assert!(t.get(3).is_none());
    assert_eq!(t.origin_of("x").as_deref(), Some("main"));
    assert_eq!(t.origin_of("y"), None);
    assert_eq!(t.origin_of("z").as_deref(), Some("topic"));
}

#[test]
fn a_restore_undoes_a_drop() {
    let mut t = Trash::new();
    t.add(vec![dropped("x", Some("main"))]);
    let before = t.commits.clone();
    t.add(vec![dropped("y", Some("topic"))]);
    t.forget_restored("y");
    assert_eq!(t.commits, before);
    assert_eq!(t.origin_of("y"), None);
    assert_eq!(t.origin_of("x").as_deref(), Some("main"));
}

#[test]
fn a_forgotten_commit_is_gone() {
    let mut t = Trash::new();
    t.add(vec![dropped("x", None), dropped("y", None), dropped("x", None)]);
    t.forget("x");
    assert_eq!(changes(&t), ["y"]);
    t.forget("absent");
    assert_eq!(changes(&t), ["y"]);
}

#[test]
fn a_held_drop_waits_for_the_conflicts() {
    let mut t = Trash::new();
    t.hold_drop(vec![dropped("x", Some("main"))]);
    assert!(t.commits.is_empty());
    assert!(matches!(t.pending, Some(PendingTrashOp::Drop(_))));
    t.settle();
    assert_eq!(changes(&t), ["x"]);
    assert_eq!(t.pending, None);

    t.hold_restore("x".to_string());
    assert_eq!(changes(&t), ["x"]);
    t.settle();
    assert!(t.commits.is_empty());
    assert_eq!(t.pending, None);
}

#[test]
fn an_aborted_rewrite_leaves_the_trash_alone() {
    let mut t = Trash::new();
    t.add(vec![dropped("x", None)]);
    t.hold_drop(vec![dropped("y", None)]);
    t.abort();
    t.settle();
    assert_eq!(changes(&t), ["x"]);
    t.hold_restore("x".to_string());
    t.abort();
    t.settle();
    assert_eq!(changes(&t), ["x"]);
    t.reset();
    assert_eq!(t, Trash::new());
}

#[test]
fn the_origin_is_the_primary_branch_where_it_reaches() {
    let mut tip = commit("b", "b");
    tip.parents = vec![id("a")];
    let history = [tip, commit("a", "a")];
    let tips = [
        BranchTip {
            name: "dev".to_string(),
            tip: id("a"),
        },
        BranchTip {
            name: "main".to_string(),
            tip: id("b"),
        },
    ];
    let lanes = LaneBranches::compute(&history, &tips);
    assert_eq!(trash_origin(&lanes, Some("main"), &id("a")).as_deref(), Some("main"));
    assert_eq!(trash_origin(&lanes, None, &id("a")).as_deref(), Some("dev"));
    assert_eq!(trash_origin(&lanes, Some("dev"), &id("b")).as_deref(), Some("main"));
    assert_eq!(trash_origin(&lanes, Some("main"), &id("c")), None);
}
