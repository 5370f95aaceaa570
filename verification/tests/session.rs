use commedit_gtk::model::{BoundaryEdge, CommitId, CommitInfo, LocalBranch, SessionOp};
use commedit_gtk::msglint::RepoStyle;
use commedit_gtk::rows::lint_badge;
use commedit_gtk::session::{
    current_markup, entry_bullet, entry_mark, history_entries, history_heads, new_children,
    next_limit, next_match, reload_file, restore_to, restored_caret, start_subtitle, step_file,
    tab_stops, tidied_message, title, toggle_branch, travelled_text, RestoreTo,
};

fn id(hex: &str) -> CommitId {
    CommitId {
        hex: hex.to_string(),
    }
}

fn branch(name: &str, head: &str) -> LocalBranch {
    LocalBranch {
        name: name.to_string(),
        head: id(head),
    }
}

fn names(v: &[&str]) -> Vec<String> {
    v.iter().map(|s| s.to_string()).collect()
}

#[test]
fn the_history_starts_at_the_ticked_branches() {
    let branches = [branch("main", "m"), branch("dev", "d"), branch("same", "m")];
    let heads = |editable: &[&str]| history_heads(&id("m"), &names(editable), &branches);
    assert_eq!(heads(&["main"]), [id("m")]);
    assert_eq!(heads(&[]), [id("m")]);
    assert_eq!(heads(&["main", "dev"]), [id("m"), id("d")]);
    assert_eq!(heads(&["main", "same", "lost", "dev"]), [id("m"), id("d")]);
}

#[test]
fn unticking_undoes_ticking() {
    let start = names(&["main", "dev"]);
    let ticked = toggle_branch(&start, "topic", true);
    assert_eq!(ticked, ["main", "dev", "topic"]);
    assert_eq!(toggle_branch(&ticked, "topic", false), start);
    assert_eq!(toggle_branch(&start, "dev", true), start);
    assert_eq!(toggle_branch(&start, "main", false), ["dev"]);
}

#[test]
fn the_list_grows_by_pages() {
    assert_eq!(next_limit(64, true, true, false), Some(128));
    assert_eq!(next_limit(64, false, true, false), None);
    assert_eq!(next_limit(64, true, false, false), None);
    assert_eq!(next_limit(64, true, true, true), None);
}

#[test]
fn the_title_names_folder_and_branch() {
    assert_eq!(title("proj", Some("main"), false), "Commit editor - proj [main]");
    assert_eq!(title("proj", None, false), "Commit editor - proj [?]");
    assert_eq!(title("proj", Some("main"), true), "Commit editor - proj");
}

#[test]
fn one_state_is_the_present() {
    let ops = [
        SessionOp {
            label: "Reorder".to_string(),
            affected: names(&["x"]),
        },
        SessionOp {
            label: "Squash".to_string(),
            affected: names(&["y", "z"]),
        },
    ];
    let entries = history_entries(&ops);
    let seen: Vec<(usize, &str)> = entries.iter().map(|e| (e.target, e.label.as_str())).collect();
    assert_eq!(seen, [(2, "Squash"), (1, "Reorder"), (0, "Session start")]);
    assert_eq!(entries[0].affected, ["y", "z"]);
    assert!(entries[2].affected.is_empty());
    for cursor in 0..=2 {
        let marks: Vec<_> = entries.iter().map(|e| entry_mark(e.target, cursor)).collect();
        assert_eq!(marks.iter().filter(|m| m.current).count(), 1);
        assert_eq!(marks.iter().filter(|m| m.future).count(), 2 - cursor);
    }
    assert_eq!(entry_bullet(true), "●");
    assert_eq!(entry_bullet(false), " ");
    assert_eq!(current_markup("a < b & c"), "<b>a &lt; b &amp; c</b>");
    assert_eq!(start_subtitle("0123456789abcdef"), "0123456789ab");
    assert_eq!(start_subtitle("0123"), "0123");
    assert_eq!(travelled_text("Squash"), "Travelled to: Squash");
}

#[test]
fn matches_are_walked_in_a_circle() {
    assert_eq!(next_match(None, 3), Some(0));
    assert_eq!(next_match(Some(0), 3), Some(1));
    assert_eq!(next_match(Some(2), 3), Some(0));
    assert_eq!(next_match(Some(2), 0), None);
    assert_eq!(next_match(Some(usize::MAX), 1), Some(0));
}

#[test]
fn files_are_stepped_within_the_list() {
    assert_eq!(step_file(Some(1), 3, true, false), Some(2));
    assert_eq!(step_file(Some(2), 3, true, false), Some(2));
    assert_eq!(step_file(Some(1), 3, false, true), Some(0));
    assert_eq!(step_file(Some(0), 3, false, true), Some(0));
    assert_eq!(step_file(Some(0), 0, true, false), None);
    assert_eq!(step_file(None, 3, true, false), None);
    assert_eq!(reload_file(Some(2), 5, true), 2);
    assert_eq!(reload_file(Some(9), 5, true), 4);
    assert_eq!(reload_file(Some(2), 5, false), 0);
    assert_eq!(reload_file(Some(2), 0, true), 0);
    assert_eq!(reload_file(None, 5, true), 0);
}

#[test]
fn tabs_stop_behind_the_marker() {
    assert_eq!(tab_stops(8, 4), Some((40, 72)));
    assert_eq!(tab_stops(0, 4), None);
    assert_eq!(tab_stops(-3, 4), None);
}

#[test]
fn a_revert_goes_below_the_children_on_its_line() {
    let edge = |parent: &str, children: &[&str]| BoundaryEdge {
        parent: id(parent),
        children: children.iter().map(|c| id(c)).collect(),
    };
    let boundaries = vec![
        vec![edge("b", &["c"])],
        vec![edge("x", &["y"]), edge("a", &["b", "d"])],
    ];
    assert_eq!(new_children(&boundaries, 1, &id("b")), [id("c")]);
    assert_eq!(new_children(&boundaries, 2, &id("a")), [id("b"), id("d")]);
    assert!(new_children(&boundaries, 0, &id("c")).is_empty());
    assert!(new_children(&boundaries, 1, &id("zz")).is_empty());
    assert!(new_children(&boundaries, 3, &id("a")).is_empty());
}

fn commit(description: &str) -> CommitInfo {
    CommitInfo {
        id: id("ab"),
        change_id: "kk".to_string(),
        subject: description.lines().next().unwrap_or("").to_string(),
        description: description.to_string(),
        author_name: String::new(),
        author_email: String::new(),
        committer_name: String::new(),
        committer_email: String::new(),
        author_time: String::new(),
        committer_time: String::new(),
        parents: vec![],
    }
}

#[test]
fn a_tidied_message_keeps_its_body() {
    let mut commits: Vec<CommitInfo> = (0..30)
        .map(|i| commit(&format!("Add part {i}\n")))
        .collect();
    commits.push(commit("fix the rest.\n\nBecause it was broken.\n"));
    let tidied = tidied_message(&commits, 30).unwrap();
    assert_eq!(tidied, "Fix the rest\n\nBecause it was broken.\n");
    assert_eq!(tidied_message(&commits, 0), None);
}

#[test]
fn a_badge_keeps_its_promise() {
    let mut commits: Vec<CommitInfo> = (0..30)
        .map(|i| commit(&format!("gtk: Add part {i}\n")))
        .collect();
    commits.push(commit("gtk:  tidy the thing\n\nBody.\n"));
    commits.push(commit("Tidy the thing\n"));
    let subjects: Vec<&str> = commits.iter().map(|c| c.subject.as_str()).collect();
    let style = RepoStyle::learn(&subjects);
    let tip = lint_badge(&commits[30], Some(&style)).unwrap();
    assert!(tip.ends_with("\nClick to fix it automatically."));
    assert_eq!(
        tidied_message(&commits, 30).as_deref(),
        Some("gtk:  Tidy the thing\n\nBody.\n")
    );
    let tip = lint_badge(&commits[31], Some(&style)).unwrap();
    assert!(tip.ends_with("\nClick to edit the message."));
    assert_eq!(tidied_message(&commits, 31), None);
    assert_eq!(lint_badge(&commits[0], Some(&style)), None);
    assert_eq!(tidied_message(&commits, 0), None);
}

#[test]
fn a_restore_needs_a_worktree() {
    assert_eq!(restore_to(None, false), RestoreTo::Launch);
    assert_eq!(
        restore_to(Some("dev".to_string()), true),
        RestoreTo::Branch("dev".to_string())
    );
    assert_eq!(
        restore_to(Some("dev".to_string()), false),
        RestoreTo::Nowhere(
            "Can't restore: branch dev has no worktree to restore into".to_string()
        )
    );
    assert_eq!(restored_caret(7, 9), 7);
    assert_eq!(restored_caret(11, 9), 9);
}
