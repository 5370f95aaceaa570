use commedit_gtk::display::DisplayRow;
use commedit_gtk::dnd::{DraggedCommit, DraggedCommits};
use commedit_gtk::dragdrop::{
    branch_tips, copy_tip, drag_payload, drag_start, drop_on_history, drop_on_trash,
    foreign_payload, foreign_pick_sha, gap_query, group_drop_refusal, hint_source, hunk_drag, hunk_handle, lane_branches,
    line_choice, line_commits, move_choice, move_tip, neighbour, set_commits, squash_hints,
    squash_query, survivor, Drag, DragOrigin, GapQuery, Hint, HistoryDrop, HunkDrag, HunkSource, LineChoice, MoveChoice,
    SquashQuery, TrashDrop, DROP_ALL, DROP_ONE_OF, OTHER_REPO, SEVERAL_FOREIGN,
};
use commedit_gtk::model::{
    Candidate, CombinedFile, CommitId, CommitInfo, HunkInfo, LocalBranch, ReorderMove,
};

fn id(hex: &str) -> CommitId {
    CommitId {
        hex: hex.to_string(),
    }
}

fn commit(hex: &str, parents: &[&str]) -> CommitInfo {
    CommitInfo {
        id: id(hex),
        change_id: format!("change-{hex}"),
        subject: format!("subject {hex}"),
        description: String::new(),
        author_name: String::new(),
        author_email: String::new(),
        committer_name: String::new(),
        committer_email: String::new(),
        author_time: String::new(),
        committer_time: String::new(),
        parents: parents.iter().map(|p| id(p)).collect(),
    }
}

/// An uncommitted entry above three commits.
fn rows() -> Vec<DisplayRow> {
    vec![
        DisplayRow::Wc { group: 0, entry: 0 },
        DisplayRow::Commit(0),
        DisplayRow::Commit(1),
        DisplayRow::Commit(2),
    ]
}

fn drag(origin: DragOrigin, from: Option<usize>, set: &[usize]) -> Drag {
    Drag {
        origin,
        from,
        set: set.to_vec(),
    }
}

#[test]
fn a_drag_takes_the_selection_along() {
    assert_eq!(
        drag_start(&rows(), 2, &[3, 2, 0]),
        drag(DragOrigin::History, Some(2), &[2, 3])
    );
    assert_eq!(
        drag_start(&rows(), 1, &[2, 3]),
        drag(DragOrigin::History, Some(1), &[])
    );
    assert_eq!(
        drag_start(&rows(), 2, &[2]),
        drag(DragOrigin::History, Some(2), &[])
    );
    assert_eq!(
        drag_start(&rows(), 0, &[0, 1]),
        drag(DragOrigin::WorkingCopy, Some(0), &[])
    );
    assert_eq!(set_commits(&rows(), &[1, 0, 3, 9], 3), [0, 2]);
    assert_eq!(set_commits(&rows(), &[1, 3], 2), [0]);
}

fn history() -> Vec<CommitInfo> {
    vec![commit("c", &["b"]), commit("b", &["a"]), commit("a", &[])]
}

#[test]
fn a_payload_crosses_windows() {
    let d = drag(DragOrigin::History, Some(2), &[1, 2]);
    let p = drag_payload(&rows(), &history(), &d, 42, Some("/repo"));
    assert_eq!(p.pid, 42);
    assert_eq!(p.repo_key, "/repo");
    let shas: Vec<&str> = p.commits.iter().map(|c| c.sha.as_str()).collect();
    assert_eq!(shas, ["c", "b"]);
    assert_eq!(p.commits[0].change_id, "change-c");
    assert_eq!(p.commits[0].subject, "subject c");
    let text = p.serialize();
    assert_eq!(foreign_payload(Some(&text), 42), None);
    assert_eq!(foreign_payload(Some(&text), 43), Some(p.clone()));
    assert_eq!(foreign_payload(Some("junk"), 43), None);
    assert_eq!(foreign_payload(None, 43), None);
    assert_eq!(foreign_pick_sha(&p), None);
    let single = drag_payload(
        &rows(),
        &history(),
        &drag(DragOrigin::History, Some(3), &[]),
        42,
        None,
    );
    assert_eq!(foreign_pick_sha(&single).as_deref(), Some("a"));
    assert_eq!(single.repo_key, "");
}

#[test]
fn a_gap_asks_for_what_would_be_dropped() {
    let ask = |foreign, d: &Drag, gap| gap_query(foreign, d, &rows(), 3, 2, gap);
    let none = drag(DragOrigin::History, None, &[]);
    assert_eq!(
        ask(Some(Some("x".to_string())), &none, 2),
        GapQuery::CherryPick {
            sha: "x".to_string(),
            to: 1
        }
    );
    assert_eq!(ask(Some(None), &none, 2), GapQuery::Never);
    assert_eq!(ask(None, &none, 2), GapQuery::Never);
    assert_eq!(
        ask(None, &drag(DragOrigin::History, Some(3), &[]), 1),
        GapQuery::Reorder { from: 2, to: 0 }
    );
    assert_eq!(
        ask(None, &drag(DragOrigin::History, Some(3), &[2, 3]), 1),
        GapQuery::ReorderSet {
            commits: vec![1, 2],
            to: 0
        }
    );
    assert_eq!(
        ask(None, &drag(DragOrigin::Trash, Some(1), &[]), 4),
        GapQuery::Restore { from: 1, to: 3 }
    );
    assert_eq!(
        ask(None, &drag(DragOrigin::Trash, Some(2), &[]), 4),
        GapQuery::Never
    );
    assert_eq!(
        ask(None, &drag(DragOrigin::WorkingCopy, Some(0), &[]), 4),
        GapQuery::Never
    );
}

#[test]
fn no_commit_goes_into_itself() {
    let ask = |d: &Drag, di| squash_query(d, &rows(), 2, di);
    let several = drag(DragOrigin::History, Some(2), &[1, 2]);
    assert_eq!(ask(&several, 1), SquashQuery::Never);
    assert_eq!(ask(&several, 2), SquashQuery::Never);
    assert_eq!(ask(&several, 3), SquashQuery::Commits(vec![(0, 2), (1, 2)]));
    assert_eq!(ask(&several, 0), SquashQuery::Never);
    assert_eq!(
        ask(&drag(DragOrigin::History, Some(1), &[]), 3),
        SquashQuery::Commits(vec![(0, 2)])
    );
    assert_eq!(
        ask(&drag(DragOrigin::Trash, Some(1), &[]), 3),
        SquashQuery::Trashed { from: 1, onto: 2 }
    );
    assert_eq!(
        ask(&drag(DragOrigin::WorkingCopy, Some(0), &[]), 3),
        SquashQuery::Entry { row: 0, onto: 2 }
    );
    assert_eq!(
        ask(&drag(DragOrigin::WorkingCopy, Some(1), &[]), 3),
        SquashQuery::Never
    );
}

fn payload(pid: u32, key: &str, shas: &[&str]) -> DraggedCommits {
    DraggedCommits {
        pid,
        repo_key: key.to_string(),
        branch: None,
        commits: shas
            .iter()
            .map(|s| DraggedCommit {
                sha: s.to_string(),
                change_id: String::new(),
                subject: String::new(),
            })
            .collect(),
    }
}

#[test]
fn a_drop_from_another_window_is_a_copy() {
    let none = drag(DragOrigin::History, None, &[]);
    let land = |p: &DraggedCommits| {
        drop_on_history(Some(p), 1, Some("/repo"), None, &none, None, 3, &rows())
    };
    assert_eq!(
        land(&payload(2, "/repo", &["x"])),
        HistoryDrop::CherryPick {
            sha: "x".to_string(),
            gap: 3,
            to: 2
        }
    );
    assert_eq!(
        land(&payload(2, "/other", &["x"])),
        HistoryDrop::Told(OTHER_REPO)
    );
    assert_eq!(
        land(&payload(2, "/repo", &["x", "y"])),
        HistoryDrop::Told(SEVERAL_FOREIGN)
    );
    assert_eq!(land(&payload(1, "/repo", &["x"])), HistoryDrop::Refused);
}

#[test]
fn a_drop_in_the_window_goes_by_its_origin() {
    let own = payload(1, "/repo", &["b"]);
    let land = |d: &Drag, onto| {
        drop_on_history(Some(&own), 1, Some("/repo"), None, d, onto, 1, &rows())
    };
    let one = drag(DragOrigin::History, Some(2), &[]);
    let several = drag(DragOrigin::History, Some(2), &[2, 3]);
    assert_eq!(
        land(&one, Some(3)),
        HistoryDrop::Squash { from: 2, onto: 3 }
    );
    assert_eq!(
        land(&one, None),
        HistoryDrop::Move {
            from: 2,
            gap: 1,
            to: 0
        }
    );
    assert_eq!(
        land(&several, Some(1)),
        HistoryDrop::GroupSquash { onto: 1 }
    );
    assert_eq!(land(&several, None), HistoryDrop::GroupMove { gap: 1, to: 0 });
    let by_index = |origin, onto| {
        let d = drag(origin, Some(0), &[]);
        drop_on_history(None, 1, None, Some(0), &d, onto, 4, &rows())
    };
    assert_eq!(
        by_index(DragOrigin::Trash, Some(2)),
        HistoryDrop::TrashSquash { from: 0, onto: 2 }
    );
    assert_eq!(
        by_index(DragOrigin::Trash, None),
        HistoryDrop::Restore {
            from: 0,
            gap: 4,
            to: 3
        }
    );
    assert_eq!(
        by_index(DragOrigin::WorkingCopy, Some(2)),
        HistoryDrop::Fold { from: 0, onto: 2 }
    );
    assert_eq!(by_index(DragOrigin::WorkingCopy, None), HistoryDrop::Refused);
    assert_eq!(
        drop_on_history(None, 1, None, None, &one, None, 0, &rows()),
        HistoryDrop::Refused
    );
}

#[test]
fn the_trash_takes_commits_and_entries() {
    let land = |foreign, d: &Drag| drop_on_trash(foreign, d, &rows(), 3);
    let several = drag(DragOrigin::History, Some(1), &[1, 3]);
    assert_eq!(land(false, &several), TrashDrop::Group(vec![0, 2]));
    assert_eq!(land(true, &several), TrashDrop::Refused);
    assert_eq!(
        land(false, &drag(DragOrigin::History, Some(3), &[])),
        TrashDrop::One(2)
    );
    assert_eq!(
        land(false, &drag(DragOrigin::History, Some(9), &[])),
        TrashDrop::Nothing
    );
    assert_eq!(
        land(false, &drag(DragOrigin::WorkingCopy, Some(0), &[])),
        TrashDrop::Discard { row: 0 }
    );
    assert_eq!(
        land(false, &drag(DragOrigin::Trash, Some(0), &[])),
        TrashDrop::Refused
    );
    assert_eq!(group_drop_refusal(&[true, true], 2), Some(DROP_ALL));
    assert_eq!(group_drop_refusal(&[true, false], 3), Some(DROP_ONE_OF));
    assert_eq!(group_drop_refusal(&[true, true], 3), None);
    assert_eq!(survivor(3, &[0, 1]), Some(2));
    assert_eq!(survivor(3, &[1]), Some(0));
    assert_eq!(survivor(1, &[0]), None);
    assert_eq!(neighbour(3, 1), Some(2));
    assert_eq!(neighbour(3, 2), Some(1));
    assert_eq!(neighbour(1, 0), None);
}

fn mv(parents: &[&str], children: &[&str]) -> ReorderMove {
    ReorderMove {
        target: id("t"),
        new_parents: parents.iter().map(|p| id(p)).collect(),
        new_children: children.iter().map(|c| id(c)).collect(),
        new_tip: id("t"),
    }
}

#[test]
fn a_crossing_of_lines_asks() {
    let mut commits = history();
    commits.insert(0, commit("d", &["a"]));
    let local = [
        LocalBranch {
            name: "main".to_string(),
            head: id("c"),
        },
        LocalBranch {
            name: "dev".to_string(),
            head: id("d"),
        },
        LocalBranch {
            name: "off".to_string(),
            head: id("b"),
        },
    ];
    let editable = ["dev".to_string(), "main".to_string()];
    let tips = branch_tips(&local, &editable);
    let names: Vec<&str> = tips.iter().map(|t| t.name.as_str()).collect();
    assert_eq!(names, ["main", "dev"]);
    let lanes = lane_branches(&commits, &local, &editable);
    assert_eq!(lanes.branches_of(&id("a")), ["dev", "main"]);

    assert_eq!(line_commits(&mv(&["p"], &["c"])), [id("c")]);
    assert_eq!(line_commits(&mv(&["p"], &[])), [id("p")]);
    let candidate = |lane, m| Candidate { lane, mv: m };
    assert_eq!(line_choice(&[], Some(&lanes)), LineChoice::Nowhere);
    assert_eq!(
        line_choice(&[candidate(0, mv(&["a"], &["b"]))], Some(&lanes)),
        LineChoice::Only
    );
    let two = [
        candidate(0, mv(&["a"], &["b"])),
        candidate(1, mv(&["a"], &["d"])),
    ];
    assert_eq!(
        line_choice(&two, Some(&lanes)),
        LineChoice::Ask(vec![
            (0, Some("main".to_string())),
            (1, Some("dev".to_string()))
        ])
    );
    assert_eq!(
        line_choice(&two, None),
        LineChoice::Ask(vec![(0, None), (1, None)])
    );

    let across = mv(&["a"], &["d"]);
    assert_eq!(
        move_choice(&lanes, &id("b"), &across, true),
        MoveChoice::Ask(Some("dev".to_string()))
    );
    assert_eq!(
        move_choice(&lanes, &id("b"), &across, false),
        MoveChoice::Move
    );
    assert_eq!(
        move_choice(&lanes, &id("c"), &mv(&["a"], &["b"]), true),
        MoveChoice::Move
    );
    assert_eq!(
        move_tip(Some("dev")),
        "Reparent this commit onto dev — its descendants rebase, and it leaves its old branch."
    );
    assert_eq!(
        copy_tip(None),
        "Cherry-pick this commit — a re-applied copy; the original stays where it is."
    );
}

#[test]
fn blame_outdoes_the_other_hints() {
    assert_eq!(
        hint_source(&drag(DragOrigin::History, Some(2), &[]), &rows()),
        Some(1)
    );
    assert_eq!(
        hint_source(&drag(DragOrigin::History, Some(2), &[2, 3]), &rows()),
        None
    );
    assert_eq!(
        hint_source(&drag(DragOrigin::Trash, Some(2), &[]), &rows()),
        None
    );
    let hint = |row, target, sibling, blame| Hint {
        row,
        target,
        sibling,
        blame,
    };
    assert_eq!(
        squash_hints(&[1, 2, 3], &[0, 2], &[1], Some(2)),
        [
            hint(1, true, false, false),
            hint(2, false, true, false),
            hint(3, false, false, true),
        ]
    );
}

#[test]
fn a_hunk_is_dragged_by_its_header() {
    let text = "diff --git a/f b/f\n@@ -1 +1 @@\n-a\n+b";
    let files = [CombinedFile {
        path: "f".to_string(),
        start_line: 0,
        editable: true,
        hunks: vec![HunkInfo {
            header_line: 1,
            first_group: 2,
            last_group: 3,
            can_expand_up: false,
            can_expand_down: false,
        }],
    }];
    assert!(hunk_handle(text, &files, 1, false));
    assert!(!hunk_handle(text, &files, 1, true));
    assert!(!hunk_handle(text, &files, 2, false));
    let some = |s: &str| Some(s.to_string());
    let hunk = |source| HunkDrag {
        source,
        path: "f".to_string(),
        first_group: 2,
        last_group: 3,
    };
    assert_eq!(
        hunk_drag(text, &files, 1, false, false, &None, &None, &some("k")),
        Some(hunk(HunkSource::Commit("k".to_string())))
    );
    assert_eq!(
        hunk_drag(text, &files, 1, false, true, &some("main"), &None, &some("k")),
        Some(hunk(HunkSource::WorkingCopy {
            branch: "main".to_string(),
            change: String::new()
        }))
    );
    assert_eq!(
        hunk_drag(text, &files, 1, false, false, &None, &None, &None),
        None
    );
    assert_eq!(
        hunk_drag(text, &files, 1, true, false, &None, &None, &some("k")),
        None
    );
    assert_eq!(
        hunk_drag(text, &files, 0, false, false, &None, &None, &some("k")),
        None
    );
}
