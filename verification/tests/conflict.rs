use commedit_gtk::conflict::{
    conflict_block_lines, conflict_cue_cells, conflict_cue_gap_at, conflict_cue_side_at, conflict_file_header_line,
    conflict_file_index_at_line, conflict_header_line, conflict_header_path, conflict_side_at_line,
    edit_touches_layout, goto_block, is_conflict_protected_line, navigable, plan_resolve,
    resolve_conflict_block, resolve_cue, strip_marker_cue, with_resolve_cues, CueLabels,
    ResolvePlan, Side, CONFLICT_ELISION_LINE, CONFLICT_STRUCTURAL_NOTICE,
};
use commedit_gtk::conflict_mode::{
    conflict_file_label, conflict_row, conflict_sections, conflict_view_text, conflicted_changes,
    conflicted_entries, count_files, first_conflicted, position_of_change, progress_label, ConflictSection,
};
use commedit_gtk::model::{
    CommitId, CommitInfo, ConflictFileView, ConflictLineKind, ConflictedCommit, ConflictedFile,
    WorkingCopyEntry,
};
use commedit_gtk::state::{
    PaneMode, SAVE_HINT_CONFLICT, SAVE_HINT_DIFF, SAVE_HINT_WORKCOPY,
};

const TEXT: &str = "top\n<<<<<<< ours\nmine 1\nmine 2\n||||||| base\nold\n=======\nyours\n>>>>>>> theirs\nend\n";

fn kinds() -> Vec<ConflictLineKind> {
    vec![
        ConflictLineKind::Plain,
        ConflictLineKind::MarkerOurs,
        ConflictLineKind::Ours,
        ConflictLineKind::Ours,
        ConflictLineKind::MarkerBase,
        ConflictLineKind::Base,
        ConflictLineKind::MarkerSep,
        ConflictLineKind::Theirs,
        ConflictLineKind::MarkerTheirs,
        ConflictLineKind::Plain,
    ]
}

#[test]
fn a_header_names_its_path() {
    for path in ["a.rs", "src/deep/file.txt", "with space", "", "odd ─── name"] {
        let line = conflict_header_line(path);
        assert_eq!(conflict_header_path(&line), Some(path));
        assert!(is_conflict_protected_line(&line));
    }
    assert_eq!(conflict_header_line("a.rs"), "─── a.rs ───");
    assert_eq!(conflict_header_path("─── a.rs"), None);
    assert_eq!(conflict_header_path("─── ───"), None);
    assert_eq!(conflict_header_path("a.rs"), None);
}

#[test]
fn layout_lines_are_protected() {
    assert!(is_conflict_protected_line(CONFLICT_ELISION_LINE));
    assert!(is_conflict_protected_line(CONFLICT_STRUCTURAL_NOTICE));
    assert!(!is_conflict_protected_line("let x = 1;"));
    assert!(!is_conflict_protected_line("<<<<<<< ours"));
    let text = format!("{}\nfree\n{}\nfree", conflict_header_line("a"), CONFLICT_ELISION_LINE);
    assert!(edit_touches_layout(&text, 0, 0));
    assert!(!edit_touches_layout(&text, 1, 1));
    assert!(edit_touches_layout(&text, 1, 3));
    assert!(!edit_touches_layout(&text, 3, 9));
}

#[test]
fn each_marker_keeps_its_side() {
    assert_eq!(resolve_cue(ConflictLineKind::MarkerOurs), Some(Side::Ours));
    assert_eq!(resolve_cue(ConflictLineKind::MarkerSep), Some(Side::Both));
    assert_eq!(resolve_cue(ConflictLineKind::MarkerTheirs), Some(Side::Theirs));
    for kind in [
        ConflictLineKind::Plain,
        ConflictLineKind::Ours,
        ConflictLineKind::Base,
        ConflictLineKind::Theirs,
        ConflictLineKind::MarkerBase,
    ] {
        assert_eq!(resolve_cue(kind), None);
    }
    assert_eq!(conflict_side_at_line(&kinds(), 6), Some(Side::Both));
    assert_eq!(conflict_side_at_line(&kinds(), 99), None);
}

#[test]
fn cues_come_and_go() {
    let labels = CueLabels {
        ours: "  [ours]".to_string(),
        both: "  [both]".to_string(),
        theirs: "  [theirs]".to_string(),
    };
    let cued = with_resolve_cues(TEXT, &kinds(), &labels);
    let lines: Vec<&str> = cued.split('\n').collect();
    assert_eq!(lines[1], "<<<<<<< ours  [ours]");
    assert_eq!(lines[4], "||||||| base");
    assert_eq!(lines[6], "=======  [both]");
    assert_eq!(lines[8], ">>>>>>> theirs  [theirs]");
    assert_eq!(strip_marker_cue(lines[1], "["), "<<<<<<< ours");
    assert_eq!(strip_marker_cue(lines[6], "["), "=======");
    assert_eq!(strip_marker_cue("a[1]", "["), "a[1]");
    assert_eq!(strip_marker_cue("<<<<<<< ours", "["), "<<<<<<< ours");
    // A click left of the cue keeps nothing.
    assert_eq!(conflict_cue_side_at(&cued, &kinds(), "[", 1, 13), None);
    assert_eq!(
        conflict_cue_side_at(&cued, &kinds(), "[", 1, 14),
        Some(Side::Ours)
    );
    assert_eq!(conflict_cue_side_at(&cued, &kinds(), "[", 2, 0), None);
}

#[test]
fn a_block_resolves_from_each_of_its_lines() {
    for caret in 1..=8 {
        assert_eq!(
            resolve_conflict_block(TEXT, &kinds(), caret, Side::Ours),
            Some((1, 8, "mine 1\nmine 2\n".to_string()))
        );
        assert_eq!(
            resolve_conflict_block(TEXT, &kinds(), caret, Side::Theirs),
            Some((1, 8, "yours\n".to_string()))
        );
        assert_eq!(
            resolve_conflict_block(TEXT, &kinds(), caret, Side::Both),
            Some((1, 8, "mine 1\nmine 2\nyours\n".to_string()))
        );
    }
    assert_eq!(resolve_conflict_block(TEXT, &kinds(), 0, Side::Ours), None);
    assert_eq!(resolve_conflict_block(TEXT, &kinds(), 9, Side::Ours), None);
    // An unclosed block is none.
    assert_eq!(
        resolve_conflict_block("<<<<<<<\na", &kinds()[1..3], 1, Side::Ours),
        None
    );
}

#[test]
fn navigation_goes_from_block_to_block() {
    let mut two = kinds();
    two.extend(kinds());
    let blocks = conflict_block_lines(&two);
    assert_eq!(blocks, [1, 11]);
    assert_eq!(goto_block(&blocks, 0, true), Some(1));
    assert_eq!(goto_block(&blocks, 1, true), Some(11));
    assert_eq!(goto_block(&blocks, 11, true), None);
    assert_eq!(goto_block(&blocks, 12, false), Some(11));
    assert_eq!(goto_block(&blocks, 11, false), Some(1));
    assert_eq!(goto_block(&blocks, 1, false), None);
    assert_eq!(navigable(&blocks, 0), (false, true));
    assert_eq!(navigable(&blocks, 5), (true, true));
    assert_eq!(navigable(&blocks, 50), (true, false));
    assert_eq!(navigable(&[], 0), (false, false));
}

#[test]
fn sections_undo_the_view() {
    let files = vec![
        ConflictSection {
            path: "a.rs".to_string(),
            snippet: Some(format!("one\n{}\ntwo", CONFLICT_ELISION_LINE)),
        },
        ConflictSection {
            path: "b.bin".to_string(),
            snippet: None,
        },
        ConflictSection {
            path: "c.rs".to_string(),
            snippet: Some(format!("{0}\nmid\n{0}", CONFLICT_ELISION_LINE)),
        },
    ];
    let text = conflict_view_text(&files);
    let sections = conflict_sections(&text);
    assert_eq!(sections[0], ["one", CONFLICT_ELISION_LINE, "two"]);
    assert_eq!(sections[1], [CONFLICT_STRUCTURAL_NOTICE]);
    assert_eq!(sections[2].len(), 3);
    assert_eq!(conflict_file_header_line(&text, 0), Some(0));
    assert_eq!(conflict_file_header_line(&text, 1), Some(4));
    assert_eq!(conflict_file_header_line(&text, 2), Some(6));
    assert_eq!(conflict_file_header_line(&text, 3), None);
    assert_eq!(conflict_file_index_at_line(&text, 3), 0);
    assert_eq!(conflict_file_index_at_line(&text, 4), 1);
    assert_eq!(conflict_file_index_at_line(&text, 99), 2);
    assert_eq!(conflict_cue_gap_at(&text, 2), Some((0, 0)));
    assert_eq!(conflict_cue_gap_at(&text, 7), Some((2, 0)));
    assert_eq!(conflict_cue_gap_at(&text, 9), Some((2, 1)));
    assert_eq!(conflict_cue_gap_at(&text, 8), None);
}

fn view(path: &str, resolvable: bool, text: &str, kinds: Vec<ConflictLineKind>) -> ConflictFileView {
    ConflictFileView {
        path: path.to_string(),
        resolvable,
        marker_len: 7,
        full_text: text.to_string(),
        kinds,
        pieces: vec![],
        gaps: vec![],
    }
}

#[test]
fn all_files_are_resolved_at_once_or_none() {
    let done = view("a", true, "clean\n", vec![ConflictLineKind::Plain]);
    let open = view("b", true, TEXT, kinds());
    let structural = view("c", false, "", kinds());
    assert!(matches!(
        plan_resolve(&[done.clone(), open]),
        ResolvePlan::MarkersLeft
    ));
    assert!(matches!(
        plan_resolve(&[structural.clone()]),
        ResolvePlan::NothingToResolve
    ));
    match plan_resolve(&[structural, done]) {
        ResolvePlan::Resolve(files) => {
            assert_eq!(files, [("a".to_string(), "clean\n".to_string(), 7)])
        }
        other => panic!("unexpected {other:?}"),
    }
}

fn conflicted(change: &str, files: usize) -> ConflictedCommit {
    ConflictedCommit {
        change_id: change.to_string(),
        files: (0..files)
            .map(|i| ConflictedFile {
                path: format!("f{i}"),
                resolvable: true,
            })
            .collect(),
    }
}

fn commit(change: &str) -> CommitInfo {
    CommitInfo {
        id: CommitId {
            hex: format!("id-{change}"),
        },
        change_id: change.to_string(),
        subject: String::new(),
        description: String::new(),
        author_name: String::new(),
        author_email: String::new(),
        committer_name: String::new(),
        committer_email: String::new(),
        author_time: String::new(),
        committer_time: String::new(),
        parents: vec![],
    }
}

#[test]
fn progress_counts_what_is_left() {
    let left = [conflicted("x", 2), conflicted("y", 1)];
    assert_eq!(count_files(&left), 3);
    assert_eq!(
        progress_label(3, 2),
        "Conflicts from the rewrite must be resolved before it applies to git — 3 file(s) across 2 commit(s) remaining."
    );
    assert_eq!(conflicted_changes(&left), ["x", "y"]);
    assert_eq!(first_conflicted(&left).as_deref(), Some("x"));
    assert_eq!(first_conflicted(&[]), None);
    assert_eq!(conflict_file_label("a.rs", true), "a.rs");
    assert_eq!(conflict_file_label("a.bin", false), "⚠ a.bin");
}

#[test]
fn a_solved_commit_hands_the_selection_on() {
    let commits = [commit("p"), commit("q"), commit("r")];
    let marks = ["q".to_string(), "r".to_string()];
    assert_eq!(position_of_change(&commits, "r"), Some(2));
    assert_eq!(position_of_change(&commits, "s"), None);
    assert_eq!(conflict_row(&commits, &marks, &Some("r".to_string())), Some(2));
    assert_eq!(conflict_row(&commits, &marks, &Some("p".to_string())), Some(1));
    assert_eq!(conflict_row(&commits, &marks, &None), Some(1));
    assert_eq!(conflict_row(&commits, &[], &None), None);
}

#[test]
fn the_pane_enters_and_leaves_conflict_mode() {
    let mut mode = PaneMode::Diff;
    assert!(!mode.is_conflict());
    assert_eq!(mode.save_hint(false), SAVE_HINT_DIFF);
    assert_eq!(mode.save_hint(true), SAVE_HINT_WORKCOPY);
    let first = mode.enter(vec![conflicted("x", 1), conflicted("y", 1)]);
    assert_eq!(first.as_deref(), Some("x"));
    assert!(mode.is_conflict());
    assert_eq!(mode.save_hint(false), SAVE_HINT_CONFLICT);
    assert_eq!(mode.conflicted_changes(), ["x", "y"]);
    mode.update(vec![conflicted("y", 1)]);
    assert_eq!(mode.conflicted_changes(), ["y"]);
    mode.exit();
    assert!(!mode.is_conflict());
    assert!(mode.conflicted_changes().is_empty());
}

#[test]
fn buttons_stand_on_elisions_and_markers() {
    let text = format!("{CONFLICT_ELISION_LINE}\n<<<<<<<\nx\n=======\n>>>>>>>");
    let kinds = [
        ConflictLineKind::Plain,
        ConflictLineKind::MarkerOurs,
        ConflictLineKind::Ours,
        ConflictLineKind::MarkerSep,
    ];
    let (expand, keep) = conflict_cue_cells(&text, &kinds);
    assert_eq!(expand, [true, false, false, false, false]);
    assert_eq!(
        keep,
        [None, Some(Side::Ours), None, Some(Side::Both), None]
    );
}

#[test]
fn conflicted_entries_join_the_commits() {
    let entry = |change: &str| WorkingCopyEntry {
        info: commit(change),
        file_names: vec![],
        has_conflict: true,
    };
    let chain = [entry("w3"), entry("w2"), entry("w1")];
    let marks = ["w1".to_string(), "w3".to_string(), "x".to_string()];
    assert_eq!(conflicted_entries(&chain, &marks), [0, 2]);
    assert!(conflicted_entries(&chain, &[]).is_empty());
}
