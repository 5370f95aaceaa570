use commedit_gtk::model::{
    CommitId, CommitInfo, GraphRow, RefDecoration, RefKind, WorkingCopyEntry,
};
use commedit_gtk::msglint::RepoStyle;
use commedit_gtk::rows::{
    affected_rows, commit_row, commit_rows, display_subject, graph_strokes, graph_width,
    lane_color_index, lint_badge, node_color, pills, search_rows, short_id, summarize_files,
    wc_label, Stroke, SubjectText,
};

fn commit(hex: &str, subject: &str, parents: usize) -> CommitInfo {
    CommitInfo {
        id: CommitId {
            hex: hex.to_string(),
        },
        change_id: format!("change-{hex}"),
        subject: subject.to_string(),
        description: format!("{subject}\n"),
        author_name: String::new(),
        author_email: String::new(),
        committer_name: String::new(),
        committer_email: String::new(),
        author_time: String::new(),
        committer_time: String::new(),
        parents: (0..parents)
            .map(|i| CommitId {
                hex: format!("p{i}"),
            })
            .collect(),
    }
}

fn style() -> RepoStyle {
    let subjects: Vec<String> = (0..30).map(|i| format!("Add part {i}")).collect();
    let refs: Vec<&str> = subjects.iter().map(String::as_str).collect();
    RepoStyle::learn(&refs)
}

#[test]
fn lanes_cycle_through_their_colours() {
    assert_eq!(lane_color_index(0), 0);
    assert_eq!(lane_color_index(7), 7);
    assert_eq!(lane_color_index(8), 0);
    assert_eq!(graph_width(0), 12);
    assert_eq!(graph_width(1), 12);
    assert_eq!(graph_width(3), 36);
    assert_eq!(graph_width(usize::MAX), i32::MAX);
}

#[test]
fn lines_keep_their_colour_from_row_to_row() {
    let row = GraphRow {
        node_lane: 1,
        edges_above: vec![(0, 0), (9, 1)],
        edges_below: vec![(1, 2)],
        is_merge: false,
    };
    assert_eq!(
        graph_strokes(&row),
        [
            Stroke { from: 0, to: 0, above: true, color: 0, straight: true },
            Stroke { from: 9, to: 1, above: true, color: 1, straight: false },
            Stroke { from: 1, to: 2, above: false, color: 2, straight: false },
        ]
    );
    assert_eq!(node_color(&row), Some(1));
    assert_eq!(node_color(&GraphRow { is_merge: true, ..row }), None);
}

#[test]
fn rows_show_subject_and_id() {
    assert_eq!(display_subject(&commit("a", "", 1)), "(no description)");
    assert_eq!(display_subject(&commit("a", "Add x", 1)), "Add x");
    assert_eq!(short_id("0123456789"), "01234567");
    assert_eq!(short_id("012"), "012");
}

#[test]
fn a_drifting_summary_gets_a_badge() {
    let s = style();
    let badge = lint_badge(&commit("a", "fix it", 1), Some(&s)).unwrap();
    assert!(badge.starts_with("This summary is out of step with the repo's commit style:\n• "));
    assert!(badge.ends_with("\nClick to fix it automatically."));
    assert_eq!(lint_badge(&commit("a", "Fix it", 1), Some(&s)), None);
    assert_eq!(lint_badge(&commit("a", "fix it", 2), Some(&s)), None);
    assert_eq!(lint_badge(&commit("a", "fix it", 1), None), None);
}

#[test]
fn refs_become_pills() {
    let decoration = |name: &str, kind, current| RefDecoration {
        name: name.to_string(),
        kind,
        current,
    };
    let v = pills(&[
        decoration("main", RefKind::Branch, true),
        decoration("dev", RefKind::Branch, false),
        decoration("v1", RefKind::Tag, false),
    ]);
    assert_eq!(v[0].tooltip, "Branch main (checked out)");
    assert!(v[0].current);
    assert_eq!(v[0].class, "ref-branch");
    assert_eq!(v[1].tooltip, "Branch dev");
    assert_eq!(v[2].text, "v1");
    assert_eq!(v[2].tooltip, "Tag v1");
    assert_eq!(v[2].class, "ref-tag");
}

#[test]
fn a_row_offers_what_its_commit_allows() {
    let row = |parents| commit_row(&commit("0123456789", "s", parents), false, &[], None);
    assert_eq!(row(1).id_markup, "<tt>01234567</tt>");
    assert_eq!(row(1).full_id, "0123456789");
    assert!(!row(1).no_revert && !row(1).no_merge_out);
    assert!(row(2).no_revert && row(2).no_merge_out);
    assert!(!row(0).no_revert && row(0).no_merge_out);
    let refs = [(
        "b".to_string(),
        vec![RefDecoration {
            name: "main".to_string(),
            kind: RefKind::Branch,
            current: false,
        }],
    )];
    let rows = commit_rows(
        &[commit("a", "x", 1), commit("b", "y", 1)],
        &["change-a".to_string()],
        &refs,
        None,
    );
    assert!(rows[0].conflicted && !rows[1].conflicted);
    assert!(rows[0].pills.is_empty());
    assert_eq!(rows[1].pills[0].text, "main");
}

#[test]
fn an_operation_marks_its_rows() {
    let commits = [commit("a", "x", 1), commit("b", "y", 1), commit("c", "z", 1)];
    let affected = ["change-c".to_string(), "lost".to_string(), "change-a".to_string()];
    assert_eq!(affected_rows(&commits, &affected), [0, 2]);
}

#[test]
fn a_search_marks_what_it_finds() {
    let commits = [
        commit("a", "Fix <parser>", 1),
        commit("b", "Add docs", 1),
        commit("c", "", 1),
    ];
    let (texts, found) = search_rows(&commits, "PARSER");
    assert_eq!(found, [0]);
    assert_eq!(texts[1], SubjectText::Plain("Add docs".to_string()));
    assert_eq!(texts[2], SubjectText::Plain("(no description)".to_string()));
    match &texts[0] {
        SubjectText::Markup(m) => {
            assert!(m.contains("&lt;"));
            assert_ne!(m, "Fix &lt;parser&gt;");
        }
        other => panic!("unexpected {other:?}"),
    }
    let (texts, found) = search_rows(&commits, "  ");
    assert!(found.is_empty());
    assert_eq!(texts[0], SubjectText::Plain("Fix <parser>".to_string()));
}

#[test]
fn files_are_summarised() {
    let strings = |v: &[&str]| v.iter().map(|s| s.to_string()).collect::<Vec<_>>();
    assert_eq!(summarize_files(&strings(&[])), "");
    assert_eq!(summarize_files(&strings(&["src/main.rs"])), "main.rs");
    assert_eq!(summarize_files(&strings(&["src/main.rs", "lib.rs"])), "main.rs, lib.rs");
    assert_eq!(
        summarize_files(&strings(&["src/main.rs", "a/lib.rs", "b", "c", "d"])),
        "main.rs, lib.rs (+3 more)"
    );
    let entry = |has_conflict| WorkingCopyEntry {
        info: commit("w", "", 1),
        file_names: strings(&["a/b.rs"]),
        has_conflict,
    };
    assert_eq!(wc_label(&entry(false)), "✎ Uncommitted changes — b.rs");
    assert_eq!(wc_label(&entry(true)), "⚠ Uncommitted changes — conflicts in b.rs");
}
