use commedit_gtk::display::{
    find_wc_row, first_commit_row, interleave, row_commit_gap, row_commit_index, DisplayRow,
};
use commedit_gtk::hover::{
    gap_at, gap_edge, hover_gap, popover_anchor_row, zone, RowHit, Zone,
};
use commedit_gtk::model::{CommitId, CommitInfo, Uncommitted, WorkingCopyEntry};
use commedit_gtk::selection::{
    click, content, entry_to_show, oldest_first, pane, reselect_rows, reselect_targets, Content,
    Pane,
};

fn id(hex: &str) -> CommitId {
    CommitId {
        hex: hex.to_string(),
    }
}

fn commit(hex: &str, parents: &[&str]) -> CommitInfo {
    CommitInfo {
        id: id(hex),
        change_id: format!("change-{hex}"),
        subject: String::new(),
        description: String::new(),
        author_name: String::new(),
        author_email: String::new(),
        committer_name: String::new(),
        committer_email: String::new(),
        author_time: String::new(),
        committer_time: String::new(),
        parents: parents.iter().map(|p| id(p)).collect(),
    }
}

fn entry(hex: &str, parent: &str) -> WorkingCopyEntry {
    WorkingCopyEntry {
        info: commit(hex, &[parent]),
        file_names: vec![],
        has_conflict: false,
    }
}

fn history() -> Vec<CommitInfo> {
    vec![
        commit("c", &["b"]),
        commit("b", &["a"]),
        commit("a", &[]),
    ]
}

fn groups() -> Vec<Uncommitted> {
    vec![
        Uncommitted {
            branch: "main".to_string(),
            entries: vec![entry("m2", "m1"), entry("m1", "c")],
        },
        Uncommitted {
            branch: "dev".to_string(),
            entries: vec![entry("d1", "b")],
        },
        Uncommitted {
            branch: "gone".to_string(),
            entries: vec![entry("g1", "elsewhere")],
        },
        Uncommitted {
            branch: "clean".to_string(),
            entries: vec![],
        },
    ]
}

#[test]
fn entries_stand_above_their_tip() {
    let d = interleave(&history(), &groups());
    assert_eq!(
        d.rows,
        [
            DisplayRow::Wc { group: 0, entry: 0 },
            DisplayRow::Wc { group: 0, entry: 1 },
            DisplayRow::Commit(0),
            DisplayRow::Wc { group: 1, entry: 0 },
            DisplayRow::Commit(1),
            DisplayRow::Commit(2),
        ]
    );
    assert_eq!(d.hollow, [true, true, false, true, false, false]);
    assert_eq!(d.commit_rows, [2, 4, 5]);
}

#[test]
fn commits_and_rows_agree() {
    let d = interleave(&history(), &groups());
    for (ci, di) in d.commit_rows.iter().enumerate() {
        assert_eq!(row_commit_index(&d.rows, *di), Some(ci));
        assert_eq!(row_commit_gap(&d.rows, *di), ci);
    }
    assert_eq!(row_commit_index(&d.rows, 0), None);
    assert_eq!(row_commit_index(&d.rows, 99), None);
    assert_eq!(row_commit_gap(&d.rows, 99), 3);
    assert_eq!(first_commit_row(&d.rows), Some(2));
    assert_eq!(first_commit_row(&[]), None);
    assert_eq!(find_wc_row(&d.rows, &groups(), "dev", "change-d1"), Some(3));
    assert_eq!(find_wc_row(&d.rows, &groups(), "main", "change-m1"), Some(1));
    assert_eq!(find_wc_row(&d.rows, &groups(), "main", "change-d1"), None);
}

fn hit(index: usize) -> Option<RowHit> {
    Some(RowHit {
        index,
        top: 100,
        height: 40,
    })
}

#[test]
fn a_gap_opens_beside_the_nearer_half() {
    assert_eq!(gap_at(hit(2), 105, false, 5), 2);
    assert_eq!(gap_at(hit(2), 120, false, 5), 2);
    assert_eq!(gap_at(hit(2), 121, false, 5), 3);
    assert_eq!(gap_at(hit(9), 130, false, 5), 5);
    assert_eq!(gap_at(None, 0, true, 5), 0);
    assert_eq!(gap_at(None, 0, false, 5), 5);
}

#[test]
fn the_placeholder_is_transparent() {
    // With the placeholder in gap 1, row 1 stands at place 2.
    assert_eq!(hover_gap(hit(2), 105, false, 5, Some(1)), None);
    assert_eq!(hover_gap(hit(2), 135, false, 5, Some(1)), Some(2));
    assert_eq!(hover_gap(hit(1), 135, false, 5, Some(1)), None);
    assert_eq!(hover_gap(hit(0), 105, false, 5, Some(1)), Some(0));
    assert_eq!(hover_gap(hit(0), 135, false, 5, Some(1)), None);
    assert_eq!(hover_gap(hit(0), 105, false, 5, None), Some(0));
}

#[test]
fn zones_fit_the_drag() {
    // The upper and the lower quarter of 40 pixels are gaps.
    assert_eq!(zone(hit(3), 109, false, false, None), Zone::Gap);
    assert_eq!(zone(hit(3), 110, false, false, None), Zone::Target(3));
    assert_eq!(zone(hit(3), 129, false, false, None), Zone::Target(3));
    assert_eq!(zone(hit(3), 130, false, false, None), Zone::Gap);
    assert_eq!(zone(hit(3), 120, false, false, Some(1)), Zone::Target(2));
    assert_eq!(zone(hit(3), 120, false, false, Some(3)), Zone::Unchanged);
    // Another window's commit goes between rows, an uncommitted entry onto them.
    assert_eq!(zone(hit(3), 120, true, false, None), Zone::Gap);
    assert_eq!(zone(hit(3), 101, false, true, None), Zone::Target(3));
    assert_eq!(zone(None, 0, false, true, None), Zone::Nothing);
    assert_eq!(zone(None, 0, false, false, None), Zone::Gap);
}

#[test]
fn a_chooser_points_at_its_gap() {
    assert_eq!(popover_anchor_row(&[true, true], 1), Some(1));
    assert_eq!(popover_anchor_row(&[true, true], 2), Some(1));
    assert_eq!(popover_anchor_row(&[true, false], 1), Some(0));
    assert_eq!(popover_anchor_row(&[false, false], 1), None);
    assert_eq!(popover_anchor_row(&[], 0), None);
    assert_eq!(gap_edge(true, 50, 20), 50);
    assert_eq!(gap_edge(false, 50, 20), 69);
}

#[test]
fn a_plain_click_selects_one_row() {
    let rows = interleave(&history(), &groups()).rows;
    let s = click(&rows, 4, false, false, &[2, 5], Some(2));
    assert_eq!(s.rows, [4]);
    assert_eq!(s.anchor, Some(4));
}

#[test]
fn shift_selects_the_commits_of_a_range() {
    let rows = interleave(&history(), &groups()).rows;
    // The uncommitted entry at row 3 is left out.
    let s = click(&rows, 5, true, false, &[2], Some(2));
    assert_eq!(s.rows, [2, 4, 5]);
    assert_eq!(s.anchor, Some(2));
    // Upwards, and without an anchor from the topmost selected row.
    let s = click(&rows, 2, true, false, &[5, 4], None);
    assert_eq!(s.rows, [2, 4]);
}

#[test]
fn toggling_twice_changes_nothing() {
    let rows = interleave(&history(), &groups()).rows;
    let once = click(&rows, 4, false, true, &[2], Some(2));
    assert_eq!(once.rows, [2, 4]);
    assert_eq!(once.anchor, Some(4));
    let twice = click(&rows, 4, false, true, &once.rows, once.anchor);
    assert_eq!(twice.rows, [2]);
}

#[test]
fn entries_and_commits_do_not_mix() {
    let rows = interleave(&history(), &groups()).rows;
    assert_eq!(click(&rows, 3, false, true, &[2, 4], Some(2)).rows, [3]);
    assert_eq!(click(&rows, 3, true, false, &[2, 4], Some(2)).rows, [3]);
    assert_eq!(click(&rows, 4, false, true, &[3], Some(3)).rows, [4]);
}

#[test]
fn the_pane_shows_the_selection() {
    let rows = interleave(&history(), &groups()).rows;
    let several = content(&rows, &[5, 2], 3);
    assert_eq!(several, Content::Commits(vec![0, 2]));
    assert_eq!(
        content(&rows, &[2, 3], 3),
        Content::Entry { group: 1, entry: 0 }
    );
    assert_eq!(content(&rows, &[], 3), Content::Commits(vec![]));
    assert_eq!(pane(several.clone(), false), Pane::Several(vec![0, 2]));
    assert_eq!(pane(several, true), Pane::Conflict(Some(0)));
    assert_eq!(pane(Content::Commits(vec![]), true), Pane::Conflict(None));
    assert_eq!(pane(Content::Commits(vec![]), false), Pane::Empty);
    assert_eq!(pane(Content::Commits(vec![1]), false), Pane::Single(1));
    assert_eq!(
        pane(Content::Entry { group: 0, entry: 1 }, true),
        Pane::Entry { group: 0, entry: 1 }
    );
    assert_eq!(oldest_first(&[0, 2, 3]), [3, 2, 0]);
}

#[test]
fn a_rebuild_selects_the_same_changes() {
    let several = vec!["change-c".to_string(), "change-a".to_string()];
    let anchor = Some("change-b".to_string());
    assert_eq!(reselect_targets(&several, &anchor), several);
    assert_eq!(reselect_targets(&several[..1].to_vec(), &anchor), ["change-b"]);
    assert!(reselect_targets(&vec![], &None).is_empty());
    let wanted = [
        "change-a".to_string(),
        "lost".to_string(),
        "change-c".to_string(),
    ];
    assert_eq!(reselect_rows(&history(), &[2, 4, 5], &wanted), [5, 2]);
    let entries = [entry("m2", "m1"), entry("m1", "c")];
    assert_eq!(entry_to_show(&entries, &Some("change-m1".to_string())), Some(1));
    assert_eq!(entry_to_show(&entries, &Some("lost".to_string())), Some(0));
    assert_eq!(entry_to_show(&entries, &None), Some(0));
    assert_eq!(entry_to_show(&[], &None), None);
}
