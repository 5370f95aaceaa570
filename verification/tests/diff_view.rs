use commedit_gtk::diff_cues;
use commedit_gtk::file_edits::{
    collect_file_edits, cue_at_new, cue_at_old, diff_file_index_at_line, flatten_hunks, patch_jobs,
    revert_file, revert_sides, set_reverted, visible_changes, DiffCue, FileEdit,
};
use commedit_gtk::model::{ChangeKind, CombinedFile, FileChange, HunkInfo};

fn modified(path: &str, old: &str, new: &str) -> FileChange {
    FileChange {
        path: path.to_string(),
        kind: ChangeKind::Modified,
        old_text: Some(old.to_string()),
        new_text: Some(new.to_string()),
        is_binary: false,
        conflicted_base: false,
    }
}

fn added(path: &str, new: &str) -> FileChange {
    FileChange {
        path: path.to_string(),
        kind: ChangeKind::Added,
        old_text: None,
        new_text: Some(new.to_string()),
        is_binary: false,
        conflicted_base: false,
    }
}

fn removed(path: &str, old: &str) -> FileChange {
    FileChange {
        path: path.to_string(),
        kind: ChangeKind::Removed,
        old_text: Some(old.to_string()),
        new_text: None,
        is_binary: false,
        conflicted_base: false,
    }
}

fn placed(path: &str, start_line: usize, hunks: Vec<HunkInfo>) -> CombinedFile {
    CombinedFile {
        path: path.to_string(),
        start_line,
        editable: true,
        hunks,
    }
}

fn hunk(header_line: usize, hidden: bool) -> HunkInfo {
    HunkInfo {
        header_line,
        first_group: 0,
        last_group: 0,
        can_expand_up: hidden,
        can_expand_down: hidden,
    }
}

/// Buffer line index of the first `@@` header in a diff.
fn first_hunk_line(text: &str) -> usize {
    text.split('\n').position(|l| l.starts_with("@@")).unwrap()
}

#[test]
fn diff_cue_cells_mark_expand_and_revert_on_one_header() {
    // A 12-line file with one mid edit leaves hidden context both ways: the @@
    // header gets both an expand cell and a revert cell, and the click target
    // resolves to that file's hunk.
    let old: String = (1..=12).map(|n| format!("l{n}\n")).collect();
    let new = old.replace("l6\n", "L6\n");
    let changes = vec![modified("f", &old, &new)];
    let text = "\
diff --git a/f b/f
--- a/f
+++ b/f
@@ -3,7 +3,7 @@
 l3
 l4
 l5
-l6
+L6
 l7
 l8
 l9
";
    let files = vec![placed("f", 0, vec![hunk(3, true)])];
    let (expand, revert) = diff_cues::diff_cue_cells(text, &files, &changes, false);
    let li = first_hunk_line(text);
    assert!(expand[li].is_some(), "expandable header");
    assert!(revert[li].is_some(), "revertable hunk");
    assert!(matches!(diff_cues::hunk_target(text, &files, li), Some((_, _, ref p)) if p == "f"));
}

#[test]
fn diff_cue_cells_revert_without_expand_on_a_full_hunk() {
    // A 3-line file with one change has no hidden context: no expand cell, but
    // still a revert cell, on the @@ header.
    let changes = vec![modified("f", "a\nb\nc\n", "a\nB\nc\n")];
    let text = "diff --git a/f b/f\n--- a/f\n+++ b/f\n@@ -1,3 +1,3 @@\n a\n-b\n+B\n c\n";
    let files = vec![placed("f", 0, vec![hunk(3, false)])];
    let (expand, revert) = diff_cues::diff_cue_cells(text, &files, &changes, false);
    let li = first_hunk_line(text);
    assert!(expand[li].is_none(), "no hidden context");
    assert!(revert[li].is_some());
}

fn two_line_diff() -> (&'static str, Vec<CombinedFile>) {
    (
        "diff --git a/f b/f\n--- a/f\n+++ b/f\n@@ -1,2 +1,2 @@\n a\n-b\n+B\n",
        vec![placed("f", 0, vec![hunk(3, false)])],
    )
}

#[test]
fn diff_cue_cells_revert_file_rides_the_diff_git_line() {
    let changes = vec![modified("f", "a\nb\n", "a\nB\n")];
    let (text, files) = two_line_diff();
    let (_expand, revert) = diff_cues::diff_cue_cells(text, &files, &changes, false);
    let sep = files[0].start_line;
    assert!(text
        .split('\n')
        .nth(sep)
        .unwrap()
        .starts_with("diff --git "));
    assert!(revert[sep].is_some(), "revert-file cell on the separator");
    assert_eq!(
        diff_cues::file_target(text, &files, sep).as_deref(),
        Some("f")
    );
}

#[test]
fn diff_cue_cells_read_only_suppresses_reverts() {
    let changes = vec![modified("f", "a\nb\n", "a\nB\n")];
    let (text, files) = two_line_diff();
    let (_e, revert) = diff_cues::diff_cue_cells(text, &files, &changes, true);
    assert!(
        revert.iter().all(Option::is_none),
        "no revert cues when read-only"
    );
}

#[test]
fn added_file_gets_a_file_revert_cue_but_no_hunk_revert_cue() {
    // An added file's whole change can be dropped (revert file -> delete), but
    // a *hunk* revert needs an old side, so it's not offered.
    let changes = vec![added("new.txt", "x\ny\n")];
    let text = "diff --git a/new.txt b/new.txt\n--- /dev/null\n+++ b/new.txt\n@@ -0,0 +1,2 @@\n+x\n+y\n";
    let files = vec![placed("new.txt", 0, vec![hunk(3, false)])];
    let (_e, revert) = diff_cues::diff_cue_cells(text, &files, &changes, false);
    let sep = files[0].start_line;
    assert!(revert[sep].is_some(), "revert-file on the separator");
    for (i, l) in text.split('\n').enumerate() {
        if l.starts_with("@@") {
            assert!(revert[i].is_none(), "no hunk revert for an added file");
        }
    }
}

#[test]
fn removed_file_gets_a_file_revert_cue() {
    // A removed file has no hunks (it renders as a notice) but still a change
    // to undo, so the revert-file cell rides its `diff --git` separator.
    let changes = vec![removed("gone.txt", "a\nb\n")];
    let text = "diff --git a/gone.txt b/gone.txt\nfile removed\n";
    let files = vec![placed("gone.txt", 0, vec![])];
    let (_e, revert) = diff_cues::diff_cue_cells(text, &files, &changes, false);
    let sep = files[0].start_line;
    assert!(revert[sep].is_some());
    assert_eq!(
        diff_cues::file_target(text, &files, sep).as_deref(),
        Some("gone.txt")
    );
}

/// Applies a file revert to every file the way a click does (the rendered new side
/// drops to the old side), and collects what a save would write against the pristine
/// `orig`. A reverted file's patch, if it has one, gives its old side back.
fn revert_file_and_collect(orig: &[FileChange]) -> Vec<FileEdit> {
    let mut render = orig.to_vec();
    for c in orig.iter() {
        revert_file(&mut render, &c.path);
    }
    let patched: Vec<Option<Result<String, String>>> = render
        .iter()
        .map(|c| match (&c.old_text, &c.new_text) {
            (Some(old), Some(_)) => Some(Ok(old.clone())),
            _ => None,
        })
        .collect();
    collect_file_edits(&render, orig, &patched).expect("collect")
}

#[test]
fn reverting_an_added_file_collects_a_delete() {
    let edits = revert_file_and_collect(&[added("new.txt", "x\ny\n")]);
    assert_eq!(edits.len(), 1);
    assert_eq!(edits[0].path, "new.txt");
    assert!(
        edits[0].content.is_none(),
        "an added file's revert deletes it"
    );
}

#[test]
fn reverting_a_removed_file_collects_a_recreate() {
    let edits = revert_file_and_collect(&[removed("gone.txt", "a\nb\n")]);
    assert_eq!(edits.len(), 1);
    assert_eq!(edits[0].path, "gone.txt");
    assert_eq!(edits[0].content.as_deref(), Some("a\nb\n"));
}

#[test]
fn reverting_a_modified_file_collects_the_old_content() {
    let edits = revert_file_and_collect(&[modified("f", "a\nb\n", "a\nB\n")]);
    assert_eq!(edits.len(), 1);
    assert_eq!(edits[0].content.as_deref(), Some("a\nb\n"));
}

#[test]
fn an_untouched_diff_collects_no_edits() {
    // Render the pristine diff and collect against the same baseline: nothing
    // diverges, so a plain reselect (no edits) saves nothing.
    let orig = vec![
        modified("f", "a\nb\n", "a\nB\n"),
        added("new.txt", "x\n"),
        removed("gone.txt", "z\n"),
    ];
    let patched = vec![
        Some(Ok("a\nB\n".to_string())),
        Some(Ok("x\n".to_string())),
        None,
    ];
    let edits = collect_file_edits(&orig, &orig, &patched).expect("collect");
    assert!(edits.is_empty(), "got {edits:?}");
}

#[test]
fn a_reverted_file_dropped_from_the_view_still_collects_its_edit() {
    // Revert the modified file: it has no net change left, so visible_changes
    // drops it from the view (no section). The full render baseline is collected,
    // so the revert is still emitted from `new_text`.
    let orig = vec![modified("f", "a\nb\n", "a\nB\n"), added("n.txt", "x\n")];
    let mut render = orig.clone();
    revert_file(&mut render, &"f".to_string());

    let vis = visible_changes(&render, &orig);
    assert!(
        vis.iter().all(|i| render[*i].path != "f"),
        "f is hidden from the view"
    );
    assert_eq!(vis, [1]);
    let sections = vec![("n.txt".to_string(), "the patch of n".to_string())];
    let jobs = patch_jobs(&sections, &render, &orig);
    assert_eq!(
        jobs,
        vec![None, Some((String::new(), "the patch of n".to_string()))],
        "f has no buffer section"
    );

    let patched = vec![None, Some(Ok("x\n".to_string()))];
    let edits = collect_file_edits(&render, &orig, &patched).expect("collect");
    let f = edits
        .iter()
        .find(|e| e.path == "f")
        .expect("f edit present");
    assert_eq!(f.content.as_deref(), Some("a\nb\n"));
    assert_eq!(edits.len(), 1);
}

#[test]
fn visible_changes_keeps_a_mode_only_no_change_file() {
    // A file that already had no textual change at load (e.g. a mode-only
    // change) isn't a revert, so it stays visible.
    let orig = vec![modified("m", "same\n", "same\n")];
    let vis = visible_changes(&orig, &orig);
    assert_eq!(vis.len(), 1);
}

#[test]
fn a_patch_that_does_not_apply_names_its_file() {
    let orig = vec![modified("a", "1\n", "2\n"), modified("b", "1\n", "2\n")];
    let patched = vec![
        Some(Ok("2\n".to_string())),
        Some(Err("line 3 does not match".to_string())),
    ];
    assert_eq!(
        collect_file_edits(&orig, &orig, &patched),
        Err("Cannot apply edited patch for b: line 3 does not match".to_string())
    );
}

#[test]
fn a_missing_final_newline_is_no_edit() {
    let orig = vec![modified("f", "a", "b")];
    // Patching ends every text with a line break.
    let patched = vec![Some(Ok("b\n".to_string()))];
    assert_eq!(collect_file_edits(&orig, &orig, &patched), Ok(vec![]));
    // An edit is one all the same.
    let patched = vec![Some(Ok("c\n".to_string()))];
    let edits = collect_file_edits(&orig, &orig, &patched).unwrap();
    assert_eq!(edits[0].content.as_deref(), Some("c"));
}

#[test]
fn binary_and_conflicted_files_are_never_edited() {
    let mut binary = modified("b", "1", "2");
    binary.is_binary = true;
    let mut base = modified("c", "1", "2");
    base.conflicted_base = true;
    let orig = vec![binary, base];
    let sections = vec![
        ("b".to_string(), "p".to_string()),
        ("c".to_string(), "p".to_string()),
    ];
    assert_eq!(patch_jobs(&sections, &orig, &orig), vec![None, None]);
    let patched = vec![Some(Ok("x".to_string())), Some(Ok("x".to_string()))];
    assert_eq!(collect_file_edits(&orig, &orig, &patched), Ok(vec![]));
}

#[test]
fn the_last_section_of_a_path_counts() {
    let orig = vec![modified("f", "1\n", "2\n")];
    let sections = vec![
        ("f".to_string(), "first".to_string()),
        ("f".to_string(), "second".to_string()),
    ];
    assert_eq!(
        patch_jobs(&sections, &orig, &orig),
        vec![Some(("1\n".to_string(), "second".to_string()))]
    );
}

#[test]
fn a_reverted_hunk_replaces_the_new_side() {
    let mut changes = vec![modified("f", "a\nb\n", "A\nB\n"), added("n", "x\n")];
    assert_eq!(
        revert_sides(&changes, &"f".to_string()),
        Some(("a\nb\n".to_string(), "A\nB\n".to_string()))
    );
    assert_eq!(
        revert_sides(&changes, &"n".to_string()),
        Some((String::new(), "x\n".to_string()))
    );
    assert_eq!(revert_sides(&changes, &"gone".to_string()), None);
    set_reverted(&mut changes, &"f".to_string(), "a\nB\n".to_string());
    assert_eq!(changes[0].new_text.as_deref(), Some("a\nB\n"));
    assert_eq!(changes[0].old_text.as_deref(), Some("a\nb\n"));
    assert_eq!(changes[1].new_text.as_deref(), Some("x\n"));
}

#[test]
fn clicks_in_the_gutter_find_their_button() {
    let (text, files) = two_line_diff();
    assert_eq!(
        cue_at_old(text, &files, 3),
        Some((DiffCue::Expand(0, 0), "f".to_string()))
    );
    assert_eq!(cue_at_old(text, &files, 0), None);
    assert_eq!(
        cue_at_new(text, &files, 3),
        Some((DiffCue::RevertHunk(0, 0), "f".to_string()))
    );
    assert_eq!(
        cue_at_new(text, &files, 0),
        Some((DiffCue::RevertFile, "f".to_string()))
    );
    assert_eq!(cue_at_new(text, &files, 4), None);
}

#[test]
fn the_file_at_a_line_is_that_of_the_last_separator() {
    let text = "note\ndiff --git a/a b/a\n+x\ndiff --git a/b b/b\n+y";
    assert_eq!(diff_file_index_at_line(text, 0), 0);
    assert_eq!(diff_file_index_at_line(text, 1), 0);
    assert_eq!(diff_file_index_at_line(text, 2), 0);
    assert_eq!(diff_file_index_at_line(text, 3), 1);
    assert_eq!(diff_file_index_at_line(text, 4), 1);
    assert_eq!(diff_file_index_at_line(text, 99), 1);
    assert_eq!(diff_file_index_at_line("", 0), 0);
}

#[test]
fn hunks_of_all_files_come_in_order() {
    let files = vec![
        placed("a", 0, vec![hunk(3, true), hunk(9, false)]),
        placed("b", 12, vec![]),
        placed("c", 14, vec![hunk(17, false)]),
    ];
    let lines: Vec<usize> = flatten_hunks(&files).iter().map(|h| h.header_line).collect();
    assert_eq!(lines, [3, 9, 17]);
}
