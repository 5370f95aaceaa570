use commedit_gtk::blame_col::{blame_cells, blame_width, diff_old_refs, BlameCell, FileBlame};
use commedit_gtk::linenums::diff_line_numbers;
use commedit_gtk::model::{CombinedFile, CommitId, CommitInfo};

fn file(path: &str) -> CombinedFile {
    CombinedFile {
        path: path.to_string(),
        // start_line is unused by the blame mapping (it counts live separators).
        start_line: 0,
        editable: true,
        hunks: Vec::new(),
    }
}

#[test]
fn old_refs_map_context_and_removed_lines_per_file() {
    // Two files, matched to their `diff --git` separators by order. Context and
    // `-` lines reference their old-file line (0-based); `+` lines, headers and
    // separators reference nothing.
    let text = "\
diff --git a/x b/x
@@ -1,2 +1,2 @@
 keep
-was
+now
diff --git a/y b/y
@@ -5,1 +5,1 @@
 why";
    let files = [file("x"), file("y")];
    let nums = diff_line_numbers(text);
    assert_eq!(
        diff_old_refs(text, &files, &nums),
        vec![
            None,         // diff --git x
            None,         // @@
            Some((0, 0)), // " keep"  -> file 0, old line 1
            Some((0, 1)), // "-was"   -> file 0, old line 2
            None,         // "+now"
            None,         // diff --git y
            None,         // @@
            Some((1, 4)), // " why"   -> file 1, old line 5
        ],
    );
}

#[test]
fn blame_cells_resolve_only_where_blame_has_the_line() {
    // A context line whose old line has no blame entry stays None.
    let text = "\
diff --git a/x b/x
@@ -1,1 +1,1 @@
 keep";
    let files = [file("x")];
    let nums = diff_line_numbers(text);
    // No blame -> no cells resolve.
    let cells = blame_cells(text, &files, &nums, &[]);
    assert_eq!(cells, vec![None, None, None]);
}

fn commit() -> CommitInfo {
    CommitInfo {
        id: CommitId {
            hex: "0123456789abcdef".to_string(),
        },
        change_id: "kkmpptxz".to_string(),
        subject: "Fix the parser".to_string(),
        description: "Fix the parser\n".to_string(),
        author_name: "Ann".to_string(),
        author_email: "ann@example.org".to_string(),
        committer_name: "Bob".to_string(),
        committer_email: "bob@example.org".to_string(),
        author_time: "2024-01-02 03:04:05 +0000".to_string(),
        committer_time: "2024-01-03 03:04:05 +0000".to_string(),
        parents: vec![],
    }
}

#[test]
fn a_blamed_line_names_its_commit() {
    let text = "diff --git a/x b/x\n@@ -1,2 +1,1 @@\n keep\n-was";
    let files = [file("x")];
    let nums = diff_line_numbers(text);
    let blame = [FileBlame {
        path: "x".to_string(),
        lines: vec![Some(0), None],
        origins: vec![commit()],
    }];
    let cells = blame_cells(text, &files, &nums, &blame);
    assert_eq!(cells[2], Some(BlameCell::from_info(&commit())));
    assert_eq!(cells[2].as_ref().unwrap().short, "01234567");
    assert_eq!(cells[2].as_ref().unwrap().change_id_hex, "kkmpptxz");
    assert_eq!(cells[3], None);
}

#[test]
fn the_column_is_as_wide_as_its_text_and_padding() {
    assert!(blame_width(40) >= 40);
    assert_eq!(blame_width(41) - blame_width(40), 1);
}
