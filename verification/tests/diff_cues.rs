use commedit_gtk::diff_cues::split_hunk_at;
use commedit_gtk::linenums::{diff_line_numbers, DiffLineNo};
use commedit_gtk::model::{CombinedFile, HunkInfo};

fn is_hunk_header(l: &str) -> bool {
    l.starts_with("@@")
}

/// Build a `HunkInfo` with both expand flags on, so the split's flag handling
/// (up stays on hunk1, down on hunk2) is exercised.
fn hunk(header_line: usize, first_group: usize, last_group: usize) -> HunkInfo {
    HunkInfo {
        header_line,
        first_group,
        last_group,
        can_expand_up: true,
        can_expand_down: true,
    }
}

fn file(path: &str, start_line: usize, hunks: Vec<HunkInfo>) -> CombinedFile {
    CombinedFile {
        path: path.to_string(),
        start_line,
        editable: true,
        hunks,
    }
}

/// The `@@` header lines of a rendered diff, in order.
fn headers(text: &str) -> Vec<&str> {
    text.split('\n').filter(|l| is_hunk_header(l)).collect()
}

#[test]
fn split_two_group_hunk_at_separating_context() {
    // Groups {-a,+A} and {-d,+D}, split at the second context line " c".
    let text = "\
diff --git a/f b/f
--- a/f
+++ b/f
@@ -1,4 +1,4 @@
-a
+A
 b
 c
-d
+D";
    let files = vec![file("f", 0, vec![hunk(3, 0, 1)])];
    // " c" is buffer line 7.
    let (new_text, new_files) = split_hunk_at(text, &files, 7).unwrap();

    assert_eq!(
        headers(&new_text),
        vec!["@@ -1,2 +1,2 @@", "@@ -3,2 +3,2 @@"]
    );
    // The inserted header sits just before the (now shifted) split line.
    let lines: Vec<&str> = new_text.split('\n').collect();
    assert_eq!(lines[7], "@@ -3,2 +3,2 @@");
    assert_eq!(lines[8], " c");

    assert_eq!(new_files.len(), 1);
    let h = &new_files[0].hunks;
    assert_eq!(h.len(), 2);
    assert_eq!(
        (h[0].header_line, h[0].first_group, h[0].last_group),
        (3, 0, 0)
    );
    assert_eq!(
        (h[1].header_line, h[1].first_group, h[1].last_group),
        (7, 1, 1)
    );
    // Expand flags: outer edges keep the original's, the inner edges close off.
    assert_eq!((h[0].can_expand_up, h[0].can_expand_down), (true, false));
    assert_eq!((h[1].can_expand_up, h[1].can_expand_down), (false, true));
    assert_eq!(new_files[0].start_line, 0);
}

#[test]
fn split_three_group_hunk_at_first_context() {
    // Groups {-a,+A}, {-c,+C}, {-e,+E}; split at the first inter-group context
    // " b" (line 6) -> hunk1 covers 1 group, hunk2 covers 2.
    let text = "\
diff --git a/g b/g
--- a/g
+++ b/g
@@ -1,5 +1,5 @@
-a
+A
 b
-c
+C
 d
-e
+E";
    let files = vec![file("g", 0, vec![hunk(3, 0, 2)])];
    let (new_text, new_files) = split_hunk_at(text, &files, 6).unwrap();

    assert_eq!(
        headers(&new_text),
        vec!["@@ -1,1 +1,1 @@", "@@ -2,4 +2,4 @@"]
    );
    let h = &new_files[0].hunks;
    assert_eq!(h.len(), 2);
    assert_eq!(
        (h[0].header_line, h[0].first_group, h[0].last_group),
        (3, 0, 0)
    );
    assert_eq!(
        (h[1].header_line, h[1].first_group, h[1].last_group),
        (6, 1, 2)
    );
}

#[test]
fn split_second_file_shifts_only_below() {
    // Three files; split file b's first hunk. File a is untouched, file b's
    // later hunk and file c (header + start_line) shift down by the inserted
    // line.
    let text = "\
diff --git a/a b/a
--- a/a
+++ b/a
@@ -1,2 +1,2 @@
-p
+P
 q
diff --git a/b b/b
--- a/b
+++ b/b
@@ -1,3 +1,3 @@
-m
+M
 n
-o
+O
@@ -20,2 +20,2 @@
-r
+R
 s
diff --git a/c b/c
--- a/c
+++ b/c
@@ -1,2 +1,2 @@
-z
+Z
 w";
    let files = vec![
        file("a", 0, vec![hunk(3, 0, 0)]),
        file("b", 7, vec![hunk(10, 0, 1), hunk(16, 2, 2)]),
        file("c", 20, vec![hunk(23, 0, 0)]),
    ];
    // " n" in file b's first hunk is buffer line 13.
    let (new_text, new_files) = split_hunk_at(text, &files, 13).unwrap();

    assert_eq!(
        headers(&new_text),
        vec![
            "@@ -1,2 +1,2 @@",   // file a, untouched
            "@@ -1,1 +1,1 @@",   // file b hunk1 (split)
            "@@ -2,2 +2,2 @@",   // file b hunk2 (split)
            "@@ -20,2 +20,2 @@", // file b's original second hunk
            "@@ -1,2 +1,2 @@",   // file c, untouched
        ],
    );

    // File a: entirely untouched.
    assert_eq!(new_files[0].start_line, 0);
    assert_eq!(new_files[0].hunks[0].header_line, 3);

    // File b: unchanged separator; three hunks now, the original second one
    // bumped by the inserted line.
    assert_eq!(new_files[1].start_line, 7);
    let hb = &new_files[1].hunks;
    assert_eq!(hb.len(), 3);
    assert_eq!(
        (hb[0].header_line, hb[0].first_group, hb[0].last_group),
        (10, 0, 0)
    );
    assert_eq!(
        (hb[1].header_line, hb[1].first_group, hb[1].last_group),
        (13, 1, 1)
    );
    assert_eq!(
        (hb[2].header_line, hb[2].first_group, hb[2].last_group),
        (17, 2, 2)
    );

    // File c: separator and hunk both shift down by one.
    assert_eq!(new_files[2].start_line, 21);
    assert_eq!(new_files[2].hunks[0].header_line, 24);
}

#[test]
fn ineligible_split_points_return_none() {
    // A single-group hunk with leading and trailing context.
    let text = "\
diff --git a/f b/f
--- a/f
+++ b/f
@@ -1,3 +1,3 @@
 head
-x
+X
 tail";
    let files = vec![file("f", 0, vec![hunk(3, 0, 0)])];

    // On the `@@` header line.
    assert!(split_hunk_at(text, &files, 3).is_none());
    // On a change line ('-' then '+').
    assert!(split_hunk_at(text, &files, 5).is_none());
    assert!(split_hunk_at(text, &files, 6).is_none());
    // Leading context (before any change group).
    assert!(split_hunk_at(text, &files, 4).is_none());
    // Trailing context (after the only change group).
    assert!(split_hunk_at(text, &files, 7).is_none());
    // Out of range.
    assert!(split_hunk_at(text, &files, 999).is_none());
}

#[test]
fn preserves_section_heading_suffix_on_first_hunk() {
    // The original header carries a `@@ … fn thing()` suffix; only hunk1 keeps
    // it. Also checks trailing-newline preservation.
    let text = "\
diff --git a/f b/f
--- a/f
+++ b/f
@@ -1,4 +1,4 @@ fn thing()
-a
+A
 b
 c
-d
+D
";
    let files = vec![file("f", 0, vec![hunk(3, 0, 1)])];
    let (new_text, _) = split_hunk_at(text, &files, 7).unwrap();
    assert_eq!(
        headers(&new_text),
        vec!["@@ -1,2 +1,2 @@ fn thing()", "@@ -3,2 +3,2 @@"],
    );
    // The trailing newline survives the round-trip.
    assert!(new_text.ends_with("+D\n"));
}

#[test]
fn neutral_no_newline_line_does_not_split_a_group() {
    // A `\ No newline at end of file` between the two change lines is neutral:
    // they stay one group, so the only real split is at the inter-group context.
    let text = "\
diff --git a/f b/f
--- a/f
+++ b/f
@@ -1,4 +1,3 @@
-a
\\ No newline at end of file
+A
 b
 c
-d";
    let files = vec![file("f", 0, vec![hunk(3, 0, 1)])];
    // " c" at buffer line 8 sits between the {-a,+A} run and {-d} run.
    let (new_text, new_files) = split_hunk_at(text, &files, 8).unwrap();
    // hunk1 = a,b old / A,b new; hunk2 = c,d old / c new. The `\` line is not
    // counted on either side (and doesn't break the {-a,+A} run).
    assert_eq!(
        headers(&new_text),
        vec!["@@ -1,2 +1,2 @@", "@@ -3,2 +3,1 @@"]
    );
    assert_eq!(new_files[0].hunks.len(), 2);
}

#[test]
fn a_split_keeps_the_rest_of_the_diff() {
    let text = "\
diff --git a/f b/f
--- a/f
+++ b/f
@@ -10,5 +20,6 @@ fn f()
-a
+A
 b
+new
 c
-d
+D
@@ -40 +50 @@
-x
+X";
    let files = vec![file("f", 0, vec![hunk(3, 0, 2), hunk(11, 3, 3)])];
    let cut = 8;
    let (new_text, _) = split_hunk_at(text, &files, cut).unwrap();
    let old: Vec<&str> = text.split('\n').collect();
    let mut new: Vec<&str> = new_text.split('\n').collect();
    assert_eq!(new[cut], "@@ -12,2 +23,2 @@");
    assert_eq!(new[3], "@@ -10,2 +20,3 @@ fn f()");
    let mut numbers = diff_line_numbers(&new_text);
    assert_eq!(numbers[cut], DiffLineNo { old: None, new: None });
    numbers.remove(cut);
    assert_eq!(numbers, diff_line_numbers(text));
    new.remove(cut);
    new[3] = old[3];
    assert_eq!(new, old);
}
