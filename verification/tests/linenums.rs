use commedit_gtk::linenums::{
    conflict_line_numbers, diff_line_numbers, line_counters_fit, parse_hunk_header, DiffLineNo,
    NumColumn,
};
use commedit_gtk::model::{ConflictFileView, ConflictLineKind, ConflictPiece};

fn nums(text: &str) -> Vec<(Option<u32>, Option<u32>)> {
    diff_line_numbers(text)
        .into_iter()
        .map(|n| (n.old, n.new))
        .collect()
}

#[test]
fn context_added_removed() {
    let diff = "\
--- a/f
+++ b/f
@@ -1,3 +1,3 @@
 keep
-was
+now
 tail";
    assert_eq!(
        nums(diff),
        vec![
            (None, None),       // --- a/f
            (None, None),       // +++ b/f
            (None, None),       // @@
            (Some(1), Some(1)), // " keep"
            (Some(2), None),    // "-was"
            (None, Some(2)),    // "+now"
            (Some(3), Some(3)), // " tail"
        ],
    );
}

#[test]
fn second_hunk_reseeds_counters() {
    let diff = "\
@@ -10,2 +20,2 @@
 a
 b
@@ -50,1 +60,2 @@
 c
+d";
    assert_eq!(
        nums(diff),
        vec![
            (None, None),
            (Some(10), Some(20)),
            (Some(11), Some(21)),
            (None, None),
            (Some(50), Some(60)),
            (None, Some(61)),
        ],
    );
}

#[test]
fn two_files_each_reseed() {
    let diff = "\
diff --git a/x b/x
--- a/x
+++ b/x
@@ -1,1 +1,1 @@
 x
diff --git a/y b/y
--- a/y
+++ b/y
@@ -100,1 +100,1 @@
 y";
    assert_eq!(
        nums(diff),
        vec![
            (None, None),           // diff --git x
            (None, None),           // --- a/x
            (None, None),           // +++ b/x
            (None, None),           // @@
            (Some(1), Some(1)),     // " x"
            (None, None),           // diff --git y
            (None, None),           // --- a/y
            (None, None),           // +++ b/y
            (None, None),           // @@
            (Some(100), Some(100)), // " y"
        ],
    );
}

#[test]
fn no_newline_marker_and_pill_suffixed_header() {
    // A `\ No newline` line must not consume a number; a pill appended to the
    // `@@` header must not break parsing.
    let diff = "\
@@ -1,1 +1,2 @@ ◀ revert hunk ▶
-old
\\ No newline at end of file
+new1
+new2";
    assert_eq!(
        nums(diff),
        vec![
            (None, None),    // @@ … ◀ revert hunk ▶
            (Some(1), None), // "-old"
            (None, None),    // "\ No newline…"
            (None, Some(1)), // "+new1"
            (None, Some(2)), // "+new2"
        ],
    );
}

#[test]
fn empty_and_synthetic_lines_are_unnumbered() {
    // Empty diff (just a synthetic header) — nothing numbered, no panic.
    assert_eq!(nums(""), vec![(None, None)]);
    assert_eq!(nums("── annotations ──"), vec![(None, None)]);
}

#[test]
fn added_file_zero_old_start() {
    let diff = "\
@@ -0,0 +1,2 @@
+line1
+line2";
    assert_eq!(
        nums(diff),
        vec![(None, None), (None, Some(1)), (None, Some(2))],
    );
}

// --- conflict_line_numbers ---

/// What each line of a text with two-sided conflict markers belongs to.
fn kinds_of(full_text: &str) -> Vec<ConflictLineKind> {
    let mut side = ConflictLineKind::Plain;
    let mut out = Vec::new();
    for line in full_text.split('\n') {
        if line.starts_with("<<<<<<<") {
            side = ConflictLineKind::Ours;
            out.push(ConflictLineKind::MarkerOurs);
        } else if line.starts_with("=======") && side == ConflictLineKind::Ours {
            side = ConflictLineKind::Theirs;
            out.push(ConflictLineKind::MarkerSep);
        } else if line.starts_with(">>>>>>>") {
            side = ConflictLineKind::Plain;
            out.push(ConflictLineKind::MarkerTheirs);
        } else {
            out.push(side);
        }
    }
    out
}

fn cfv(full_text: &str, pieces: Vec<ConflictPiece>, resolvable: bool) -> ConflictFileView {
    ConflictFileView {
        path: "f".to_string(),
        resolvable,
        marker_len: 7,
        full_text: full_text.to_string(),
        kinds: kinds_of(full_text),
        pieces,
        gaps: Vec::new(),
    }
}

fn conflict_nums(view: &[ConflictFileView]) -> Vec<(Option<u32>, Option<u32>)> {
    conflict_line_numbers(view)
        .into_iter()
        .map(|n| (n.old, n.new))
        .collect()
}

#[test]
fn conflict_numbers_count_each_side() {
    // ours file: ctx1 ctx2 our1 ctx3 = 1..4; theirs file: ctx1 ctx2 their1
    // their2 ctx3 = 1..5. Markers and the header carry no number.
    let ft = "ctx1\nctx2\n<<<<<<<\nour1\n=======\ntheir1\ntheir2\n>>>>>>>\nctx3";
    let fv = cfv(ft, vec![ConflictPiece::Shown { lines: 9 }], true);
    assert_eq!(
        conflict_nums(&[fv]),
        vec![
            (None, None),       // ─── header ───
            (Some(1), Some(1)), // ctx1
            (Some(2), Some(2)), // ctx2
            (None, None),       // <<<<<<<
            (Some(3), None),    // our1
            (None, None),       // =======
            (None, Some(3)),    // their1
            (None, Some(4)),    // their2
            (None, None),       // >>>>>>>
            (Some(4), Some(5)), // ctx3
        ],
    );
}

#[test]
fn conflict_numbers_continue_across_an_elided_run() {
    // Nine plain lines, the middle three elided behind one cue line: numbers
    // jump from 3 to 7 across the cue, staying continuous.
    let ft = (1..=9)
        .map(|n| format!("l{n}"))
        .collect::<Vec<_>>()
        .join("\n");
    let pieces = vec![
        ConflictPiece::Shown { lines: 3 },
        ConflictPiece::Elided {
            lines: vec!["l4".into(), "l5".into(), "l6".into()],
        },
        ConflictPiece::Shown { lines: 3 },
    ];
    assert_eq!(
        conflict_nums(&[cfv(&ft, pieces, true)]),
        vec![
            (None, None),       // ─── header ───
            (Some(1), Some(1)), // l1
            (Some(2), Some(2)), // l2
            (Some(3), Some(3)), // l3
            (None, None),       // ↕ elision cue (hidden l4..l6)
            (Some(7), Some(7)), // l7
            (Some(8), Some(8)), // l8
            (Some(9), Some(9)), // l9
        ],
    );
}

#[test]
fn conflict_numbers_reset_per_file_and_skip_structural() {
    // First file numbered, second (structural) is just header + notice, third
    // restarts its counters at 1.
    let a = cfv("a1\na2", vec![ConflictPiece::Shown { lines: 2 }], true);
    let b = cfv("", Vec::new(), false);
    let c = cfv("c1", vec![ConflictPiece::Shown { lines: 1 }], true);
    assert_eq!(
        conflict_nums(&[a, b, c]),
        vec![
            (None, None),       // header a
            (Some(1), Some(1)), // a1
            (Some(2), Some(2)), // a2
            (None, None),       // header b
            (None, None),       // structural notice
            (None, None),       // header c
            (Some(1), Some(1)), // c1 (counters reset)
        ],
    );
}

#[test]
fn header_starts_are_read() {
    assert_eq!(parse_hunk_header("@@ -1,3 +4,5 @@ fn main()"), Some((1, 4)));
    assert_eq!(parse_hunk_header("@@ -7 +9 @@"), Some((7, 9)));
    assert_eq!(parse_hunk_header("@@ -+7 +9"), Some((7, 9)));
    assert_eq!(parse_hunk_header("@@@ -7 +9"), None);
    assert_eq!(parse_hunk_header("@@ -7"), None);
    assert_eq!(parse_hunk_header("@@ 7 +9"), None);
    assert_eq!(parse_hunk_header("@@ -4294967296 +9"), None);
    assert_eq!(parse_hunk_header("@@ -4294967295,0 +0,0 @@"), Some((4294967295, 0)));
    assert_eq!(parse_hunk_header("- +"), None);
}

#[test]
fn counters_that_do_not_fit_are_noticed() {
    assert!(line_counters_fit("@@ -1 +1 @@\n a"));
    assert!(line_counters_fit("@@ -4294967295 +1 @@\n+a"));
    assert!(!line_counters_fit("@@ -4294967295 +1 @@\n a"));
    assert!(!line_counters_fit("@@ -1 +4294967295 @@\n+a"));
}

#[test]
fn numbers_run_on_inside_a_hunk() {
    // Between two lines of one hunk each side moves on by its own lines.
    let n = nums("@@ -10,5 +20,5 @@\n a\n-b\n-c\n+d\n e");
    assert_eq!(n[1], (Some(10), Some(20)));
    assert_eq!(n[5], (Some(13), Some(22)));
}

#[test]
fn base_and_marker_lines_count_on_neither_side() {
    let fv = ConflictFileView {
        path: "f".to_string(),
        resolvable: true,
        marker_len: 7,
        full_text: String::new(),
        kinds: vec![
            ConflictLineKind::MarkerOurs,
            ConflictLineKind::Ours,
            ConflictLineKind::MarkerBase,
            ConflictLineKind::Base,
            ConflictLineKind::MarkerSep,
            ConflictLineKind::Theirs,
            ConflictLineKind::MarkerTheirs,
            ConflictLineKind::Plain,
        ],
        pieces: vec![ConflictPiece::Shown { lines: 9 }],
        gaps: Vec::new(),
    };
    assert_eq!(
        conflict_nums(&[fv]),
        vec![
            (None, None),
            (None, None),
            (Some(1), None),
            (None, None),
            (None, None),
            (None, None),
            (None, Some(1)),
            (None, None),
            (Some(2), Some(2)),
            (None, None), // a shown line behind the end of the text
        ],
    );
}

#[test]
fn defaults_of_numbers_and_columns() {
    assert_eq!(DiffLineNo::default(), DiffLineNo { old: None, new: None });
    assert_eq!(NumColumn::default(), NumColumn::New);
}

#[test]
fn expanding_a_hidden_run_keeps_the_other_numbers() {
    let file = |pieces| ConflictFileView {
        path: "f".to_string(),
        resolvable: true,
        marker_len: 7,
        full_text: String::new(),
        kinds: vec![
            ConflictLineKind::Plain,
            ConflictLineKind::Plain,
            ConflictLineKind::Plain,
            ConflictLineKind::MarkerOurs,
            ConflictLineKind::Ours,
            ConflictLineKind::MarkerTheirs,
            ConflictLineKind::Plain,
        ],
        pieces,
        gaps: vec![],
    };
    let hidden = conflict_line_numbers(&[file(vec![
        ConflictPiece::Shown { lines: 1 },
        ConflictPiece::Elided {
            lines: vec!["x".to_string(), "y".to_string()],
        },
        ConflictPiece::Shown { lines: 4 },
    ])]);
    let shown = conflict_line_numbers(&[file(vec![
        ConflictPiece::Shown { lines: 1 },
        ConflictPiece::Shown { lines: 2 },
        ConflictPiece::Shown { lines: 4 },
    ])]);
    assert_eq!(shown.len(), hidden.len() + 1);
    assert_eq!(shown[..2], hidden[..2]);
    assert_eq!(shown[4..], hidden[3..]);
    assert_eq!(shown[3].old, Some(3));
    assert_eq!(hidden[6].old, Some(5));
    assert_eq!(hidden[6].new, Some(4));
}
