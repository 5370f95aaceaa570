use commedit_gtk::conflict::{conflict_header_line, CONFLICT_ELISION_LINE};
use commedit_gtk::highlight::{
    apply_code_spans, apply_trailing_ws, conflict_bg_tag, fg_tag_name, highlight_conflict,
    highlight_diff, highlight_diff_line, line_bg_tag, Paint,
};
use commedit_gtk::ink::{Palette, Span, THEME_NAME};
use commedit_gtk::model::{ConflictLineKind, DiffLine, DiffLineKind};
use syntect::easy::HighlightLines;
use syntect::highlighting::ThemeSet;
use syntect::parsing::SyntaxSet;

fn line(kind: DiffLineKind) -> DiffLine {
    DiffLine {
        kind,
        intra: vec![],
    }
}

fn diff(kinds: &[DiffLineKind]) -> Vec<DiffLine> {
    kinds.iter().map(|k| line(*k)).collect()
}

fn whole(line: usize, tag: &str) -> Paint {
    Paint {
        line,
        cols: None,
        tag: tag.to_string(),
    }
}

fn cols(line: usize, from: usize, to: usize, tag: &str) -> Paint {
    Paint {
        line,
        cols: Some((from, to)),
        tag: tag.to_string(),
    }
}

/// The colours of the last of `lines` in the syntax for `ext`, as paints of `row`
/// whose code begins at column `prefix`.
fn colours(ext: &str, lines: &[&str], row: usize, prefix: usize) -> Vec<Paint> {
    let set = SyntaxSet::load_defaults_newlines();
    let themes = ThemeSet::load_defaults();
    let syntax = set
        .find_syntax_by_extension(ext)
        .unwrap_or_else(|| set.find_syntax_plain_text());
    let mut h = HighlightLines::new(syntax, &themes.themes[THEME_NAME]);
    let mut out = Vec::new();
    for (i, l) in lines.iter().enumerate() {
        let text = format!("{l}\n");
        let spans = h.highlight_line(&text, &set).unwrap();
        if i + 1 == lines.len() {
            let n = l.chars().count();
            let mut at = 0;
            for (style, piece) in spans {
                let to = (at + piece.chars().count()).min(n);
                if at < to {
                    let c = style.foreground;
                    out.push(cols(
                        row,
                        prefix + at,
                        prefix + to,
                        &format!("fg#{:02x}{:02x}{:02x}", c.r, c.g, c.b),
                    ));
                }
                at = to;
            }
        }
    }
    out
}

#[test]
fn bundled_names_are_unique() {
    let set = SyntaxSet::load_defaults_newlines();
    let mut names: Vec<&str> = set.syntaxes().iter().map(|s| s.name.as_str()).collect();
    let count = names.len();
    names.sort();
    names.dedup();
    assert_eq!(names.len(), count);
    assert!(names.contains(&"Plain Text"));
    assert!(ThemeSet::load_defaults().themes.contains_key(THEME_NAME));
}

#[test]
fn tags_follow_the_kind_of_line() {
    assert_eq!(line_bg_tag(DiffLineKind::Added), Some("add-line"));
    assert_eq!(line_bg_tag(DiffLineKind::Removed), Some("del-line"));
    assert_eq!(line_bg_tag(DiffLineKind::Hunk), Some("hunk"));
    assert_eq!(line_bg_tag(DiffLineKind::Header), Some("meta"));
    assert_eq!(line_bg_tag(DiffLineKind::Meta), Some("meta"));
    assert_eq!(line_bg_tag(DiffLineKind::Context), None);
    assert_eq!(conflict_bg_tag(ConflictLineKind::Ours), Some("ours-line"));
    assert_eq!(conflict_bg_tag(ConflictLineKind::Theirs), Some("theirs-line"));
    assert_eq!(conflict_bg_tag(ConflictLineKind::Base), Some("base-line"));
    assert_eq!(conflict_bg_tag(ConflictLineKind::Plain), None);
    for marker in [
        ConflictLineKind::MarkerOurs,
        ConflictLineKind::MarkerBase,
        ConflictLineKind::MarkerSep,
        ConflictLineKind::MarkerTheirs,
    ] {
        assert_eq!(conflict_bg_tag(marker), Some("conflict-marker"));
    }
    assert_eq!(fg_tag_name(0, 15, 255), "fg#000fff");
    assert_eq!(fg_tag_name(0xa7, 0x1d, 0x5d), "fg#a71d5d");
}

#[test]
fn spans_paint_their_columns_only_within_the_code() {
    let span = |text: &str| Span {
        red: 1,
        green: 2,
        blue: 3,
        text: text.to_string(),
    };
    let code: Vec<char> = "añb".chars().collect();
    let mut out = Vec::new();
    apply_code_spans(
        &mut out,
        5,
        1,
        &code,
        &vec![span("a"), span(""), span("ñb\n"), span("x")],
    );
    assert_eq!(
        out,
        [cols(5, 1, 2, "fg#010203"), cols(5, 2, 4, "fg#010203")]
    );
}

#[test]
fn trailing_blanks_are_marked_exactly() {
    let marks = |code: &str| {
        let mut out = Vec::new();
        apply_trailing_ws(&mut out, 0, 1, &code.chars().collect());
        out
    };
    assert!(marks("code").is_empty());
    assert!(marks("").is_empty());
    assert_eq!(marks("code \t"), [cols(0, 5, 7, "trailing-ws")]);
    assert_eq!(marks("  "), [cols(0, 1, 3, "trailing-ws")]);
    assert!(marks("code\u{a0}").is_empty());
}

#[test]
fn code_is_coloured_as_its_language() {
    let palette = Palette::load();
    let text = "--- a/f.rs\n+++ b/f.rs\n@@ -1,2 +1,2 @@\n fn main() {\n-    old();\n+    let x = 1;  \n";
    let kinds = diff(&[
        DiffLineKind::Header,
        DiffLineKind::Header,
        DiffLineKind::Hunk,
        DiffLineKind::Context,
        DiffLineKind::Removed,
        DiffLineKind::Added,
    ]);
    let got = highlight_diff(&palette, text, &kinds, None);
    let mut want = vec![whole(0, "meta"), whole(1, "meta"), whole(2, "hunk")];
    want.extend(colours("rs", &["fn main() {"], 3, 1));
    want.push(whole(4, "del-line"));
    want.extend(colours("rs", &["fn main() {", "    old();"], 4, 1));
    want.push(whole(5, "add-line"));
    want.extend(colours("rs", &["fn main() {", "    let x = 1;  "], 5, 1));
    want.push(cols(5, 15, 17, "trailing-ws"));
    assert_eq!(got, want);
    // A keyword has a colour of its own.
    assert!(got.iter().filter(|p| p.line == 3).count() > 1);
}

#[test]
fn an_open_comment_does_not_bleed_into_the_next_hunk() {
    let palette = Palette::load();
    let kinds = diff(&[
        DiffLineKind::Hunk,
        DiffLineKind::Added,
        DiffLineKind::Hunk,
        DiffLineKind::Context,
    ]);
    let got = highlight_diff(&palette, "@@\n+/* open\n@@\n let x = 1;", &kinds, Some("f.rs"));
    let last: Vec<Paint> = got.into_iter().filter(|p| p.line == 3).collect();
    assert_eq!(last, colours("rs", &["let x = 1;"], 3, 1));
}

#[test]
fn every_section_has_its_own_language() {
    let palette = Palette::load();
    let kinds = diff(&[
        DiffLineKind::Header,
        DiffLineKind::Context,
        DiffLineKind::Header,
        DiffLineKind::Context,
        DiffLineKind::Header,
        DiffLineKind::Context,
    ]);
    let text = "--- a/f.rs\n def f(): pass\n--- a/f.py\n def f(): pass\n--- a/unknown.zzz\n def f(): pass";
    let got = highlight_diff(&palette, text, &kinds, None);
    let at = |i: usize| got.iter().filter(|p| p.line == i).cloned().collect::<Vec<_>>();
    assert_eq!(at(1), colours("rs", &["def f(): pass"], 1, 1));
    assert_eq!(at(3), colours("py", &["def f(): pass"], 3, 1));
    assert_eq!(at(5), colours("txt", &["def f(): pass"], 5, 1));
    assert_ne!(at(1).len(), at(3).len());
}

#[test]
fn changed_words_are_emphasised_by_characters() {
    let palette = Palette::load();
    let mut added = line(DiffLineKind::Added);
    // "né" stands at the bytes 6 to 9 of "été née", but is its characters 4 and 5.
    added.intra = vec![(6, 9)];
    let mut removed = line(DiffLineKind::Removed);
    removed.intra = vec![(0, 3)];
    let got = highlight_diff(&palette, "-abc\n+été née\n", &[removed, added], None);
    assert!(got.contains(&cols(0, 1, 4, "del-word")));
    assert!(got.contains(&cols(1, 5, 7, "add-word")));
}

#[test]
fn a_line_under_edit_is_painted_alone() {
    let palette = Palette::load();
    let got = highlight_diff_line(
        &palette,
        7,
        "+let x = 1; \n",
        Some(DiffLineKind::Added),
        Some("f.rs"),
    );
    let mut want = vec![whole(7, "add-line")];
    want.extend(colours("rs", &["let x = 1; "], 7, 1));
    want.push(cols(7, 11, 12, "trailing-ws"));
    assert_eq!(got, want);
    assert_eq!(
        highlight_diff_line(&palette, 0, " x", None, None),
        colours("txt", &["x"], 0, 1)
    );
    assert_eq!(
        highlight_diff_line(&palette, 0, "@@ @@", Some(DiffLineKind::Hunk), None),
        [whole(0, "hunk")]
    );
}

#[test]
fn a_conflict_is_coloured_side_by_side() {
    let palette = Palette::load();
    let header = conflict_header_line("f.rs");
    let text = format!("{header}\n{CONFLICT_ELISION_LINE}\n/* top\n<<<<<<<\nlet a = 1;\n=======\nlet b = 2;\n>>>>>>>\nend");
    let kinds = [
        ConflictLineKind::Plain,
        ConflictLineKind::Plain,
        ConflictLineKind::Plain,
        ConflictLineKind::MarkerOurs,
        ConflictLineKind::Ours,
        ConflictLineKind::MarkerSep,
        ConflictLineKind::Theirs,
        ConflictLineKind::MarkerTheirs,
        ConflictLineKind::Plain,
    ];
    let got = highlight_conflict(&palette, &text, &kinds, None);
    let mut want = vec![whole(0, "hunk"), whole(1, "meta")];
    want.extend(colours("rs", &["/* top"], 2, 0));
    want.push(whole(3, "conflict-marker"));
    want.push(whole(4, "ours-line"));
    want.extend(colours("rs", &["let a = 1;"], 4, 0));
    want.push(whole(5, "conflict-marker"));
    want.push(whole(6, "theirs-line"));
    want.extend(colours("rs", &["let b = 2;"], 6, 0));
    want.push(whole(7, "conflict-marker"));
    want.extend(colours("rs", &["end"], 8, 0));
    assert_eq!(got, want);
}
