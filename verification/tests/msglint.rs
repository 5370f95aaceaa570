use commedit_gtk::msglint::{
    autofix_subject, description_part, description_start, first_alpha_upper,
    has_lone_trailing_period, has_prefix, is_autogen, is_prefix_token, lint_subject,
    majority_case, prefix_colon, prefix_desc_start, prefix_token, replace_subject, Lint, LintKind,
    RepoStyle,
};

/// A repo whose history clearly uses lowercase `prefix: Capitalized` summaries
/// with no trailing period — like this one. Prefixes recur so they have an
/// established canonical casing (`gtk`, `mcp`, `doc`).
fn prefixed_capitalized_repo() -> RepoStyle {
    RepoStyle::learn(&[
        "gtk: Add the parser",
        "gtk: Fix the crash",
        "mcp: Add a tool",
        "mcp: Wire the handler",
        "doc: Document the API",
        "doc: Note the caveat",
        "engine: Refactor the planner",
        "test: Cover the edge case",
    ])
}

#[test]
fn small_sample_has_no_opinion() {
    let style = RepoStyle::learn(&["fix: a", "feat: b"]);
    assert_eq!(style, RepoStyle::default());
    // And so nothing is ever flagged.
    assert!(lint_subject("whatever lowercase no prefix.", &style).is_empty());
}

#[test]
fn learns_prefix_summary_caps_and_period() {
    let style = prefixed_capitalized_repo();
    assert!(style.requires_prefix);
    assert_eq!(
        style.prefix_casings.get("gtk").map(String::as_str),
        Some("gtk")
    );
    assert_eq!(style.capitalized, Some(true)); // Capitalized summary
    assert!(style.no_trailing_period);
    // A prefix seen only once has no established canonical casing.
    assert!(!style.prefix_casings.contains_key("engine"));
}

#[test]
fn flags_missing_prefix_against_a_prefixed_repo() {
    let style = prefixed_capitalized_repo();
    let kinds: Vec<_> = lint_subject("Tidy the thing", &style)
        .iter()
        .map(|l| l.kind)
        .collect();
    assert_eq!(kinds, vec![LintKind::MissingPrefix]);
}

#[test]
fn flags_lowercase_and_trailing_period() {
    let style = prefixed_capitalized_repo();
    let kinds: Vec<_> = lint_subject("gtk: tidy the thing.", &style)
        .iter()
        .map(|l| l.kind)
        .collect();
    assert_eq!(
        kinds,
        vec![LintKind::Capitalization, LintKind::TrailingPeriod]
    );
}

#[test]
fn conforming_subject_is_clean() {
    let style = prefixed_capitalized_repo();
    assert!(lint_subject("gtk: Tidy the thing", &style).is_empty());
}

#[test]
fn flags_and_fixes_an_uppercase_prefix() {
    let style = prefixed_capitalized_repo();
    // The summary conforms; only the prefix is shouted.
    let kinds: Vec<_> = lint_subject("GTK: Tidy the thing", &style)
        .iter()
        .map(|l| l.kind)
        .collect();
    assert_eq!(kinds, vec![LintKind::PrefixCapitalization]);
    // The whole prefix token is lowercased (an acronym included), not just its
    // first letter — so `MCP:` becomes `mcp:`, never `mCP:`.
    assert_eq!(
        autofix_subject("GTK: Tidy the thing", &style).as_deref(),
        Some("gtk: Tidy the thing")
    );
    assert_eq!(
        autofix_subject("MCP: Add a tool", &style).as_deref(),
        Some("mcp: Add a tool")
    );
}

#[test]
fn capitalized_prefix_repo_flags_and_fixes_a_lowercase_prefix() {
    // Title-case prefixes that recur become the canonical casing.
    let style = RepoStyle::learn(&[
        "Gtk: Add the parser",
        "Gtk: Fix the crash",
        "Mcp: Add a tool",
        "Mcp: Wire the handler",
        "Doc: Document the API",
        "Doc: Note the caveat",
    ]);
    assert_eq!(
        style.prefix_casings.get("gtk").map(String::as_str),
        Some("Gtk")
    );
    let kinds: Vec<_> = lint_subject("gtk: Fix it", &style)
        .iter()
        .map(|l| l.kind)
        .collect();
    assert_eq!(kinds, vec![LintKind::PrefixCapitalization]);
    assert_eq!(
        autofix_subject("gtk: Fix it", &style).as_deref(),
        Some("Gtk: Fix it")
    );
}

#[test]
fn proper_noun_prefixes_are_not_flagged() {
    // A lowercase-prefix repo that *also* uses legitimately-uppercase proper-noun
    // prefixes for specific files (the davici-work case). Each established casing
    // is its own canonical form, learned per token.
    let style = RepoStyle::learn(&[
        "gtk: Add the parser",
        "gtk: Fix the crash",
        "mcp: Add a tool",
        "engine: Refactor it",
        "doc: Document it",
        "NEWS: Note the 1.2 release",
        "NEWS: Note the 1.3 release",
        "README: Document the build",
        "README: Update the badges",
    ]);
    // Proper-noun prefixes match their own canonical casing → never flagged.
    assert!(lint_subject("NEWS: Note the 1.4 release", &style).is_empty());
    assert!(lint_subject("README: Fix a typo", &style).is_empty());
    // A one-off mis-casing of an *established* lowercase token still is.
    assert_eq!(
        lint_subject("GTK: Add a widget", &style)
            .iter()
            .map(|l| l.kind)
            .collect::<Vec<_>>(),
        vec![LintKind::PrefixCapitalization]
    );
    assert_eq!(
        autofix_subject("GTK: Add a widget", &style).as_deref(),
        Some("gtk: Add a widget")
    );
    // A brand-new prefix seen once is left alone — it could be a new proper noun.
    assert!(lint_subject("Makefile: Add a target", &style).is_empty());
}

#[test]
fn autofix_recases_prefix_summary_and_period_together() {
    let style = prefixed_capitalized_repo();
    assert_eq!(
        autofix_subject("GTK: handle it.", &style).as_deref(),
        Some("gtk: Handle it")
    );
}

#[test]
fn lowercase_repo_flags_a_capitalized_summary() {
    // A conventional-commits repo that keeps the summary lowercase.
    let style = RepoStyle::learn(&[
        "fix: handle the null case",
        "feat: add the widget",
        "docs: update the readme",
        "chore: bump deps",
        "refactor: split the module",
        "test: cover the path",
    ]);
    assert_eq!(style.capitalized, Some(false));
    let kinds: Vec<_> = lint_subject("fix: Handle the null case", &style)
        .iter()
        .map(|l| l.kind)
        .collect();
    assert_eq!(kinds, vec![LintKind::Capitalization]);
}

#[test]
fn merges_and_reverts_are_exempt() {
    let style = prefixed_capitalized_repo();
    // Auto-generated, lowercase-ish, no prefix — yet never flagged.
    assert!(lint_subject("Merge branch 'feature/x'", &style).is_empty());
    assert!(lint_subject("Revert \"gtk: Add a thing\"", &style).is_empty());
    assert!(lint_subject("fixup! gtk: Add a thing", &style).is_empty());
}

#[test]
fn mid_sentence_colon_is_not_a_prefix() {
    assert!(!has_prefix("Fix bug: it crashed")); // "Fix bug" has a space
    assert!(!has_prefix("See https://example.com")); // colon not followed by space
    assert!(has_prefix("doc: Something"));
    assert!(has_prefix("feat(api): Something"));
    assert!(has_prefix("wip:")); // empty description, still a prefix
                                 // Multi-subsystem prefixes (the `+` form this repo uses) are real prefixes,
                                 // and the description starts *after* them.
    assert!(has_prefix("history+mcp: Abbreviate emitted commit ids"));
    assert_eq!(
        description_part("gtk+repo: Drop the message"),
        "Drop the message"
    );
}

#[test]
fn autofix_strips_period_and_fixes_case() {
    let style = prefixed_capitalized_repo();
    assert_eq!(
        autofix_subject("gtk: tidy the thing.", &style).as_deref(),
        Some("gtk: Tidy the thing")
    );
}

#[test]
fn autofix_leaves_ellipsis_and_returns_none_when_clean() {
    let style = prefixed_capitalized_repo();
    // An intentional ellipsis is not a stray period.
    assert_eq!(autofix_subject("gtk: More to come...", &style), None);
    // Already conforming → nothing to do.
    assert_eq!(autofix_subject("gtk: Tidy the thing", &style), None);
    // Only a missing prefix (not mechanically fixable) → None.
    assert_eq!(autofix_subject("Tidy the thing", &style), None);
}

#[test]
fn autofix_lowercases_for_a_lowercase_repo() {
    let style = RepoStyle::learn(&[
        "fix: handle the null case",
        "feat: add the widget",
        "docs: update the readme",
        "chore: bump deps",
        "refactor: split the module",
        "test: cover the path",
    ]);
    assert_eq!(
        autofix_subject("fix: Handle it", &style).as_deref(),
        Some("fix: handle it")
    );
}

#[test]
fn too_long_needs_both_repo_outlier_and_git_floor() {
    // A repo of short subjects: cutoff ≈ p90*1.5 but the absolute floor (72)
    // keeps a merely-longer-than-average subject from being flagged.
    let style = RepoStyle::learn(&[
        "doc: Short one",
        "mcp: Another short",
        "gtk: Brief",
        "engine: Tiny",
        "ci: Mini",
        "test: Small",
    ]);
    assert!(style.long_cutoff.is_some());
    // 60 chars: longer than the repo norm but under the git floor → not flagged.
    let medium = format!("gtk: {}", "x".repeat(55));
    assert!(!lint_subject(&medium, &style)
        .iter()
        .any(|l| l.kind == LintKind::TooLong));
    // 90 chars: past both gates → flagged.
    let long = format!("gtk: {}", "x".repeat(85));
    assert!(lint_subject(&long, &style)
        .iter()
        .any(|l| l.kind == LintKind::TooLong));
}

#[test]
fn replace_subject_preserves_the_body() {
    assert_eq!(
        replace_subject("old subject\n\nbody line\n", "new subject"),
        "new subject\n\nbody line\n"
    );
    assert_eq!(replace_subject("only subject", "new"), "new");
}

#[test]
fn offsets_are_in_bytes() {
    assert_eq!(prefix_desc_start("doc: Foo"), Some(5));
    assert_eq!(prefix_desc_start("äö: Foo"), Some(6));
    assert_eq!(prefix_desc_start("wip:"), Some(4));
    assert_eq!(prefix_desc_start("no prefix"), None);
    assert_eq!(prefix_colon("äö: Foo"), Some(4));
    assert_eq!(prefix_colon("x y: z"), None);
    assert_eq!(description_start("doc: Foo"), 5);
    assert_eq!(description_start("Foo"), 0);
    assert_eq!(prefix_token("feat(api): x"), Some("feat(api)"));
    assert_eq!(prefix_token("x y: z"), None);
}

#[test]
fn prefix_tokens_are_single_words() {
    assert!(is_prefix_token("gtk+repo"));
    assert!(is_prefix_token("a/b_c-d.e"));
    assert!(is_prefix_token("feat(any thing)".replace(' ', "").as_str()));
    assert!(!is_prefix_token(""));
    assert!(!is_prefix_token("(scope)"));
    assert!(!is_prefix_token("two words"));
    assert!(!is_prefix_token("a\u{a0}b"));
    assert!(!is_prefix_token("what?"));
}

#[test]
fn first_letters_and_periods() {
    assert_eq!(first_alpha_upper("  Foo"), Some(true));
    assert_eq!(first_alpha_upper("foo"), Some(false));
    assert_eq!(first_alpha_upper("éa"), Some(false));
    assert_eq!(first_alpha_upper("Éa"), Some(true));
    assert_eq!(first_alpha_upper("1a"), None);
    assert_eq!(first_alpha_upper(" "), None);
    assert!(has_lone_trailing_period("a. "));
    assert!(!has_lone_trailing_period("a.."));
    assert!(has_lone_trailing_period("."));
    assert!(!has_lone_trailing_period(""));
}

#[test]
fn boilerplate_is_recognised() {
    assert!(is_autogen("  Merge branch 'x'"));
    assert!(is_autogen("Initial commit"));
    assert!(!is_autogen("Initial commit of the parser"));
    assert!(is_autogen("Reapply \"x\""));
    assert!(is_autogen("squash! x"));
    assert!(is_autogen("amend! x"));
    assert!(!is_autogen("Merges"));
}

#[test]
fn a_case_needs_three_quarters() {
    assert_eq!(majority_case(4, 4), None);
    assert_eq!(majority_case(6, 8), Some(true));
    assert_eq!(majority_case(5, 8), None);
    assert_eq!(majority_case(2, 8), Some(false));
    assert_eq!(majority_case(3, 8), None);
    assert_eq!(majority_case(5, 5), Some(true));
}

#[test]
fn the_cutoff_is_half_again_the_ninetieth_percentile() {
    // Ten subjects of 1 to 10 characters: the percentile is the tenth, 10.
    let subjects = ["a", "bb", "ccc", "dddd", "eeeee", "ffffff", "ggggggg", "hhhhhhhh",
        "iiiiiiiii", "jjjjjjjjjj"];
    assert_eq!(RepoStyle::learn(&subjects).long_cutoff, Some(15));
    // Five subjects: the fifth of them, 9 characters long.
    let five = ["a", "bb", "iiiiiiiii", "ccc", "dddd"];
    assert_eq!(RepoStyle::learn(&five).long_cutoff, Some(13));
}

#[test]
fn a_prefix_needs_a_clear_casing() {
    // Two of three writings of the token are no clear majority.
    let style = RepoStyle::learn(&["gtk: a", "gtk: b", "GTK: c", "x: d", "y: e"]);
    assert!(!style.prefix_casings.contains_key("gtk"));
    let style = RepoStyle::learn(&["gtk: a", "gtk: b", "gtk: d", "GTK: c", "y: e"]);
    assert_eq!(style.prefix_casings.get("gtk").map(String::as_str), Some("gtk"));
}

#[test]
fn messages_explain_the_finding() {
    let style = prefixed_capitalized_repo();
    let lints = lint_subject("GTK: Tidy", &style);
    assert_eq!(lints.len(), 1);
    assert_eq!(
        lints[0].message,
        "Most commits here write this prefix “gtk:”, not “GTK:”."
    );
    assert!(lints[0].auto_fixable());
    assert!(!Lint::new(LintKind::TooLong, "x").auto_fixable());
    assert!(!LintKind::MissingPrefix.auto_fixable());
}

#[test]
fn case_is_turned_beyond_ascii_too() {
    let style = prefixed_capitalized_repo();
    assert_eq!(autofix_subject("gtk: änder", &style).as_deref(), Some("gtk: Änder"));
    // The first letter may grow when it is capitalized.
    assert_eq!(autofix_subject("gtk: ßa", &style).as_deref(), Some("gtk: SSa"));
}

#[test]
fn the_case_is_turned_behind_further_blanks() {
    let style = prefixed_capitalized_repo();
    assert_eq!(
        autofix_subject("gtk:  tidy the thing", &style).as_deref(),
        Some("gtk:  Tidy the thing")
    );
    assert_eq!(autofix_subject("gtk:  Tidy the thing", &style), None);
    assert_eq!(
        autofix_subject("  tidy the thing.", &style).as_deref(),
        Some("  Tidy the thing")
    );
}

#[test]
fn a_fix_comes_exactly_where_a_finding_is_fixable() {
    let style = prefixed_capitalized_repo();
    let subjects = [
        "gtk: Tidy the thing",
        "gtk: tidy the thing",
        "gtk:  tidy the thing",
        "GTK: Tidy the thing",
        "gtk: Tidy the thing.",
        "Tidy the thing",
        "tidy the thing",
        "Merge branch 'x'.",
        "   ",
        "gtk:",
        "gtk: 3 things",
    ];
    for subject in subjects {
        let promised = lint_subject(subject, &style).iter().any(|l| l.auto_fixable());
        assert_eq!(autofix_subject(subject, &style).is_some(), promised, "{subject:?}");
    }
}

#[test]
fn one_pass_of_the_fix_is_enough() {
    let style = prefixed_capitalized_repo();
    for subject in ["GTK:  tidy the thing.", "MCP: add a tool", "tidy.  ", "gtk: tidy"] {
        let fixed = autofix_subject(subject, &style).unwrap();
        assert_eq!(autofix_subject(&fixed, &style), None);
        assert!(!lint_subject(&fixed, &style).iter().any(|l| l.auto_fixable()));
    }
    // A period behind a period and a blank takes a second pass.
    let once = autofix_subject("gtk: Tidy. .", &style).unwrap();
    assert_eq!(once, "gtk: Tidy.");
    assert_eq!(autofix_subject(&once, &style).as_deref(), Some("gtk: Tidy"));
}

#[test]
fn the_same_history_gives_the_same_answers() {
    let (a, b) = (prefixed_capitalized_repo(), prefixed_capitalized_repo());
    for subject in ["GTK: tidy.", "tidy", "doc: Note it"] {
        assert_eq!(lint_subject(subject, &a), lint_subject(subject, &b));
        assert_eq!(autofix_subject(subject, &a), autofix_subject(subject, &b));
    }
}
