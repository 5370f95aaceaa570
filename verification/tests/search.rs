use commedit_gtk::search::{escape_char, fold, highlight_markup, match_folded, search_match};

#[test]
fn substring_hit_returns_contiguous_indices() {
    // "oob" matches the contiguous run o(1) o(2) b(3) in "foobar".
    assert_eq!(search_match("foobar", "oob"), Some(vec![1, 2, 3]));
    assert_eq!(search_match("foobar", "foo"), Some(vec![0, 1, 2]));
}

#[test]
fn scattered_chars_no_longer_match() {
    // The old fuzzy matcher accepted "fb" (f…b scattered); substring search
    // does not — this is the over-matching the change fixes.
    assert_eq!(search_match("foobar", "fb"), None);
    assert_eq!(search_match("foobar", "xyz"), None);
}

#[test]
fn terms_are_order_independent_and_and_ed() {
    // Both terms present, in either order → union of their occurrences.
    assert_eq!(
        search_match("foo bar", "bar foo"),
        Some(vec![0, 1, 2, 4, 5, 6])
    );
    // One term missing → no match.
    assert_eq!(search_match("foo bar", "foo baz"), None);
}

#[test]
fn every_occurrence_is_highlighted() {
    // "ab" occurs at 0..2 and 3..5 in "abxab"; both runs are returned.
    assert_eq!(search_match("abxab", "ab"), Some(vec![0, 1, 3, 4]));
}

#[test]
fn empty_or_whitespace_query_is_no_match() {
    assert_eq!(search_match("foobar", ""), None);
    assert_eq!(search_match("foobar", "   "), None);
}

#[test]
fn matching_is_case_insensitive() {
    assert_eq!(
        search_match("FooBar", "foobar"),
        Some(vec![0, 1, 2, 3, 4, 5])
    );
    assert_eq!(search_match("foobar", "FOO"), Some(vec![0, 1, 2]));
}

#[test]
fn highlight_escapes_and_groups_runs() {
    // Match the contiguous "a<" run: one span, with the '<' escaped.
    let subject = "a<b";
    let pos = search_match(subject, "a<").unwrap();
    assert_eq!(pos, vec![0, 1]);
    assert_eq!(
        highlight_markup(subject, &pos),
        "<span background=\"#f6d32d\" foreground=\"#000000\" weight=\"bold\">a&lt;</span>b"
    );
}

#[test]
fn highlight_no_positions_just_escapes() {
    assert_eq!(highlight_markup("a&b", &[]), "a&amp;b");
}

#[test]
fn folding_keeps_one_character_each() {
    assert_eq!(fold('A'), 'a');
    assert_eq!(fold('z'), 'z');
    assert_eq!(fold('Ä'), 'ä');
    // A character whose lower case is longer folds to the first of it.
    assert_eq!(fold('İ'), 'i');
    assert_eq!(search_match("ÄRGER", "ärg"), Some(vec![0, 1, 2]));
}

#[test]
fn overlapping_occurrences_are_merged() {
    assert_eq!(search_match("aaaa", "aa"), Some(vec![0, 1, 2, 3]));
    assert_eq!(search_match("abc", "abcd"), None);
    assert_eq!(search_match("", "a"), None);
}

#[test]
fn folded_matching_wants_every_needle() {
    let hay: Vec<char> = "abcab".chars().collect();
    let needle = |s: &str| s.chars().collect::<Vec<char>>();
    assert_eq!(match_folded(&hay, &vec![needle("ab")]), Some(vec![0, 1, 3, 4]));
    assert_eq!(match_folded(&hay, &vec![needle("c"), needle("b")]), Some(vec![1, 2, 4]));
    assert_eq!(match_folded(&hay, &vec![needle("c"), needle("x")]), None);
    assert_eq!(match_folded(&hay, &vec![needle("")]), None);
    assert_eq!(match_folded(&hay, &Vec::new()), None);
}

#[test]
fn markup_escapes_every_special_character() {
    let esc = |c: char| escape_char(c).into_iter().collect::<String>();
    assert_eq!(esc('&'), "&amp;");
    assert_eq!(esc('<'), "&lt;");
    assert_eq!(esc('>'), "&gt;");
    assert_eq!(esc('\''), "&apos;");
    assert_eq!(esc('"'), "&quot;");
    assert_eq!(esc('\u{1}'), "&#x1;");
    assert_eq!(esc('\u{1f}'), "&#x1f;");
    assert_eq!(esc('\u{9f}'), "&#x9f;");
    assert_eq!(esc('\n'), "\n");
    assert_eq!(esc('é'), "é");
}

#[test]
fn a_run_that_reaches_the_end_is_closed() {
    let open = "<span background=\"#f6d32d\" foreground=\"#000000\" weight=\"bold\">";
    assert_eq!(highlight_markup("abcd", &[1, 3]), format!("a{open}b</span>c{open}d</span>"));
    assert_eq!(highlight_markup("ab", &[0, 1]), format!("{open}ab</span>"));
    assert_eq!(highlight_markup("", &[]), "");
}
