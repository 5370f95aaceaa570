use commedit_gtk::identity::{
    commit_field_values, common_field, common_fields, entry_date_parts, harvest_identities,
    identity_for_commit, identity_overrides, join_name_email, no_overrides, read_identity,
    set_entry_date, split_name_email, DIFFERS_PLACEHOLDER, IDENTITY_PLACEHOLDERS,
};
use commedit_gtk::model::{CommitId, CommitInfo};
use commedit_gtk::spelling::{choose_language, language_to_keep, SpellSettings};

fn commit(author: (&str, &str), committer: (&str, &str), time: &str) -> CommitInfo {
    CommitInfo {
        id: CommitId {
            hex: "ab".to_string(),
        },
        change_id: "kk".to_string(),
        subject: String::new(),
        description: String::new(),
        author_name: author.0.to_string(),
        author_email: author.1.to_string(),
        committer_name: committer.0.to_string(),
        committer_email: committer.1.to_string(),
        author_time: time.to_string(),
        committer_time: "2024-05-06 07:08:09 +0200".to_string(),
        parents: vec![],
    }
}

fn pair(name: &str, email: &str) -> (String, String) {
    (name.to_string(), email.to_string())
}

#[test]
fn a_date_is_the_first_word() {
    assert_eq!(entry_date_parts("2024-03-09 12:00:00 +0100"), Some((2024, 3, 9)));
    assert_eq!(entry_date_parts("  2024-03-09"), Some((2024, 3, 9)));
    assert_eq!(entry_date_parts("2024-03-09-17"), Some((2024, 3, 9)));
    assert_eq!(entry_date_parts("2024-03"), None);
    assert_eq!(entry_date_parts("2024-xx-09"), None);
    assert_eq!(entry_date_parts(""), None);
    assert_eq!(entry_date_parts("99999999999-01-01"), None);
}

#[test]
fn picking_a_day_keeps_the_time() {
    let text = set_entry_date("2024-03-09 12:34:56 +0100", 2023, 1, 2);
    assert_eq!(text, "2023-01-02 12:34:56 +0100");
    assert_eq!(entry_date_parts(&text), Some((2023, 1, 2)));
    assert_eq!(set_entry_date("", 2023, 11, 12), "2023-11-12 00:00:00 +0000");
    assert_eq!(set_entry_date("2024-03-09", 2023, 11, 12), "2023-11-12 00:00:00 +0000");
    assert_eq!(set_entry_date("x y", 7, 1, 2), "0007-01-02 y");
}

#[test]
fn a_person_reads_back_from_the_field() {
    for (name, email) in [
        ("Ann Lee", "ann@example.org"),
        ("Ann <the> Lee", "ann@example.org"),
        ("", "ann@example.org"),
        ("Ann", ""),
        ("", ""),
    ] {
        let field = join_name_email(name, email);
        assert_eq!(split_name_email(&field), pair(name, email));
    }
    assert_eq!(join_name_email("Ann", "a@b"), "Ann <a@b>");
    assert_eq!(join_name_email("", "a@b"), " <a@b>");
    assert_eq!(join_name_email("Ann", ""), "Ann");
    assert_eq!(split_name_email("  Ann  < a@b > rest"), pair("Ann", "a@b"));
    assert_eq!(split_name_email("Ann <a@b"), pair("Ann <a@b", ""));
    assert_eq!(split_name_email("a > b"), pair("a > b", ""));
}

#[test]
fn untouched_fields_keep_the_identity() {
    let c = commit(("Ann", "a@b"), ("Bob", "b@c"), "2024-01-01 00:00:00 +0000");
    let fields = commit_field_values(&c);
    assert_eq!(fields[0], "Ann <a@b>");
    assert_eq!(fields[1], "2024-01-01 00:00:00 +0000");
    assert_eq!(fields[2], "Bob <b@c>");
    let id = read_identity(&fields);
    assert_eq!(id.author_name, "Ann");
    assert_eq!(id.author_email, "a@b");
    assert_eq!(id.author_time, c.author_time);
    assert_eq!(id.committer_name, "Bob");
    assert_eq!(id.committer_email, "b@c");
    assert_eq!(id.committer_time, c.committer_time);
}

#[test]
fn several_commits_show_what_they_share() {
    let commits = [
        commit(("Ann", "a@b"), ("Bob", "b@c"), "t1"),
        commit(("Ann", "a@b"), ("Cay", "c@d"), "t1"),
    ];
    let fields = common_fields(&commits);
    assert!(!fields[0].differs);
    assert_eq!(fields[0].text, "Ann <a@b>");
    assert_eq!(fields[0].placeholder, IDENTITY_PLACEHOLDERS[0]);
    assert!(fields[2].differs);
    assert_eq!(fields[2].text, "");
    assert_eq!(fields[2].placeholder, DIFFERS_PLACEHOLDER);
    assert_eq!(common_field(&commits, 1).text, "t1");
}

#[test]
fn only_edited_fields_are_written() {
    let strings = |v: [&str; 4]| v.map(str::to_string);
    let given = strings(["Ann <a@b>", "t1", "", "t2"]);
    let overrides = identity_overrides(&strings(["Ann <a@b>", "t9", "  ", "t2"]), &given);
    assert_eq!(overrides, [None, Some("t9".to_string()), None, None]);
    assert!(!no_overrides(&overrides));
    let none = identity_overrides(&given, &given);
    assert!(no_overrides(&none));
    let c = commit(("Ann", "a@b"), ("Bob", "b@c"), "t1");
    let kept = identity_for_commit(&c, &none);
    assert_eq!((kept.author_name.as_str(), kept.author_time.as_str()), ("Ann", "t1"));
    let moved = identity_for_commit(&c, &overrides);
    assert_eq!(moved.author_time, "t9");
    assert_eq!(moved.committer_email, "b@c");
    let renamed = identity_for_commit(
        &c,
        &[None, None, Some("Cay <c@d>".to_string()), None],
    );
    assert_eq!(renamed.committer_name, "Cay");
    assert_eq!(renamed.committer_email, "c@d");
    assert_eq!(renamed.author_name, "Ann");
}

#[test]
fn persons_are_listed_once_and_in_order() {
    let commits = [
        commit(("Cay", "c@d"), ("Bob", "b@c"), "t"),
        commit(("Ann", "z@z"), ("Cay", "c@d"), "t"),
        commit(("Ann", "a@b"), ("Bob", "b@c"), "t"),
    ];
    assert_eq!(
        harvest_identities(&commits),
        [
            pair("Ann", "a@b"),
            pair("Ann", "z@z"),
            pair("Bob", "b@c"),
            pair("Cay", "c@d"),
        ]
    );
    assert!(harvest_identities(&[]).is_empty());
}

#[test]
fn spell_settings_round_trip() {
    for enabled in [true, false] {
        let s = SpellSettings {
            enabled,
            language: "de_AT".to_string(),
        };
        assert_eq!(SpellSettings::from_text(&s.to_text()), Some(s));
    }
    let s = SpellSettings {
        enabled: true,
        language: "en".to_string(),
    };
    assert_eq!(s.to_text(), "enabled=true\nlanguage=en\n");
    assert_eq!(SpellSettings::from_text("enabled=true\n"), None);
    assert_eq!(SpellSettings::from_text("language=en\n"), None);
    assert_eq!(SpellSettings::from_text("enabled=true\nlanguage=\n"), None);
    let odd = SpellSettings::from_text("junk\n enabled= yes \nlanguage= fr\r\n").unwrap();
    assert!(!odd.enabled);
    assert_eq!(odd.language, "fr");
}

#[test]
fn the_language_follows_the_locale() {
    let names: Vec<String> = ["C", "de_CH.UTF-8", "de_CH", "de"]
        .iter()
        .map(|s| s.to_string())
        .collect();
    assert_eq!(
        choose_language(&names, &[true, false, true, true], None),
        "de_CH"
    );
    assert_eq!(
        choose_language(&names, &[true, false, false, false], Some("fr".to_string())),
        "fr"
    );
    assert_eq!(choose_language(&names, &[false; 4], None), "en_US");
    assert_eq!(
        language_to_keep(Some("it".to_string()), "de".to_string()),
        "it"
    );
    assert_eq!(language_to_keep(Some(String::new()), "de".to_string()), "de");
    assert_eq!(language_to_keep(None, "de".to_string()), "de");
}
