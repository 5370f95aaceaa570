use commedit_gtk::order::{insert_ordered, text_less};
use commedit_gtk::paths::extension_of;

#[test]
fn texts_are_ordered_by_their_characters() {
    for (a, b) in [("", "a"), ("a", "b"), ("a", "ab"), ("Z", "a"), ("z", "é"), ("a1", "a2")] {
        assert!(text_less(a, b));
        assert!(!text_less(b, a));
        assert_eq!(text_less(a, b), a < b);
    }
    assert!(!text_less("same", "same"));
}

#[test]
fn inserting_keeps_order_and_adds_nothing_twice() {
    let mut names: Vec<String> = Vec::new();
    for name in ["main", "dev", "topic", "dev", "alpha"] {
        insert_ordered(&mut names, name);
    }
    assert_eq!(names, ["alpha", "dev", "main", "topic"]);
}

#[test]
fn extensions_are_those_of_the_last_name() {
    for path in [
        "a.rs",
        "src/main.rs",
        "archive.tar.gz",
        "Makefile",
        ".gitignore",
        "dir.d/file",
        "trailing.",
        "..",
        "a/..",
        "dir.rs/",
        "dir.rs/.",
        "",
        "/",
        "a..b",
    ] {
        assert_eq!(
            extension_of(path).as_deref(),
            std::path::Path::new(path)
                .extension()
                .and_then(|e| e.to_str()),
            "{path}"
        );
    }
    assert_eq!(extension_of("src/main.rs").as_deref(), Some("rs"));
    assert_eq!(extension_of(".gitignore"), None);
}
