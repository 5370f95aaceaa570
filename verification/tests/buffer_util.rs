use commedit_gtk::buffer_util::{
    change_label, message_differs, message_for_editor, splice_text, CleanedMessage,
};
use commedit_gtk::model::{ChangeKind, FileChange};
use commedit_gtk::saving::{save_enabled, Edited};

/// Stands in for the clean-up of the history engine, which is not linked here and
/// whose result `message_differs` takes: on the messages below it leaves exactly one
/// line break at the end. Uncleaned, a stored message and what the editor shows of it
/// are different texts.
fn cleaned(message: &str) -> CleanedMessage {
    CleanedMessage {
        text: format!("{}\n", message.trim_end()),
    }
}

#[test]
fn a_loaded_message_reads_as_unchanged() {
    // What the editor shows for a git-made message (final newline dropped)
    // must not count as an edit, or selecting a commit would arm Save. This rests on
    // both sides being cleaned: see `cleaned`.
    let stored = "subject\n\nbody\n";
    assert!(!message_differs(
        &cleaned(message_for_editor(stored)),
        &cleaned(stored)
    ));
    // Same for a message without a final newline at all, so an identity-only save
    // leaves it alone.
    let legacy = "subject\n\nbody";
    assert!(!message_differs(
        &cleaned(message_for_editor(legacy)),
        &cleaned(legacy)
    ));
}

#[test]
fn a_real_edit_still_reads_as_changed() {
    // Cleaned on both sides too: the stand-in leaves the edit itself alone.
    assert!(message_differs(
        &cleaned("subject, edited"),
        &cleaned("subject\n")
    ));
}

#[test]
fn cleaned_messages_are_compared_as_they_are() {
    let message = |text: &str| CleanedMessage {
        text: text.to_string(),
    };
    assert!(message_differs(&message("a"), &message("a\n")));
    assert!(!message_differs(&message("a\n"), &message("a\n")));
}

#[test]
fn the_editor_drops_every_final_newline_and_nothing_else() {
    assert_eq!(message_for_editor("a\n\n\n"), "a");
    assert_eq!(message_for_editor("a \n"), "a ");
    assert_eq!(message_for_editor("\n"), "");
    assert_eq!(message_for_editor("a\nb"), "a\nb");
}

#[test]
fn labels_show_how_a_file_is_touched() {
    let change = |kind| FileChange {
        path: "src/main.rs".to_string(),
        kind,
        old_text: None,
        new_text: None,
        is_binary: false,
        conflicted_base: false,
    };
    let labels: Vec<String> = [ChangeKind::Added, ChangeKind::Removed, ChangeKind::Modified]
        .into_iter()
        .map(|k| change_label(&change(k)))
        .collect();
    assert!(labels.iter().all(|l| l.ends_with("src/main.rs")));
    assert_ne!(labels[0], labels[1]);
    assert_ne!(labels[1], labels[2]);
}

fn spliced(old: &str, new: &str) -> String {
    match splice_text(old, new) {
        None => old.to_string(),
        Some(s) => {
            let chars: Vec<char> = old.chars().collect();
            let mut out: String = chars[..s.start].iter().collect();
            out.push_str(&s.middle);
            out.extend(chars[s.end..].iter());
            out
        }
    }
}

#[test]
fn a_splice_gives_the_new_text() {
    for (old, new) in [
        ("", ""),
        ("abc", "abc"),
        ("", "abc"),
        ("abc", ""),
        ("abcd", "abXcd"),
        ("aaa", "aa"),
        ("über", "üXber"),
        ("one\ntwo\nthree", "one\n2\nthree"),
    ] {
        assert_eq!(spliced(old, new), new);
    }
    assert!(splice_text("same", "same").is_none());
    let s = splice_text("one\ntwo\nthree", "one\n2\nthree").unwrap();
    assert_eq!((s.start, s.end, s.middle.as_str()), (4, 7, "2"));
}

#[test]
fn selecting_a_commit_leaves_save_dark() {
    for stored in ["subject\n", "subject\n\nbody\n\n", "subject"] {
        let edited = Edited {
            conflict: false,
            entry: false,
            commits: 1,
            files: false,
            blank_message: false,
            message: message_differs(&cleaned(message_for_editor(stored)), &cleaned(stored)),
            identity: false,
            overrides: false,
        };
        assert!(!save_enabled(edited));
    }
}
