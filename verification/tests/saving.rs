use commedit_gtk::model::{CommitId, CommitInfo};
use commedit_gtk::saving::{
    batch_commits, blocked_text, entry_save, failure_text, first_step, next_step, report,
    save_enabled, split_enabled, Command, Dirty, Edited, EntrySave, FileEdits, Outcome, SaveStep,
};

#[test]
fn failures_name_the_command() {
    assert_eq!(failure_text(Command::Reorder, "no"), "Reorder failed: no");
    assert_eq!(failure_text(Command::Fold, "no"), "Fixup failed: no");
    assert_eq!(failure_text(Command::Travel, "no"), "Time-travel failed: no");
    assert_eq!(
        failure_text(Command::TidySummary, "no"),
        "Couldn't fix the summary: no"
    );
    assert_eq!(
        blocked_text(Command::Revert),
        Some("Resolve the pending conflict before reverting")
    );
    assert_eq!(blocked_text(Command::Reorder), None);
}

#[test]
fn a_report_follows_the_outcome() {
    let r = report(Command::Squash, &Outcome::Clean);
    assert!(r.refresh && !r.conflicts && r.status.is_none());
    let r = report(Command::Resolve, &Outcome::Clean);
    assert_eq!(
        r.status.as_deref(),
        Some("Conflicts resolved — rewrite applied.")
    );
    let r = report(Command::Resolve, &Outcome::Conflicts);
    assert!(!r.refresh && r.conflicts);
    assert_eq!(r.status.as_deref(), Some("Resolved — more conflicts remain."));
    let r = report(Command::Drop, &Outcome::Conflicts);
    assert!(r.conflicts && r.status.is_none());
    let r = report(Command::Drop, &Outcome::Failed("why".to_string()));
    assert!(!r.refresh && !r.conflicts);
    assert_eq!(r.status.as_deref(), Some("Drop failed: why"));
}

fn untouched() -> Edited {
    Edited {
        conflict: false,
        entry: false,
        commits: 1,
        files: false,
        blank_message: true,
        message: false,
        identity: false,
        overrides: false,
    }
}

#[test]
fn an_untouched_pane_has_nothing_to_save() {
    assert!(!save_enabled(untouched()));
    assert!(!save_enabled(Edited { entry: true, ..untouched() }));
    assert!(!save_enabled(Edited { commits: 3, ..untouched() }));
    assert!(!save_enabled(Edited { commits: 0, message: true, ..untouched() }));
    assert!(save_enabled(Edited { conflict: true, ..untouched() }));
    assert!(save_enabled(Edited { message: true, ..untouched() }));
    assert!(save_enabled(Edited { identity: true, ..untouched() }));
    assert!(save_enabled(Edited { files: true, ..untouched() }));
    assert!(save_enabled(Edited { entry: true, blank_message: false, ..untouched() }));
    assert!(save_enabled(Edited { commits: 2, overrides: true, ..untouched() }));
    assert!(!save_enabled(Edited { commits: 2, files: true, ..untouched() }));
    assert!(split_enabled(false, true, false, false));
    assert!(split_enabled(false, true, true, true));
    assert!(!split_enabled(false, true, true, false));
    assert!(!split_enabled(true, true, false, true));
    assert!(!split_enabled(false, false, false, true));
}

#[test]
fn saving_goes_through_its_steps() {
    let all = Dirty {
        message: true,
        files: FileEdits::Edited,
        identity: true,
    };
    let mut step = first_step(&all);
    let mut seen = vec![step.clone()];
    while !matches!(step, SaveStep::Reload) {
        step = next_step(&step, &Outcome::Clean, &all);
        seen.push(step.clone());
    }
    assert_eq!(
        seen,
        [
            SaveStep::Message,
            SaveStep::Files,
            SaveStep::Identity,
            SaveStep::Reload
        ]
    );
    let identity = Dirty {
        message: false,
        files: FileEdits::Untouched,
        identity: true,
    };
    assert_eq!(first_step(&identity), SaveStep::Identity);
    let none = Dirty {
        message: false,
        files: FileEdits::Untouched,
        identity: false,
    };
    assert_eq!(first_step(&none), SaveStep::Reload);
}

#[test]
fn saving_stops_at_trouble() {
    let d = Dirty {
        message: true,
        files: FileEdits::Broken("does not apply".to_string()),
        identity: true,
    };
    assert_eq!(first_step(&d), SaveStep::Message);
    assert_eq!(
        next_step(&SaveStep::Message, &Outcome::Clean, &d),
        SaveStep::Told("does not apply".to_string())
    );
    assert_eq!(
        next_step(&SaveStep::Message, &Outcome::Conflicts, &d),
        SaveStep::Conflicts
    );
    assert_eq!(
        next_step(&SaveStep::Files, &Outcome::Failed("disk".to_string()), &d),
        SaveStep::Told("File save failed: disk".to_string())
    );
}

fn fields(author: &str) -> [String; 4] {
    [
        author.to_string(),
        "t".to_string(),
        "c".to_string(),
        "t".to_string(),
    ]
}

#[test]
fn a_message_commits_the_entry() {
    let given = fields("Ann <a@b>");
    assert_eq!(entry_save(false, "m", &given, &given), EntrySave::Gone);
    assert_eq!(entry_save(true, " \n", &given, &given), EntrySave::InPlace);
    assert_eq!(
        entry_save(true, "  Add x\n\nbody\n", &given, &given),
        EntrySave::Commit {
            message: "Add x\n\nbody".to_string(),
            own_identity: false
        }
    );
    assert_eq!(
        entry_save(true, "m", &fields("Bob <b@c>"), &given),
        EntrySave::Commit {
            message: "m".to_string(),
            own_identity: true
        }
    );
}

#[test]
fn a_batch_is_what_is_still_listed() {
    let commit = |change: &str| CommitInfo {
        id: CommitId {
            hex: String::new(),
        },
        change_id: change.to_string(),
        subject: String::new(),
        description: String::new(),
        author_name: String::new(),
        author_email: String::new(),
        committer_name: String::new(),
        committer_email: String::new(),
        author_time: String::new(),
        committer_time: String::new(),
        parents: vec![],
    };
    let commits = [commit("x"), commit("y"), commit("z")];
    let selected = ["z".to_string(), "lost".to_string(), "x".to_string()];
    assert_eq!(batch_commits(&commits, &selected), [2, 0]);
}
