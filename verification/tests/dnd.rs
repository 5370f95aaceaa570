use commedit_gtk::dnd::{DraggedCommit, DraggedCommits};

fn sample() -> DraggedCommits {
    DraggedCommits {
        pid: 4242,
        repo_key: "abc123".to_string(),
        branch: Some("feature".to_string()),
        commits: vec![
            DraggedCommit {
                sha: "deadbeef".to_string(),
                change_id: "zzzz".to_string(),
                subject: "Fix the thing with spaces".to_string(),
            },
            DraggedCommit {
                sha: "cafef00d".to_string(),
                change_id: "yyyy".to_string(),
                subject: String::new(),
            },
        ],
    }
}

#[test]
fn dnd_round_trips_through_text() {
    let p = sample();
    assert_eq!(DraggedCommits::parse(&p.serialize()), Some(p));
}

#[test]
fn a_missing_branch_round_trips_as_none() {
    let mut p = sample();
    p.branch = None;
    let back = DraggedCommits::parse(&p.serialize()).unwrap();
    assert_eq!(back.branch, None);
    assert_eq!(back.commits.len(), 2);
}

#[test]
fn rejects_non_commedit_text() {
    assert_eq!(DraggedCommits::parse("just some text\nmore"), None);
    assert_eq!(DraggedCommits::parse(""), None);
    // The magic but no required fields.
    assert_eq!(DraggedCommits::parse("commedit-dnd-v1\n"), None);
}

#[test]
fn pid_is_carried_over() {
    let back = DraggedCommits::parse(&sample().serialize()).unwrap();
    assert_eq!(back.pid, 4242);
}

#[test]
fn the_text_form_is_line_by_line() {
    assert_eq!(
        sample().serialize(),
        "commedit-dnd-v1\npid=4242\nrepo=abc123\nbranch=feature\n\
         commit deadbeef zzzz Fix the thing with spaces\ncommit cafef00d yyyy \n"
    );
}

#[test]
fn newlines_in_a_subject_become_spaces() {
    let mut p = sample();
    p.commits[0].subject = "one\ntwo".to_string();
    let back = DraggedCommits::parse(&p.serialize()).unwrap();
    assert_eq!(back.commits[0].subject, "one two");
    assert_eq!(back.commits.len(), 2);
}

#[test]
fn later_lines_and_odd_lines() {
    // The last process line counts; a commit without a change id is passed over;
    // keys and values are trimmed; unknown keys and other lines are ignored.
    let p = DraggedCommits::parse(
        " commedit-dnd-v1 \r\npid=1\n pid = +7 \nrepo = r \ncommit only\ncommit a b\nx=y\nzzz",
    )
    .unwrap();
    assert_eq!(p.pid, 7);
    assert_eq!(p.repo_key, "r");
    assert_eq!(p.branch, None);
    assert_eq!(p.commits.len(), 1);
    assert_eq!(p.commits[0].sha, "a");
    assert_eq!(p.commits[0].change_id, "b");
    assert_eq!(p.commits[0].subject, "");
    // A last process line that is no number leaves the payload without one.
    assert_eq!(DraggedCommits::parse("commedit-dnd-v1\npid=1\npid=x\nrepo=r"), None);
    assert_eq!(DraggedCommits::parse("commedit-dnd-v1\npid=1"), None);
}
