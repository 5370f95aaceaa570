//! What saving does: when there is something to save, in which order it is written,
//! and what is said of the outcome of every rewrite.
use crate::indices;
use crate::buffer_util;
use crate::conflict_mode;
use crate::identity;
use crate::model::CommitInfo;
use crate::text;
use crate::white;
use vstd::prelude::*;

verus! {

/// A rewrite of the repository, or another thing that is asked of it.
#[derive(Clone, Copy, Debug, PartialEq, Eq, Structural)]
pub enum Command {
    Reorder,
    Copy,
    CherryPick,
    Squash,
    Restore,
    Fold,
    Drop,
    Revert,
    MergeOut,
    RestoreToTree,
    TidySummary,
    Message,
    Files,
    Identity,
    EntryEdit,
    Commit,
    Split,
    Resolve,
    Travel,
    Reload,
    Compare,
    BranchSet,
}

/// What the report of a failure begins with.
pub open spec fn failure_head(c: Command) -> Seq<char> {
    match c {
        Command::Reorder => "Reorder failed: "@,
        Command::Copy => "Copy failed: "@,
        Command::CherryPick => "Cherry-pick failed: "@,
        Command::Squash => "Squash failed: "@,
        Command::Restore => "Restore failed: "@,
        Command::Fold => "Fixup failed: "@,
        Command::Drop => "Drop failed: "@,
        Command::Revert => "Revert failed: "@,
        Command::MergeOut => "Merge-out failed: "@,
        Command::RestoreToTree => "Restore to working tree failed: "@,
        Command::TidySummary => "Couldn't fix the summary: "@,
        Command::Message => "Message save failed: "@,
        Command::Files => "File save failed: "@,
        Command::Identity => "Identity save failed: "@,
        Command::EntryEdit => "Working-copy edit failed: "@,
        Command::Commit => "Commit failed: "@,
        Command::Split => "Split failed: "@,
        Command::Resolve => "Resolve failed: "@,
        Command::Travel => "Time-travel failed: "@,
        Command::Reload => "Reload failed: "@,
        Command::Compare => "Compare failed: "@,
        Command::BranchSet => "Could not change the branch set: "@,
    }
}

fn head_of(c: Command) -> (r: &'static str)
    ensures
        r@ == failure_head(c),
{
    match c {
        Command::Reorder => "Reorder failed: ",
        Command::Copy => "Copy failed: ",
        Command::CherryPick => "Cherry-pick failed: ",
        Command::Squash => "Squash failed: ",
        Command::Restore => "Restore failed: ",
        Command::Fold => "Fixup failed: ",
        Command::Drop => "Drop failed: ",
        Command::Revert => "Revert failed: ",
        Command::MergeOut => "Merge-out failed: ",
        Command::RestoreToTree => "Restore to working tree failed: ",
        Command::TidySummary => "Couldn't fix the summary: ",
        Command::Message => "Message save failed: ",
        Command::Files => "File save failed: ",
        Command::Identity => "Identity save failed: ",
        Command::EntryEdit => "Working-copy edit failed: ",
        Command::Commit => "Commit failed: ",
        Command::Split => "Split failed: ",
        Command::Resolve => "Resolve failed: ",
        Command::Travel => "Time-travel failed: ",
        Command::Reload => "Reload failed: ",
        Command::Compare => "Compare failed: ",
        Command::BranchSet => "Could not change the branch set: ",
    }
}

/// The report of a failure.
pub fn failure_text(c: Command, error: &str) -> (r: String)
    ensures
        r@ == failure_head(c) + error@,
{
    let mut out = text::chars_of(head_of(c));
    text::push_text(&mut out, error);
    text::string_of(&out)
}

/// What is said where a command has to wait for the conflicts to be resolved; `None`
/// for a command that does not.
pub open spec fn blocked(c: Command) -> Option<Seq<char>> {
    match c {
        Command::Revert => Some("Resolve the pending conflict before reverting"@),
        Command::MergeOut => Some("Resolve the pending conflict before introducing a merge"@),
        Command::RestoreToTree => Some(
            "Resolve the pending conflict before restoring to the working tree"@,
        ),
        Command::TidySummary => Some("Resolve the pending conflict before editing a message"@),
        _ => None,
    }
}

/// What is said where a command has to wait for the conflicts to be resolved.
pub fn blocked_text(c: Command) -> (r: Option<&'static str>)
    ensures
        match r {
            Some(s) => blocked(c) == Some(s@),
            None => blocked(c) is None,
        },
{
    match c {
        Command::Revert => Some("Resolve the pending conflict before reverting"),
        Command::MergeOut => Some("Resolve the pending conflict before introducing a merge"),
        Command::RestoreToTree => Some(
            "Resolve the pending conflict before restoring to the working tree",
        ),
        Command::TidySummary => Some("Resolve the pending conflict before editing a message"),
        _ => None,
    }
}

/// What is said once a command has succeeded.
pub open spec fn success(c: Command) -> Option<Seq<char>> {
    match c {
        Command::RestoreToTree => Some("Restored the commit's changes to the working tree"@),
        Command::TidySummary => Some("Tidied the commit summary to match the repo's style"@),
        Command::Resolve => Some("Conflicts resolved — rewrite applied."@),
        Command::Reload => Some("Repository reloaded"@),
        _ => None,
    }
}

fn success_of(c: Command) -> (r: Option<String>)
    ensures
        text::opt_text(r) == success(c),
{
    match c {
        Command::RestoreToTree => Some(
            "Restored the commit's changes to the working tree".to_string(),
        ),
        Command::TidySummary => Some(
            "Tidied the commit summary to match the repo's style".to_string(),
        ),
        Command::Resolve => Some("Conflicts resolved — rewrite applied.".to_string()),
        Command::Reload => Some("Repository reloaded".to_string()),
        _ => None,
    }
}

/// How a rewrite went.
#[derive(Clone, Debug, PartialEq, Eq)]
pub enum Outcome {
    /// It was applied.
    Clean,
    /// It is held back until its conflicts are resolved.
    Conflicts,
    Failed(String),
}

/// What follows a rewrite.
#[derive(Clone, Debug, PartialEq, Eq)]
pub struct Report {
    /// Whether the history is loaded anew.
    pub refresh: bool,
    /// Whether the conflicts are shown for resolving.
    pub conflicts: bool,
    /// What the status line says.
    pub status: Option<String>,
}

/// Whether a report is the right one. A command that succeeds shows its result; one
/// that conflicts shows the conflicts; one that fails changes nothing and says why.
/// Resolving also says that conflicts remain.
pub open spec fn reports(r: Report, c: Command, outcome: Outcome) -> bool {
    match outcome {
        Outcome::Clean => r.refresh && !r.conflicts && text::opt_text(r.status) == success(c),
        Outcome::Conflicts => !r.refresh && r.conflicts && text::opt_text(r.status) == if c
            == Command::Resolve {
            Some("Resolved — more conflicts remain."@)
        } else {
            None
        },
        Outcome::Failed(e) => !r.refresh && !r.conflicts && text::opt_text(r.status) == Some(
            failure_head(c) + e@,
        ),
    }
}

/// What follows a rewrite.
pub fn report(c: Command, outcome: &Outcome) -> (r: Report)
    ensures
        reports(r, c, *outcome),
{
    match outcome {
        Outcome::Clean => Report { refresh: true, conflicts: false, status: success_of(c) },
        Outcome::Conflicts => {
            let status = match c {
                Command::Resolve => Some("Resolved — more conflicts remain.".to_string()),
                _ => None,
            };
            Report { refresh: false, conflicts: true, status }
        },
        Outcome::Failed(e) => Report {
            refresh: false,
            conflicts: false,
            status: Some(failure_text(c, e.as_str())),
        },
    }
}

/// What has been edited in the pane, as far as it decides on the save button.
#[derive(Clone, Copy, Debug, PartialEq, Eq, Structural)]
pub struct Edited {
    /// Whether conflicts are being resolved.
    pub conflict: bool,
    /// Whether an uncommitted entry is shown.
    pub entry: bool,
    /// How many commits are selected.
    pub commits: usize,
    /// Whether the diff has edits.
    pub files: bool,
    /// Whether the message is blank.
    pub blank_message: bool,
    /// Whether the message differs from that of the commit.
    pub message: bool,
    /// Whether the identity differs from that of the commit.
    pub identity: bool,
    /// Whether an identity field is to be written to several commits.
    pub overrides: bool,
}

/// Whether there is something to save. A conflict can always be saved. An entry can
/// be where its diff is edited or it has a message to be committed with; several
/// commits where an identity field is; a single commit where anything of it is.
pub open spec fn can_save(e: Edited) -> bool {
    if e.conflict {
        true
    } else if e.entry {
        e.files || !e.blank_message
    } else if e.commits > 1 {
        e.overrides
    } else {
        e.commits == 1 && (e.message || e.identity || e.files)
    }
}

/// Whether the save button is lit.
pub fn save_enabled(e: Edited) -> (r: bool)
    ensures
        r == can_save(e),
{
    if e.conflict {
        true
    } else if e.entry {
        e.files || !e.blank_message
    } else if e.commits > 1 {
        e.overrides
    } else {
        e.commits == 1 && (e.message || e.identity || e.files)
    }
}

/// Whether the split button is lit: the diff has edits, and if it is that of an
/// uncommitted entry, the entry has a worktree.
pub fn split_enabled(conflict: bool, files: bool, entry: bool, worktree: bool) -> (r: bool)
    ensures
        r == (!conflict && files && (entry ==> worktree)),
{
    !conflict && files && (!entry || worktree)
}

/// Outside of conflicts, where nothing is edited nothing can be saved.
pub proof fn law_untouched_pane_saves_nothing(e: Edited)
    requires
        !e.conflict,
        !e.files,
        e.blank_message || !e.entry,
        !e.message,
        !e.identity,
        !e.overrides,
    ensures
        !can_save(e),
{
}

/// Selecting a commit leaves the save button dark: as long as the clean-up makes
/// nothing of final newlines, the message that the editor shows is no edit of the
/// stored one.
pub proof fn law_loaded_message_is_no_edit(
    clean: spec_fn(Seq<char>) -> Seq<char>,
    description: Seq<char>,
    e: Edited,
)
    requires
        forall|s: Seq<char>|
            clean(buffer_util::without_final_newlines(s)) == #[trigger] clean(s),
        e.message == (clean(buffer_util::without_final_newlines(description)) != clean(
            description,
        )),
        !e.conflict,
        !e.entry,
        !e.files,
        !e.identity,
        !e.overrides,
    ensures
        !e.message,
        !can_save(e),
{
    assert(clean(buffer_util::without_final_newlines(description)) == clean(description));
}

/// Whether the edits of the diff can be written.
#[derive(Clone, Debug, PartialEq, Eq)]
pub enum FileEdits {
    Untouched,
    Edited,
    /// A patch does not apply, and why.
    Broken(String),
}

/// What has been edited of a commit.
#[derive(Clone, Debug, PartialEq, Eq)]
pub struct Dirty {
    pub message: bool,
    pub files: FileEdits,
    pub identity: bool,
}

/// A step of saving a commit.
#[derive(Clone, Debug, PartialEq, Eq)]
pub enum SaveStep {
    Message,
    Files,
    Identity,
    /// All is written: the history is loaded anew.
    Reload,
    /// A rewrite conflicts: the conflicts are shown, and nothing more is written.
    Conflicts,
    /// Something failed: it is said, and nothing more is written.
    Told(String),
}

/// Whether `s` is the next step from the step `rank` on: the message, then the
/// files, then the identity, each only if it was edited.
pub open spec fn step_from(s: SaveStep, rank: int, d: Dirty) -> bool {
    if rank <= 0 && d.message {
        s == SaveStep::Message
    } else if rank <= 1 && d.files is Broken {
        s matches SaveStep::Told(e) && e@ == d.files->Broken_0@
    } else if rank <= 1 && d.files is Edited {
        s == SaveStep::Files
    } else if rank <= 2 && d.identity {
        s == SaveStep::Identity
    } else {
        s == SaveStep::Reload
    }
}

/// The place of a step in the order.
pub open spec fn rank(s: SaveStep) -> int {
    match s {
        SaveStep::Message => 0,
        SaveStep::Files => 1,
        SaveStep::Identity => 2,
        _ => 3,
    }
}

/// The command of a step.
pub open spec fn step_command(s: SaveStep) -> Command {
    match s {
        SaveStep::Message => Command::Message,
        SaveStep::Files => Command::Files,
        _ => Command::Identity,
    }
}

fn step(from: u8, d: &Dirty) -> (r: SaveStep)
    ensures
        step_from(r, from as int, *d),
{
    if from == 0 && d.message {
        return SaveStep::Message;
    }
    if from <= 1 {
        match &d.files {
            FileEdits::Broken(e) => {
                return SaveStep::Told(e.clone());
            },
            FileEdits::Edited => {
                return SaveStep::Files;
            },
            FileEdits::Untouched => {},
        }
    }
    if from <= 2 && d.identity {
        return SaveStep::Identity;
    }
    SaveStep::Reload
}

/// The first step of saving a commit.
pub fn first_step(d: &Dirty) -> (r: SaveStep)
    ensures
        step_from(r, 0, *d),
{
    step(0, d)
}

/// The step after one that writes, given how that went.
pub fn next_step(after: &SaveStep, outcome: &Outcome, d: &Dirty) -> (r: SaveStep)
    requires
        rank(*after) < 3,
    ensures
        match outcome {
            Outcome::Clean => step_from(r, rank(*after) + 1, *d),
            Outcome::Conflicts => r == SaveStep::Conflicts,
            Outcome::Failed(e) => r matches SaveStep::Told(t) && t@ == failure_head(
                step_command(*after),
            ) + e@,
        },
{
    match outcome {
        Outcome::Clean => match after {
            SaveStep::Message => step(1, d),
            SaveStep::Files => step(2, d),
            _ => step(3, d),
        },
        Outcome::Conflicts => SaveStep::Conflicts,
        Outcome::Failed(e) => {
            let c = match after {
                SaveStep::Message => Command::Message,
                SaveStep::Files => Command::Files,
                _ => Command::Identity,
            };
            SaveStep::Told(failure_text(c, e.as_str()))
        },
    }
}

/// A save never goes back: every step that writes comes after the one before it, and
/// the identity is written last, so that a committer date set by hand stays.
pub proof fn law_save_goes_forward(s: SaveStep, after: SaveStep, d: Dirty)
    requires
        rank(after) < 3,
        step_from(s, rank(after) + 1, d),
    ensures
        rank(s) > rank(after),
        after == SaveStep::Identity ==> s == SaveStep::Reload,
{
}

/// A save writes what was edited and nothing else.
pub proof fn law_save_writes_what_was_edited(s: SaveStep, from: int, d: Dirty)
    requires
        step_from(s, from, d),
    ensures
        s == SaveStep::Message ==> d.message,
        s == SaveStep::Files ==> d.files is Edited,
        s == SaveStep::Identity ==> d.identity,
        from <= 0 && s == SaveStep::Reload ==> !d.message && d.files is Untouched && !d.identity,
{
}

/// What saving an uncommitted entry does.
#[derive(Clone, Debug, PartialEq, Eq)]
pub enum EntrySave {
    /// Nothing: its worktree is gone.
    Gone,
    /// Its edited diff is written, and it stays uncommitted.
    InPlace,
    /// It is committed with this message, and with the identity of the fields only
    /// where they were changed.
    Commit { message: String, own_identity: bool },
}

/// Said where the worktree of an entry is gone.
pub const ENTRY_GONE: &'static str = "That working copy is no longer editable here";

/// Said where an entry without a worktree is to be split.
pub const ENTRY_UNSPLITTABLE: &'static str = "This branch has no worktree, so its uncommitted changes can't be split";

/// Said where no identity field is to be written to the selected commits.
pub const NO_IDENTITY_CHANGES: &'static str = "No identity changes to apply to the selected commits.";

/// What saving an uncommitted entry does. Its message decides: without one the entry
/// stays uncommitted. `given` is what the identity fields were filled with.
pub fn entry_save(
    worktree: bool,
    message: &str,
    fields: &[String; 4],
    given: &[String; 4],
) -> (r: EntrySave)
    ensures
        if !worktree {
            r == EntrySave::Gone
        } else if white::all_white(message@) {
            r == EntrySave::InPlace
        } else {
            r matches EntrySave::Commit { message: m, own_identity } && m@ == white::trim(message@)
                && own_identity == (identity::field_texts(*fields) != identity::field_texts(*given))
        },
{
    if !worktree {
        return EntrySave::Gone;
    }
    let trimmed = white::trim_chars(&text::chars_of(message));
    proof {
        white::lemma_trim_empty(message@);
    }
    if trimmed.len() == 0 {
        return EntrySave::InPlace;
    }
    let same = text::same_text(fields[0].as_str(), given[0].as_str()) && text::same_text(
        fields[1].as_str(),
        given[1].as_str(),
    ) && text::same_text(fields[2].as_str(), given[2].as_str()) && text::same_text(
        fields[3].as_str(),
        given[3].as_str(),
    );
    proof {
        let a = identity::field_texts(*fields);
        let b = identity::field_texts(*given);
        assert(a[0] == fields[0]@ && a[1] == fields[1]@ && a[2] == fields[2]@ && a[3] == fields[3]@);
        assert(b[0] == given[0]@ && b[1] == given[1]@ && b[2] == given[2]@ && b[3] == given[3]@);
        if same {
            assert(a =~= b);
        }
    }
    EntrySave::Commit { message: text::string_of(&trimmed), own_identity: !same }
}

/// The commits of the selected changes, in their order, as far as they are listed.
pub open spec fn batch(commits: Seq<CommitInfo>, selected: Seq<Seq<char>>) -> Seq<int>
    decreases selected.len(),
{
    if selected.len() == 0 {
        Seq::<int>::empty()
    } else {
        let init = batch(commits, selected.drop_last());
        match conflict_mode::change_position(commits, selected.last(), 0) {
            Some(ci) => init.push(ci),
            None => init,
        }
    }
}

/// The commits that an identity is written to.
pub fn batch_commits(commits: &[CommitInfo], selected: &[String]) -> (r: Vec<usize>)
    ensures
        r@.map_values(|x: usize| x as int) == batch(commits@, text::texts(selected@)),
        forall|i: int| 0 <= i < r@.len() ==> (#[trigger] r@[i]) < commits@.len(),
{
    let ghost gs = text::texts(selected@);
    let mut out: Vec<usize> = Vec::new();
    let mut i: usize = 0;
    assert(out@.map_values(|x: usize| x as int) =~= batch(commits@, gs.take(0)));
    while i < selected.len()
        invariant
            i <= selected@.len(),
            gs == text::texts(selected@),
            out@.map_values(|x: usize| x as int) == batch(commits@, gs.take(i as int)),
            forall|j: int| 0 <= j < out@.len() ==> (#[trigger] out@[j]) < commits@.len(),
        decreases selected.len() - i,
    {
        assert(gs[i as int] == selected@[i as int]@);
        assert(gs.take(i + 1).drop_last() =~= gs.take(i as int));
        assert(gs.take(i + 1).last() == gs[i as int]);
        let ghost o0 = out@;
        if let Some(ci) = conflict_mode::position_of_change(commits, selected[i].as_str()) {
            out.push(ci);
            assert(out@.map_values(|x: usize| x as int) =~= o0.map_values(
                |x: usize| x as int,
            ).push(ci as int));
        }
        i += 1;
    }
    assert(gs.take(i as int) =~= gs);
    out
}

/// A save writes what was edited in the order message, files, identity, and each of
/// them once the one before has gone through: it stops at a conflict and at an error,
/// which it tells, and at edits that cannot be written.
pub proof fn law_save_takes_its_steps_in_order(
    d: &Dirty,
    first: SaveStep,
    after: &SaveStep,
    outcome: &Outcome,
    next: SaveStep,
)
    requires
        call_ensures(first_step, (d,), first),
        *after == SaveStep::Message || *after == SaveStep::Files || *after == SaveStep::Identity,
        call_ensures(next_step, (after, outcome, d), next),
    ensures
        d.message ==> first == SaveStep::Message,
        !d.message ==> match d.files {
            FileEdits::Edited => first == SaveStep::Files,
            FileEdits::Broken(e) => first matches SaveStep::Told(t) && t@ == e@,
            FileEdits::Untouched => first == if d.identity {
                SaveStep::Identity
            } else {
                SaveStep::Reload
            },
        },
        match *outcome {
            Outcome::Conflicts => next == SaveStep::Conflicts,
            Outcome::Failed(e) => next matches SaveStep::Told(t) && e@.is_suffix_of(t@),
            Outcome::Clean => match (*after, d.files) {
                (SaveStep::Message, FileEdits::Edited) => next == SaveStep::Files,
                (SaveStep::Message, FileEdits::Broken(e)) => next matches SaveStep::Told(t) && t@
                    == e@,
                (SaveStep::Identity, _) => next == SaveStep::Reload,
                _ => next == if d.identity {
                    SaveStep::Identity
                } else {
                    SaveStep::Reload
                },
            },
        },
{
    if let Outcome::Failed(e) = *outcome {
        let t = failure_head(step_command(*after)) + e@;
        assert(e@ =~= t.subrange(t.len() - e@.len(), t.len() as int));
    }
}

/// Whatever was edited can be saved: of a single commit its message, its identity or
/// its files; of several commits an identity field; of an uncommitted entry its diff,
/// or the message to commit it with.
pub proof fn law_every_edit_can_be_saved(e: Edited, r: bool)
    requires
        call_ensures(save_enabled, (e,), r),
    ensures
        e.conflict ==> r,
        !e.conflict && !e.entry && e.commits == 1 ==> (r <==> e.message || e.identity || e.files),
        !e.conflict && !e.entry && e.commits > 1 ==> (r <==> e.overrides),
        !e.conflict && !e.entry && e.commits == 0 ==> !r,
        !e.conflict && e.entry ==> (r <==> e.files || !e.blank_message),
{
}

/// The pane is refreshed after a clean command alone and shows conflicts after one
/// that left some; a failure is told, with its reason.
pub proof fn law_a_report_fits_its_outcome(c: Command, outcome: &Outcome, r: Report)
    requires
        call_ensures(report, (c, outcome), r),
    ensures
        r.refresh <==> *outcome is Clean,
        r.conflicts <==> *outcome is Conflicts,
        *outcome matches Outcome::Failed(e) ==> (r.status matches Some(t) && e@.is_suffix_of(t@)
            && t@.len() > e@.len()),
{
    if let Outcome::Failed(e) = *outcome {
        let t = failure_head(c) + e@;
        assert(e@ =~= t.subrange(t.len() - e@.len(), t.len() as int));
        lemma_heads_are_not_blank(c);
    }
}

proof fn lemma_heads_are_not_blank(c: Command)
    ensures
        failure_head(c).len() > 0,
{
    reveal_strlit("Reorder failed: ");
    reveal_strlit("Copy failed: ");
    reveal_strlit("Cherry-pick failed: ");
    reveal_strlit("Squash failed: ");
    reveal_strlit("Restore failed: ");
    reveal_strlit("Fixup failed: ");
    reveal_strlit("Drop failed: ");
    reveal_strlit("Revert failed: ");
    reveal_strlit("Merge-out failed: ");
    reveal_strlit("Restore to working tree failed: ");
    reveal_strlit("Couldn't fix the summary: ");
    reveal_strlit("Message save failed: ");
    reveal_strlit("File save failed: ");
    reveal_strlit("Identity save failed: ");
    reveal_strlit("Working-copy edit failed: ");
    reveal_strlit("Commit failed: ");
    reveal_strlit("Split failed: ");
    reveal_strlit("Resolve failed: ");
    reveal_strlit("Time-travel failed: ");
    reveal_strlit("Reload failed: ");
    reveal_strlit("Compare failed: ");
    reveal_strlit("Could not change the branch set: ");
}

/// The commits of a batch are those of the selected changes, in the order of the
/// selection, each at its first place; a change that no commit carries is left out.
/// `at` lists the others.
pub proof fn law_batch_holds_the_selected(
    commits: &[CommitInfo],
    selected: &[String],
    r: Vec<usize>,
    at: Seq<int>,
)
    requires
        call_ensures(batch_commits, (commits, selected), r),
        indices::lists(
            at,
            0,
            selected@.len() as int,
            |i: int| conflict_mode::carried(commits@, selected@[i]@),
        ),
    ensures
        r@.len() == at.len(),
        forall|k: int|
            0 <= k < r@.len() ==> conflict_mode::first_carrier(
                commits@,
                selected@[at[k]]@,
                (#[trigger] r@[k]) as int,
            ),
{
    let all = r@.map_values(|x: usize| x as int);
    assert(all.len() == r@.len());
    assert(text::texts(selected@) =~= text::texts(selected@.take(selected@.len() as int)));
    lemma_batch_listed(commits@, selected@, selected@.len() as int, at);
    assert forall|k: int| 0 <= k < r@.len() implies conflict_mode::first_carrier(
        commits@,
        selected@[at[k]]@,
        (#[trigger] r@[k]) as int,
    ) by {
        assert(all[k] == r@[k] as int);
    }
}

proof fn lemma_batch_listed(
    commits: Seq<CommitInfo>,
    selected: Seq<String>,
    n: int,
    at: Seq<int>,
)
    requires
        0 <= n <= selected.len(),
        indices::lists(at, 0, n, |i: int| conflict_mode::carried(commits, selected[i]@)),
    ensures
        batch(commits, text::texts(selected.take(n))).len() == at.len(),
        forall|k: int|
            0 <= k < at.len() ==> conflict_mode::first_carrier(
                commits,
                selected[at[k]]@,
                #[trigger] batch(commits, text::texts(selected.take(n)))[k],
            ),
    decreases n,
{
    let p = |i: int| conflict_mode::carried(commits, selected[i]@);
    indices::lemma_lists_step(at, 0, n, p);
    let t = text::texts(selected.take(n));
    if n > 0 {
        assert(t.drop_last() =~= text::texts(selected.take(n - 1)));
        assert(t.last() == selected[n - 1]@);
        let k = conflict_mode::lemma_position(commits, selected[n - 1]@);
        assert(p(n - 1) == (k < commits.len())) by {
            if k < commits.len() {
                assert(commits[k].change_id@ == selected[n - 1]@);
            }
        }
        if p(n - 1) {
            lemma_batch_listed(commits, selected, n - 1, at.drop_last());
            assert forall|j: int| 0 <= j < at.len() implies conflict_mode::first_carrier(
                commits,
                selected[at[j]]@,
                #[trigger] batch(commits, t)[j],
            ) by {
                if j < at.len() - 1 {
                    assert(at.drop_last()[j] == at[j]);
                    assert(batch(commits, t)[j] == batch(commits, t.drop_last())[j]);
                }
            }
        } else {
            lemma_batch_listed(commits, selected, n - 1, at);
        }
    }
}

} // verus!
