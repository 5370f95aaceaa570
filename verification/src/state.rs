//! What the pane is for: the diff of commits, or the conflicts of a rewrite.
use crate::conflict_mode;
use crate::model::ConflictedCommit;
use crate::text;
use vstd::prelude::*;

verus! {

/// The hint on saving edits to a commit.
pub const SAVE_HINT_DIFF: &'static str = "Save your edits to this commit — message, identity, or file content — rewriting it in place and rebasing its descendants onto the result.";

/// The hint on saving while conflicts are resolved.
pub const SAVE_HINT_CONFLICT: &'static str = "Resolve the conflicted file shown above. When a rewrite conflicts across several files you resolve them one at a time — save each in turn; the rewrite is applied to git only once the last conflict is cleared.";

/// The hint on saving an uncommitted entry.
pub const SAVE_HINT_WORKCOPY: &'static str = "With no commit message, save your diff edits back to the working copy, still uncommitted. Type a message to instead commit the uncommitted changes on top of HEAD — author/committer default to your git identity unless you set them.";

/// The hint on aborting a rewrite.
pub const ABORT_HINT: &'static str = "Discard the entire rewrite and roll the repository back to the state it had before you saved, leaving git untouched.";

/// The hint on splitting a commit.
pub const SPLIT_HINT: &'static str = "Split this commit in two: rewrite it to your edited diff, and add a new commit after it holding the changes you took out — so the two together reproduce the original commit and its descendants stay unchanged.";

/// Said where an edit would break the patch.
pub const READ_ONLY_HINT: &'static str = "Edit blocked — this change would break the patch structure.";

/// Said where an edit would touch the layout of the conflict view.
pub const CONFLICT_LAYOUT_HINT: &'static str = "Edit blocked — this line is part of the conflict view layout. Edit within a snippet.";

/// Shown in place of a message that cannot be edited.
pub const SEVERAL_NOTE: &'static str = "Multiple commits selected — message not editable.";

/// Shown in place of a combined diff that conflicts.
pub const CONFLICTING_NOTE: &'static str = "The combined diff of the selected commits is conflicting — not representable as a single diff.";

/// Shown where a session has changed no content.
pub const NO_CHANGES_NOTE: &'static str = "No content changes since the session started.";

/// What the pane is for.
#[derive(Clone, Debug)]
pub enum PaneMode {
    /// The diff of commits.
    Diff,
    /// The conflicts of a rewrite that is held back, oldest commit first.
    Conflict(Vec<ConflictedCommit>),
}

impl PaneMode {
    /// Whether conflicts are being resolved.
    pub fn is_conflict(&self) -> (r: bool)
        ensures
            r == (self is Conflict),
    {
        match self {
            PaneMode::Diff => false,
            PaneMode::Conflict(_) => true,
        }
    }

    /// Turns to the conflicts of a rewrite. Returns the change to select: the first
    /// with a conflicted file.
    pub fn enter(&mut self, commits: Vec<ConflictedCommit>) -> (r: Option<String>)
        ensures
            *final(self) == PaneMode::Conflict(commits),
            text::opt_text(r) == conflict_mode::first_badge(commits@),
    {
        let first = conflict_mode::first_conflicted(commits.as_slice());
        *self = PaneMode::Conflict(commits);
        first
    }

    /// Takes over the conflicts that are left after one has been resolved. Outside of
    /// conflicts nothing changes.
    pub fn update(&mut self, commits: Vec<ConflictedCommit>)
        ensures
            *final(self) == match *old(self) {
                PaneMode::Diff => PaneMode::Diff,
                PaneMode::Conflict(_) => PaneMode::Conflict(commits),
            },
    {
        if self.is_conflict() {
            *self = PaneMode::Conflict(commits);
        }
    }

    /// Turns back to the diff.
    pub fn exit(&mut self)
        ensures
            *final(self) == PaneMode::Diff,
    {
        *self = PaneMode::Diff;
    }

    /// The changes to badge in the history: those with conflicted files.
    pub fn conflicted_changes(&self) -> (r: Vec<String>)
        ensures
            text::texts(r@) == match *self {
                PaneMode::Diff => Seq::<Seq<char>>::empty(),
                PaneMode::Conflict(commits) => conflict_mode::badges(
                    commits@,
                    commits@.len() as int,
                ),
            },
    {
        match self {
            PaneMode::Diff => {
                let none: Vec<String> = Vec::new();
                assert(text::texts(none@) =~= Seq::<Seq<char>>::empty());
                none
            },
            PaneMode::Conflict(commits) => conflict_mode::conflicted_changes(commits.as_slice()),
        }
    }

    /// The hint on the save button: what saving means for what the pane shows.
    pub fn save_hint(&self, entry: bool) -> (r: &'static str)
        ensures
            r@ == if self is Conflict {
                SAVE_HINT_CONFLICT@
            } else if entry {
                SAVE_HINT_WORKCOPY@
            } else {
                SAVE_HINT_DIFF@
            },
    {
        if self.is_conflict() {
            SAVE_HINT_CONFLICT
        } else if entry {
            SAVE_HINT_WORKCOPY
        } else {
            SAVE_HINT_DIFF
        }
    }
}

} // verus!
