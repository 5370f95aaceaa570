//! The plain data that the history engine hands to the front end and takes back.
use vstd::prelude::*;

verus! {

/// One `@@` hunk of the combined diff: where its header stands and which change
/// groups of its file it covers.
#[derive(Clone, Copy, Debug, PartialEq, Eq, Structural)]
pub struct HunkInfo {
    /// Buffer line of the `@@` header.
    pub header_line: usize,
    /// First change group of the file that the hunk covers.
    pub first_group: usize,
    /// Last change group of the file that the hunk covers.
    pub last_group: usize,
    /// Whether hidden context remains above the hunk.
    pub can_expand_up: bool,
    /// Whether hidden context remains below the hunk.
    pub can_expand_down: bool,
}

/// One file's place in the combined diff buffer.
#[derive(Clone, Debug)]
pub struct CombinedFile {
    pub path: String,
    /// Buffer line of the `diff --git` separator.
    pub start_line: usize,
    /// Whether the file's diff may be edited.
    pub editable: bool,
    pub hunks: Vec<HunkInfo>,
}

/// How a commit touches a file.
#[derive(Clone, Copy, Debug, PartialEq, Eq, Structural)]
pub enum ChangeKind {
    Added,
    Removed,
    Modified,
}

/// One file that a commit changes, with its text on both sides.
#[derive(Clone, Debug)]
pub struct FileChange {
    pub path: String,
    pub kind: ChangeKind,
    /// `None` where the file does not exist before the commit.
    pub old_text: Option<String>,
    /// `None` where the file does not exist after the commit.
    pub new_text: Option<String>,
    pub is_binary: bool,
    /// The file is conflicted on the old side, so its diff is not editable.
    pub conflicted_base: bool,
}

/// What a line of a unified diff is.
#[derive(Clone, Copy, Debug, PartialEq, Eq, Structural)]
pub enum DiffLineKind {
    Context,
    Added,
    Removed,
    /// A `@@` header.
    Hunk,
    /// A line of a file's header.
    Header,
    /// A note such as the one on a missing line break at the end of a file.
    Meta,
}

/// A line of a unified diff: its kind and the ranges, in bytes of the code behind
/// the marker, that differ from the line it replaces.
#[derive(Clone, Debug)]
pub struct DiffLine {
    pub kind: DiffLineKind,
    pub intra: Vec<(usize, usize)>,
}

/// What a line of a materialized conflict belongs to.
#[derive(Clone, Copy, Debug, PartialEq, Eq, Structural)]
pub enum ConflictLineKind {
    /// Outside every conflict block.
    Plain,
    Ours,
    Base,
    Theirs,
    MarkerOurs,
    MarkerBase,
    MarkerSep,
    MarkerTheirs,
}

/// A run of a conflicted file's lines as the snippet view shows it.
#[allow(inconsistent_fields)]
#[derive(Clone, Debug)]
pub enum ConflictPiece {
    /// Lines that are shown one by one.
    Shown { lines: usize },
    /// Lines that hide behind a single placeholder line.
    Elided { lines: Vec<String> },
}

/// One conflicted file of the combined conflict-snippet buffer.
#[derive(Clone, Debug)]
pub struct ConflictFileView {
    pub path: String,
    /// False for a structural conflict, shown as a read-only notice.
    pub resolvable: bool,
    /// The conflict marker length, handed back when the file is resolved.
    pub marker_len: usize,
    /// The file's full text with conflict markers.
    pub full_text: String,
    /// What each line of `full_text` belongs to.
    pub kinds: Vec<ConflictLineKind>,
    /// The pieces recorded when the snippet was rendered.
    pub pieces: Vec<ConflictPiece>,
    /// The blocks above and below each elided run, in document order.
    pub gaps: Vec<(Option<usize>, Option<usize>)>,
}

/// A commit's identity, in hexadecimal.
#[derive(Clone, Debug, PartialEq, Eq)]
pub struct CommitId {
    pub hex: String,
}

impl View for CommitId {
    type V = Seq<char>;

    open spec fn view(&self) -> Seq<char> {
        self.hex@
    }
}

/// One commit of the history.
#[derive(Clone, Debug, PartialEq, Eq)]
pub struct CommitInfo {
    pub id: CommitId,
    /// The identity that stays with the commit when it is rewritten.
    pub change_id: String,
    /// The first line of the description.
    pub subject: String,
    pub description: String,
    pub author_name: String,
    pub author_email: String,
    pub committer_name: String,
    pub committer_email: String,
    pub author_time: String,
    pub committer_time: String,
    pub parents: Vec<CommitId>,
}

/// What a ref is.
#[derive(Clone, Copy, Debug, PartialEq, Eq, Structural)]
pub enum RefKind {
    Branch,
    Tag,
}

/// A branch or tag that points at a commit.
#[derive(Clone, Debug, PartialEq, Eq)]
pub struct RefDecoration {
    pub name: String,
    pub kind: RefKind,
    /// Whether it is the checked-out branch.
    pub current: bool,
}

/// One uncommitted entry of a working copy.
#[derive(Clone, Debug)]
pub struct WorkingCopyEntry {
    pub info: CommitInfo,
    /// The paths of the changed files.
    pub file_names: Vec<String>,
    pub has_conflict: bool,
}

/// The uncommitted entries of one branch's worktree, newest first. The last one
/// sits on the branch's tip.
#[derive(Clone, Debug)]
pub struct Uncommitted {
    pub branch: String,
    pub entries: Vec<WorkingCopyEntry>,
}

/// One row of the ancestry graph.
#[derive(Clone, Debug)]
pub struct GraphRow {
    /// The lane of the commit's node.
    pub node_lane: usize,
    /// The lines from the upper edge to the node's height, as lanes from and to.
    pub edges_above: Vec<(usize, usize)>,
    /// The lines from the node's height to the lower edge, as lanes from and to.
    pub edges_below: Vec<(usize, usize)>,
    pub is_merge: bool,
}

/// A conflicted file of a commit.
#[derive(Clone, Debug)]
pub struct ConflictedFile {
    pub path: String,
    /// Whether the conflict can be resolved as text.
    pub resolvable: bool,
}

/// A commit whose rewrite left conflicts.
#[derive(Clone, Debug)]
pub struct ConflictedCommit {
    pub change_id: String,
    pub files: Vec<ConflictedFile>,
}

/// Who wrote a commit and who committed it, and when.
#[derive(Clone, Debug, PartialEq, Eq)]
pub struct Identity {
    pub author_name: String,
    pub author_email: String,
    pub author_time: String,
    pub committer_name: String,
    pub committer_email: String,
    pub committer_time: String,
}

/// The texts of an [`Identity`]; a person is a name and an email.
pub ghost struct IdentityText {
    pub author: (Seq<char>, Seq<char>),
    pub author_time: Seq<char>,
    pub committer: (Seq<char>, Seq<char>),
    pub committer_time: Seq<char>,
}

impl View for Identity {
    type V = IdentityText;

    open spec fn view(&self) -> IdentityText {
        IdentityText {
            author: (self.author_name@, self.author_email@),
            author_time: self.author_time@,
            committer: (self.committer_name@, self.committer_email@),
            committer_time: self.committer_time@,
        }
    }
}

impl CommitInfo {
    /// The identity that the commit carries.
    pub open spec fn identity(&self) -> IdentityText {
        IdentityText {
            author: (self.author_name@, self.author_email@),
            author_time: self.author_time@,
            committer: (self.committer_name@, self.committer_email@),
            committer_time: self.committer_time@,
        }
    }
}

/// Where a commit goes: between its new parents and its new children.
#[derive(Clone, Debug, PartialEq, Eq)]
pub struct ReorderMove {
    pub target: CommitId,
    pub new_parents: Vec<CommitId>,
    pub new_children: Vec<CommitId>,
    pub new_tip: CommitId,
}

/// A line of the ancestry graph that crosses a gap, and the move into it.
#[derive(Clone, Debug, PartialEq, Eq)]
pub struct Candidate {
    pub lane: usize,
    pub mv: ReorderMove,
}

/// A local branch and the commit at its head.
#[derive(Clone, Debug, PartialEq, Eq)]
pub struct LocalBranch {
    pub name: String,
    pub head: CommitId,
}

/// A line of the ancestry graph between two rows: a commit and its children above.
#[derive(Clone, Debug, PartialEq, Eq)]
pub struct BoundaryEdge {
    pub parent: CommitId,
    pub children: Vec<CommitId>,
}

/// One recorded operation of a session.
#[derive(Clone, Debug, PartialEq, Eq)]
pub struct SessionOp {
    pub label: String,
    /// The change ids of the commits that it touched.
    pub affected: Vec<String>,
}

} // verus!
