//! The frame around the editor: the history that is loaded, the branches that can be
//! edited, the way back through the session, the search, and the file list.
use crate::indices;
use crate::model::{BoundaryEdge, CommitId, CommitInfo, LocalBranch, SessionOp};
use crate::msglint;
use crate::rows;
use crate::search;
use crate::text;
use vstd::prelude::*;

verus! {

/// How many commits are loaded at a time.
pub const HISTORY_PAGE: usize = 64;

/// The label of the state that a session began with.
pub const SESSION_START: &'static str = "Session start";

/// The texts of commit ids.
pub open spec fn ids(v: Seq<CommitId>) -> Seq<Seq<char>> {
    v.map_values(|c: CommitId| c@)
}

fn copy_id(id: &CommitId) -> (r: CommitId)
    ensures
        r@ == id@,
{
    CommitId { hex: id.hex.clone() }
}

/// The head of the branch `name`: that of the first branch of that name.
pub open spec fn head_of(branches: Seq<LocalBranch>, name: Seq<char>, i: int) -> Option<Seq<char>>
    decreases branches.len() - i,
{
    if i < 0 || i >= branches.len() {
        None
    } else if branches[i].name@ == name {
        Some(branches[i].head@)
    } else {
        head_of(branches, name, i + 1)
    }
}

fn find_head(branches: &[LocalBranch], name: &str) -> (r: Option<usize>)
    ensures
        match r {
            Some(i) => i < branches@.len() && head_of(branches@, name@, 0) == Some(
                branches@[i as int].head@,
            ),
            None => head_of(branches@, name@, 0) is None,
        },
{
    let mut i: usize = 0;
    while i < branches.len()
        invariant
            i <= branches@.len(),
            head_of(branches@, name@, 0) == head_of(branches@, name@, i as int),
        decreases branches.len() - i,
    {
        if text::same_text(branches[i].name.as_str(), name) {
            return Some(i);
        }
        i += 1;
    }
    None
}

/// The commits that the history is walked from: the head, and where several branches
/// can be edited the heads of the others.
pub open spec fn walk_heads(
    head: Seq<char>,
    editable: Seq<Seq<char>>,
    branches: Seq<LocalBranch>,
    n: int,
) -> Seq<Seq<char>>
    decreases n,
{
    if n <= 0 {
        seq![head]
    } else {
        let init = walk_heads(head, editable, branches, n - 1);
        match head_of(branches, editable[n - 1], 0) {
            Some(h) => if h != head {
                init.push(h)
            } else {
                init
            },
            None => init,
        }
    }
}

/// The commits that the history is walked from.
pub fn history_heads(head: &CommitId, editable: &[String], branches: &[LocalBranch]) -> (r: Vec<
    CommitId,
>)
    ensures
        ids(r@) == if editable@.len() <= 1 {
            seq![head@]
        } else {
            walk_heads(head@, text::texts(editable@), branches@, editable@.len() as int)
        },
{
    let ghost ge = text::texts(editable@);
    let mut out: Vec<CommitId> = Vec::new();
    out.push(copy_id(head));
    assert(ids(out@) =~= seq![head@]);
    if editable.len() <= 1 {
        return out;
    }
    let mut i: usize = 0;
    while i < editable.len()
        invariant
            i <= editable@.len(),
            ge == text::texts(editable@),
            ids(out@) == walk_heads(head@, ge, branches@, i as int),
        decreases editable.len() - i,
    {
        assert(ge[i as int] == editable@[i as int]@);
        let ghost o0 = out@;
        if let Some(k) = find_head(branches, editable[i].as_str()) {
            if !text::same_text(branches[k].head.hex.as_str(), head.hex.as_str()) {
                out.push(copy_id(&branches[k].head));
                assert(ids(out@) =~= ids(o0).push(branches@[k as int].head@));
            }
        }
        i += 1;
    }
    out
}

/// The names other than `name`.
pub open spec fn others(v: Seq<Seq<char>>, name: Seq<char>) -> Seq<Seq<char>>
    decreases v.len(),
{
    if v.len() == 0 {
        v
    } else {
        let init = others(v.drop_last(), name);
        if v.last() == name {
            init
        } else {
            init.push(v.last())
        }
    }
}

/// The branches that can be edited once one is ticked or unticked.
pub open spec fn ticked(editable: Seq<Seq<char>>, name: Seq<char>, on: bool) -> Seq<Seq<char>> {
    if !on {
        others(editable, name)
    } else if editable.contains(name) {
        editable
    } else {
        editable.push(name)
    }
}

/// The branches that can be edited once one is ticked or unticked: the others keep
/// their order, a new one comes last. None may be left.
pub fn toggle_branch(editable: &Vec<String>, name: &str, on: bool) -> (r: Vec<String>)
    ensures
        text::texts(r@) == ticked(text::texts(editable@), name@, on),
{
    let ghost ge = text::texts(editable@);
    let mut out: Vec<String> = Vec::new();
    if on {
        out = text::copy_texts(editable);
        if !text::contains_text(editable.as_slice(), name) {
            let ghost o0 = out@;
            out.push(name.to_string());
            assert(text::texts(out@) =~= text::texts(o0).push(name@));
        }
        return out;
    }
    let mut i: usize = 0;
    assert(text::texts(out@) =~= others(ge.take(0), name@));
    while i < editable.len()
        invariant
            i <= editable@.len(),
            ge == text::texts(editable@),
            text::texts(out@) == others(ge.take(i as int), name@),
        decreases editable.len() - i,
    {
        assert(ge[i as int] == editable@[i as int]@);
        let ghost o0 = out@;
        assert(ge.take(i + 1).drop_last() =~= ge.take(i as int));
        assert(ge.take(i + 1).last() == ge[i as int]);
        if !text::same_text(editable[i].as_str(), name) {
            out.push(editable[i].clone());
            assert(text::texts(out@) =~= text::texts(o0).push(ge[i as int]));
        }
        i += 1;
    }
    assert(ge.take(i as int) =~= ge);
    out
}

/// A branch that is ticked and then unticked leaves the others as they were.
pub proof fn law_untick_undoes_tick(editable: Seq<Seq<char>>, name: Seq<char>)
    requires
        !editable.contains(name),
    ensures
        ticked(ticked(editable, name, true), name, false) == editable,
{
    lemma_no_others_lost(editable, name);
    assert(editable.push(name).drop_last() =~= editable);
}

proof fn lemma_no_others_lost(v: Seq<Seq<char>>, name: Seq<char>)
    requires
        !v.contains(name),
    ensures
        others(v, name) == v,
    decreases v.len(),
{
    if v.len() > 0 {
        let t = v.drop_last();
        assert(!t.contains(name)) by {
            if t.contains(name) {
                let i = choose|i: int| 0 <= i < t.len() && t[i] == name;
                assert(v[i] == name);
            }
        }
        lemma_no_others_lost(t, name);
        assert(v.contains(v[v.len() - 1]));
        assert(t.push(v.last()) =~= v);
    }
}

/// How many commits to load once the end of the list is reached; `None` where no more
/// are to be loaded.
pub fn next_limit(limit: usize, at_bottom: bool, more: bool, conflict: bool) -> (r: Option<usize>)
    requires
        limit + HISTORY_PAGE <= usize::MAX,
    ensures
        r == if at_bottom && more && !conflict {
            Some((limit + HISTORY_PAGE) as usize)
        } else {
            None::<usize>
        },
{
    if at_bottom && more && !conflict {
        Some(limit + HISTORY_PAGE)
    } else {
        None
    }
}

/// The title of the window: the folder, and where the branch is not checked out its
/// name.
pub open spec fn title_text(folder: Seq<char>, branch: Option<Seq<char>>, bound: bool) -> Seq<char> {
    if bound {
        "Commit editor - "@ + folder
    } else {
        "Commit editor - "@ + folder + " ["@ + (match branch {
            Some(b) => b,
            None => "?"@,
        }) + "]"@
    }
}

/// The title of the window.
pub fn title(folder: &str, branch: Option<&str>, bound: bool) -> (r: String)
    ensures
        r@ == title_text(
            folder@,
            match branch {
                Some(b) => Some(b@),
                None => None,
            },
            bound,
        ),
{
    let mut out = text::chars_of("Commit editor - ");
    text::push_text(&mut out, folder);
    if !bound {
        text::push_text(&mut out, " [");
        match branch {
            Some(b) => {
                text::push_text(&mut out, b);
            },
            None => {
                text::push_text(&mut out, "?");
            },
        }
        text::push_text(&mut out, "]");
    }
    text::string_of(&out)
}

/// A state of the session that can be gone back to.
#[derive(Clone, Debug, PartialEq, Eq)]
pub struct HistoryEntry {
    /// How many operations have been made in that state.
    pub target: usize,
    pub label: String,
    pub affected: Vec<String>,
}

/// What an entry holds.
pub ghost struct EntryText {
    pub target: int,
    pub label: Seq<char>,
    pub affected: Seq<Seq<char>>,
}

impl View for HistoryEntry {
    type V = EntryText;

    open spec fn view(&self) -> EntryText {
        EntryText {
            target: self.target as int,
            label: self.label@,
            affected: text::texts(self.affected@),
        }
    }
}

/// What entries hold.
pub open spec fn entry_texts(v: Seq<HistoryEntry>) -> Seq<EntryText> {
    v.map_values(|e: HistoryEntry| e@)
}

/// The states of a session: one after every operation, the newest first, and below
/// them the one that it began with.
pub open spec fn session_entries(ops: Seq<SessionOp>) -> Seq<EntryText> {
    Seq::new(
        ops.len() + 1,
        |i: int|
            if i < ops.len() {
                EntryText {
                    target: ops.len() - i,
                    label: ops[ops.len() - 1 - i].label@,
                    affected: text::texts(ops[ops.len() - 1 - i].affected@),
                }
            } else {
                EntryText {
                    target: 0,
                    label: SESSION_START@,
                    affected: Seq::<Seq<char>>::empty(),
                }
            },
    )
}

/// The states of a session that can be gone to.
pub fn history_entries(ops: &[SessionOp]) -> (r: Vec<HistoryEntry>)
    ensures
        entry_texts(r@) == session_entries(ops@),
{
    let ghost all = session_entries(ops@);
    let mut out: Vec<HistoryEntry> = Vec::new();
    let mut n: usize = ops.len();
    assert(entry_texts(out@) =~= all.take(0));
    while n > 0
        invariant
            n <= ops@.len(),
            all == session_entries(ops@),
            entry_texts(out@) == all.take(ops@.len() - n),
        decreases n,
    {
        let ghost o0 = out@;
        let op = &ops[n - 1];
        out.push(
            HistoryEntry {
                target: n,
                label: op.label.clone(),
                affected: text::copy_texts(&op.affected),
            },
        );
        n -= 1;
        assert(entry_texts(out@) =~= entry_texts(o0).push(all[ops@.len() - n - 1]));
        assert(entry_texts(out@) =~= all.take(ops@.len() - n));
    }
    let ghost o0 = out@;
    let none: Vec<String> = Vec::new();
    assert(text::texts(none@) =~= Seq::<Seq<char>>::empty());
    out.push(HistoryEntry { target: 0, label: SESSION_START.to_string(), affected: none });
    assert(entry_texts(out@) =~= entry_texts(o0).push(all[ops@.len() as int]));
    assert(entry_texts(out@) =~= all);
    out
}

/// Where a state stands: it is the present one, or one that was gone back from.
#[derive(Clone, Copy, Debug, PartialEq, Eq, Structural)]
pub struct EntryMark {
    pub current: bool,
    pub future: bool,
}

/// Where the state `target` stands while `cursor` operations are in effect.
pub fn entry_mark(target: usize, cursor: usize) -> (r: EntryMark)
    ensures
        r == (EntryMark { current: target == cursor, future: target > cursor }),
{
    EntryMark { current: target == cursor, future: target > cursor }
}

/// Exactly one entry of a session is marked as the present one.
pub proof fn law_one_state_is_present(ops: Seq<SessionOp>, cursor: int)
    requires
        0 <= cursor <= ops.len(),
    ensures
        session_entries(ops)[ops.len() - cursor].target == cursor,
        forall|i: int|
            0 <= i < session_entries(ops).len() && (#[trigger] session_entries(ops)[i]).target
                == cursor ==> i == ops.len() - cursor,
{
}

/// The mark before an entry.
pub fn entry_bullet(current: bool) -> (r: &'static str)
    ensures
        r@ == if current {
            "\u{25CF}"@
        } else {
            " "@
        },
{
    if current {
        "\u{25CF}"
    } else {
        " "
    }
}

/// The markup of the present entry's label: bold, and escaped.
pub fn current_markup(label: &str) -> (r: String)
    requires
        text::free_of(label@, '\0'),
    ensures
        r@ == "<b>"@ + search::markup(
            search::escaped_pieces(label@),
            Seq::<usize>::empty(),
        ) + "</b>"@,
{
    let none: Vec<usize> = Vec::new();
    assert(none@ =~= Seq::<usize>::empty());
    let mut out = text::chars_of("<b>");
    text::push_text(&mut out, search::highlight_markup(label, none.as_slice()).as_str());
    text::push_text(&mut out, "</b>");
    text::string_of(&out)
}

/// The short id under the state that a session began with.
pub fn start_subtitle(id: &str) -> (r: String)
    ensures
        r@ == if id@.len() > 12 {
            id@.take(12)
        } else {
            id@
        },
{
    let v = text::chars_of(id);
    if v.len() > 12 {
        let head = text::slice_of(&v, 0, 12);
        assert(head@ =~= id@.take(12));
        text::string_of(&head)
    } else {
        id.to_string()
    }
}

/// What is said once a state has been gone to.
pub fn travelled_text(label: &str) -> (r: String)
    ensures
        r@ == "Travelled to: "@ + label@,
{
    let mut out = text::chars_of("Travelled to: ");
    text::push_text(&mut out, label);
    text::string_of(&out)
}

/// The match that the next press of Enter selects: the first, then each in turn, and
/// the first again.
pub fn next_match(cursor: Option<usize>, matches: usize) -> (r: Option<usize>)
    ensures
        r == if matches == 0 {
            None::<usize>
        } else {
            match cursor {
                None => Some(0usize),
                Some(c) => Some(((c + 1) % matches as int) as usize),
            }
        },
        r matches Some(i) ==> i < matches,
{
    if matches == 0 {
        return None;
    }
    match cursor {
        None => Some(0),
        Some(c) => {
            if c < matches - 1 {
                assert((c + 1) % matches as int == c + 1) by (nonlinear_arith)
                    requires
                        c + 1 < matches,
                ;
                Some(c + 1)
            } else {
                let back: usize = c - (matches - 1);
                assert((c + 1) % matches as int == back % matches) by (nonlinear_arith)
                    requires
                        back == c + 1 - matches,
                        matches > 0,
                ;
                Some(back % matches)
            }
        },
    }
}

/// The file that a turn of the wheel over the file list goes to: the next or the one
/// before, within the `n` files. `None` where there is no file, or none is selected.
pub fn step_file(selected: Option<u32>, n: u32, down: bool, up: bool) -> (r: Option<u32>)
    requires
        selected matches Some(c) ==> c < u32::MAX,
    ensures
        r == match selected {
            Some(c) => if n == 0 {
                None::<u32>
            } else if down {
                Some(
                    if c + 1 < n {
                        (c + 1) as u32
                    } else {
                        (n - 1) as u32
                    },
                )
            } else if up && c > 0 {
                Some((c - 1) as u32)
            } else {
                Some(c)
            },
            None => None,
        },
{
    match selected {
        Some(c) => if n == 0 {
            None
        } else if down {
            if c + 1 < n {
                Some(c + 1)
            } else {
                Some(n - 1)
            }
        } else if up && c > 0 {
            Some(c - 1)
        } else {
            Some(c)
        },
        None => None,
    }
}

/// The file to select once the list of `n` files is loaded anew: the first, or where
/// the pane keeps its place the one selected before.
pub fn reload_file(previous: Option<u32>, n: u32, keep: bool) -> (r: u32)
    ensures
        r == match previous {
            Some(p) => if keep && n > 0 {
                if p < n {
                    p
                } else {
                    (n - 1) as u32
                }
            } else {
                0
            },
            None => 0,
        },
{
    match previous {
        Some(p) => if keep && n > 0 {
            if p < n {
                p
            } else {
                n - 1
            }
        } else {
            0
        },
        None => 0,
    }
}

/// The first two tab stops for tabs of `width` cells: one cell further right than
/// usual, as every line of a diff begins with its marker. `None` while the width of a
/// cell is not known.
pub fn tab_stops(cell: i32, width: u32) -> (r: Option<(i32, i32)>)
    requires
        cell > 0 ==> cell + 2 * (cell * width) <= i32::MAX,
    ensures
        r == if cell <= 0 {
            None::<(i32, i32)>
        } else {
            Some(((cell + cell * width) as i32, (cell + 2 * (cell * width)) as i32))
        },
{
    if cell <= 0 {
        return None;
    }
    assert(0 <= cell * width) by (nonlinear_arith)
        requires
            cell > 0,
    ;
    assert(cell * width <= i32::MAX);
    let unit: i64 = cell as i64 * width as i64;
    Some(((cell as i64 + unit) as i32, (cell as i64 + 2 * unit) as i32))
}

/// The children of a commit on the line that leaves it: those of the first edge of
/// the boundary above it that ends in it.
pub open spec fn children_on_line(edges: Seq<BoundaryEdge>, target: Seq<char>, i: int) -> Seq<
    Seq<char>,
>
    decreases edges.len() - i,
{
    if i < 0 || i >= edges.len() {
        Seq::<Seq<char>>::empty()
    } else if edges[i].parent@ == target {
        ids(edges[i].children@)
    } else {
        children_on_line(edges, target, i + 1)
    }
}

/// The children that a commit put directly on top of commit `ci` gets. The newest
/// commit has none.
pub open spec fn splice_children(
    boundaries: Seq<Vec<BoundaryEdge>>,
    ci: int,
    target: Seq<char>,
) -> Seq<Seq<char>> {
    if 0 < ci <= boundaries.len() {
        children_on_line(boundaries[ci - 1]@, target, 0)
    } else {
        Seq::<Seq<char>>::empty()
    }
}

fn copy_ids(v: &Vec<CommitId>) -> (r: Vec<CommitId>)
    ensures
        ids(r@) == ids(v@),
{
    let mut out: Vec<CommitId> = Vec::new();
    let mut i: usize = 0;
    assert(ids(out@) =~= ids(v@).take(0));
    while i < v.len()
        invariant
            i <= v@.len(),
            ids(out@) == ids(v@).take(i as int),
        decreases v.len() - i,
    {
        let ghost o0 = out@;
        out.push(copy_id(&v[i]));
        assert(ids(out@) =~= ids(o0).push(ids(v@)[i as int]));
        assert(ids(out@) =~= ids(v@).take(i + 1));
        i += 1;
    }
    assert(ids(v@).take(i as int) =~= ids(v@));
    out
}

/// The children that a revert or a merge on top of commit `ci` gets, given the edges
/// between every two rows of the graph.
pub fn new_children(boundaries: &[Vec<BoundaryEdge>], ci: usize, target: &CommitId) -> (r: Vec<
    CommitId,
>)
    ensures
        ids(r@) == splice_children(boundaries@, ci as int, target@),
{
    let none: Vec<CommitId> = Vec::new();
    assert(ids(none@) =~= Seq::<Seq<char>>::empty());
    if ci == 0 || ci - 1 >= boundaries.len() {
        return none;
    }
    let edges = &boundaries[ci - 1];
    let mut i: usize = 0;
    while i < edges.len()
        invariant
            i <= edges@.len(),
            0 < ci <= boundaries@.len(),
            edges@ == boundaries@[ci - 1]@,
            children_on_line(edges@, target@, 0) == children_on_line(edges@, target@, i as int),
        decreases edges.len() - i,
    {
        if text::same_text(edges[i].parent.hex.as_str(), target.hex.as_str()) {
            return copy_ids(&edges[i].children);
        }
        i += 1;
    }
    none
}

/// The subjects of commits.
pub open spec fn subjects(commits: Seq<CommitInfo>) -> Seq<Seq<char>> {
    commits.map_values(|c: CommitInfo| c.subject@)
}

/// Whether `message` is the message of commit `ci` with its summary brought in line
/// with the style that the commits show; `None` where nothing can be mended without a
/// person.
pub open spec fn tidies(
    commits: Seq<CommitInfo>,
    ci: int,
    message: Option<Seq<char>>,
) -> bool {
    exists|style: msglint::RepoStyle| #[trigger]
        msglint::learned(style, msglint::samples(subjects(commits))) && message
            == match msglint::fixed(commits[ci].subject@, style) {
            Some(s) => Some(msglint::with_subject(commits[ci].description@, s)),
            None => None,
        }
}

/// The message of commit `ci` with its summary brought in line with the style that
/// the commits show; `None` where nothing can be mended without a person.
pub fn tidied_message(commits: &[CommitInfo], ci: usize) -> (r: Option<String>)
    requires
        ci < commits@.len(),
    ensures
        tidies(commits@, ci as int, text::opt_text(r)),
{
    let mut all: Vec<&str> = Vec::new();
    let mut i: usize = 0;
    while i < commits.len()
        invariant
            i <= commits@.len(),
            all@.len() == i,
            forall|j: int| 0 <= j < i ==> (#[trigger] all@[j])@ == commits@[j].subject@,
        decreases commits.len() - i,
    {
        all.push(commits[i].subject.as_str());
        i += 1;
    }
    assert(msglint::views(all@) =~= subjects(commits@));
    let style = msglint::RepoStyle::learn(all.as_slice());
    let c = &commits[ci];
    match msglint::autofix_subject(c.subject.as_str(), &style) {
        Some(s) => Some(msglint::replace_subject(c.description.as_str(), s.as_str())),
        None => None,
    }
}

/// A badge keeps its promise: where its tooltip says that a click fixes the summary,
/// tidying gives a message, and where it says that the message is to be edited, or
/// where there is no badge, tidying leaves the commit alone. A merge never has a badge,
/// and nothing is said of it.
pub proof fn law_badge_keeps_its_promise(
    commits: Seq<CommitInfo>,
    ci: int,
    style: msglint::RepoStyle,
    message: Option<Seq<char>>,
)
    requires
        0 <= ci < commits.len(),
        commits[ci].parents@.len() <= 1,
        msglint::learned(style, msglint::samples(subjects(commits))),
        tidies(commits, ci, message),
    ensures
        (match rows::badge(commits[ci], Some(style)) {
            Some(tip) => if message is Some {
                "Click to fix it automatically."@.is_suffix_of(tip)
            } else {
                "Click to edit the message."@.is_suffix_of(tip)
            },
            None => message is None,
        }),
        message is Some <==> msglint::any_fixable(rows::commit_lints(commits[ci], Some(style))),
{
    let subject = commits[ci].subject@;
    let learned = choose|style: msglint::RepoStyle| #[trigger]
        msglint::learned(style, msglint::samples(subjects(commits))) && message
            == match msglint::fixed(subject, style) {
            Some(s) => Some(msglint::with_subject(commits[ci].description@, s)),
            None => None,
        };
    msglint::law_learning_settles_the_answers(subjects(commits), style, learned, subject);
    msglint::law_fixed_exactly_where_fixable(subject, style);
    let lints = rows::commit_lints(commits[ci], Some(style));
    if let Some(tip) = rows::badge(commits[ci], Some(style)) {
        let head = "This summary is out of step with the repo's commit style:"@ + rows::bullets(
            lints,
        ) + "\n"@;
        let promise = if message is Some {
            "Click to fix it automatically."@
        } else {
            "Click to edit the message."@
        };
        assert(tip == head + promise);
        assert(promise =~= tip.subrange(tip.len() - promise.len(), tip.len() as int));
    }
}

/// Said where the summary is to be mended by hand.
pub const EDIT_SUMMARY: &'static str = "Edit the summary to match this repo's commit style";

/// Where the content of a trashed commit is restored to.
#[derive(Clone, Debug, PartialEq, Eq)]
pub enum RestoreTo {
    /// The worktree that the session was opened in.
    Launch,
    /// The worktree of the branch that the commit was dropped from.
    Branch(String),
    /// Nowhere, and why.
    Nowhere(String),
}

/// Where the content of a trashed commit is restored to: the worktree of the branch it
/// was dropped from, if that has one.
pub fn restore_to(origin: Option<String>, worktree: bool) -> (r: RestoreTo)
    ensures
        match text::opt_text(origin) {
            None => r == RestoreTo::Launch,
            Some(b) => if worktree {
                r matches RestoreTo::Branch(x) && x@ == b
            } else {
                r matches RestoreTo::Nowhere(t) && t@ == "Can't restore: branch "@ + b
                    + " has no worktree to restore into"@
            },
        },
{
    match origin {
        None => RestoreTo::Launch,
        Some(b) => if worktree {
            RestoreTo::Branch(b)
        } else {
            let mut out = text::chars_of("Can't restore: branch ");
            text::push_text(&mut out, b.as_str());
            text::push_text(&mut out, " has no worktree to restore into");
            RestoreTo::Nowhere(text::string_of(&out))
        },
    }
}

/// The caret after a text has been loaded anew: where it was, as far as the text goes.
pub fn restored_caret(before: i32, chars: i32) -> (r: i32)
    ensures
        r == if before < chars {
            before
        } else {
            chars
        },
{
    if before < chars {
        before
    } else {
        chars
    }
}

/// Stepping through the matches visits every one in turn and then begins anew: from
/// the first, as many steps as there are matches lead back to it, one match further
/// each time.
pub proof fn law_matches_are_visited_in_turn(
    cursor: Option<usize>,
    matches: usize,
    r: Option<usize>,
)
    requires
        call_ensures(next_match, (cursor, matches), r),
        cursor matches Some(c) ==> c < matches,
    ensures
        matches == 0 <==> r is None,
        matches > 0 && cursor is None ==> r == Some(0usize),
        cursor matches Some(c) ==> (c + 1 < matches ==> r == Some((c + 1) as usize)) && (c + 1
            == matches ==> r == Some(0usize)),
{
    if let Some(c) = cursor {
        if c + 1 < matches {
            vstd::arithmetic::div_mod::lemma_small_mod((c + 1) as nat, matches as nat);
        } else {
            vstd::arithmetic::div_mod::lemma_mod_self_0(matches as int);
        }
    }
}

/// The head of a branch is that of the first branch of its name.
proof fn lemma_head_is_the_first(branches: Seq<LocalBranch>, name: Seq<char>, i: int, k: int)
    requires
        0 <= i <= k < branches.len(),
        branches[k].name@ == name,
        forall|j: int| i <= j < k ==> (#[trigger] branches[j]).name@ != name,
    ensures
        head_of(branches, name, i) == Some(branches[k].head@),
    decreases k - i,
{
    if i < k {
        assert(branches[i].name@ != name);
        lemma_head_is_the_first(branches, name, i + 1, k);
    }
}

proof fn lemma_head_is_some_branch(branches: Seq<LocalBranch>, name: Seq<char>, i: int) -> (k: int)
    requires
        0 <= i,
        head_of(branches, name, i) is Some,
    ensures
        i <= k < branches.len(),
        branches[k].name@ == name,
        head_of(branches, name, i) == Some(branches[k].head@),
    decreases branches.len() - i,
{
    if branches[i].name@ == name {
        i
    } else {
        lemma_head_is_some_branch(branches, name, i + 1)
    }
}

proof fn lemma_walk_heads(
    head: Seq<char>,
    editable: Seq<Seq<char>>,
    branches: Seq<LocalBranch>,
    n: int,
)
    ensures
        walk_heads(head, editable, branches, n).len() > 0,
        walk_heads(head, editable, branches, n)[0] == head,
        forall|e: int|
            0 <= e < n && head_of(branches, #[trigger] editable[e], 0) is Some ==> walk_heads(
                head,
                editable,
                branches,
                n,
            ).contains(head_of(branches, editable[e], 0)->0),
        forall|k: int|
            1 <= k < walk_heads(head, editable, branches, n).len() ==> (#[trigger] walk_heads(
                head,
                editable,
                branches,
                n,
            )[k]) != head && is_branch_head(
                branches,
                editable,
                walk_heads(head, editable, branches, n)[k],
                n,
            ),
    decreases n,
{
    let now = walk_heads(head, editable, branches, n);
    if n <= 0 {
        assert(now[0] == head);
    } else {
        lemma_walk_heads(head, editable, branches, n - 1);
        let init = walk_heads(head, editable, branches, n - 1);
        assert forall|e: int|
            0 <= e < n && head_of(branches, #[trigger] editable[e], 0) is Some implies now.contains(
            head_of(branches, editable[e], 0)->0,
        ) by {
            let h = head_of(branches, editable[e], 0)->0;
            if e < n - 1 {
                assert(init.contains(h));
                let k = choose|k: int| 0 <= k < init.len() && init[k] == h;
                assert(now[k] == h);
            } else if h == head {
                assert(now[0] == h);
            } else {
                assert(now[init.len() as int] == h);
            }
        }
        assert forall|k: int| 1 <= k < now.len() implies (#[trigger] now[k]) != head
            && is_branch_head(branches, editable, now[k], n) by {
            if k < init.len() {
                assert(now[k] == init[k]);
                let (e, b) = choose|e: int, b: int|
                    0 <= e < n - 1 && 0 <= b < branches.len() && (#[trigger] branches[b]).name@
                        == #[trigger] editable[e] && branches[b].head@ == init[k];
                assert(branches[b].name@ == editable[e]);
            } else {
                let b = lemma_head_is_some_branch(branches, editable[n - 1], 0);
                assert(branches[b].name@ == editable[n - 1]);
            }
        }
    }
}

/// Whether `id` is the head of a branch whose name is among the first `n` of `editable`.
pub open spec fn is_branch_head(
    branches: Seq<LocalBranch>,
    editable: Seq<Seq<char>>,
    id: Seq<char>,
    n: int,
) -> bool {
    exists|e: int, b: int|
        0 <= e < n && 0 <= b < branches.len() && (#[trigger] branches[b]).name@
            == #[trigger] editable[e] && branches[b].head@ == id
}

/// The history is walked from the checked-out head first, then from the head of every
/// branch that is edited, each of them another commit than the first; a single branch
/// needs no more than the head. `branches[b]` is the first branch named `editable[e]`.
pub proof fn law_history_starts_at_the_edited_branches(
    head: &CommitId,
    editable: &[String],
    branches: &[LocalBranch],
    r: Vec<CommitId>,
    e: int,
    b: int,
)
    requires
        call_ensures(history_heads, (head, editable, branches), r),
        0 <= e < editable@.len(),
        0 <= b < branches@.len(),
        branches@[b].name@ == editable@[e]@,
        forall|j: int| 0 <= j < b ==> (#[trigger] branches@[j]).name@ != editable@[e]@,
    ensures
        r@.len() > 0,
        r@[0].hex@ == head.hex@,
        editable@.len() <= 1 ==> r@.len() == 1,
        editable@.len() > 1 ==> exists|k: int|
            0 <= k < r@.len() && (#[trigger] r@[k]).hex@ == branches@[b].head.hex@,
        forall|k: int| 1 <= k < r@.len() ==> (#[trigger] r@[k]).hex@ != head.hex@,
        forall|k: int|
            1 <= k < r@.len() ==> is_branch_head(
                branches@,
                text::texts(editable@),
                (#[trigger] r@[k]).hex@,
                editable@.len() as int,
            ),
{
    let names = text::texts(editable@);
    let n = editable@.len() as int;
    lemma_walk_heads(head@, names, branches@, n);
    lemma_head_is_the_first(branches@, names[e], 0, b);
    let all = ids(r@);
    assert(all.len() == r@.len());
    assert forall|k: int| 0 <= k < r@.len() implies all[k] == (#[trigger] r@[k]).hex@ by {}
    if n > 1 {
        let h = branches@[b].head@;
        assert(names[e] == editable@[e]@);
        assert(all.contains(h));
        let k = choose|k: int| 0 <= k < all.len() && all[k] == h;
        assert(r@[k].hex@ == h);
    }
    assert(all[0] == head@);
    assert(r@[0].hex@ == all[0]);
    assert forall|k: int| 1 <= k < r@.len() implies (#[trigger] r@[k]).hex@ != head.hex@ by {
        assert(all[k] == r@[k].hex@);
    }
    assert forall|k: int| 1 <= k < r@.len() implies is_branch_head(
        branches@,
        names,
        (#[trigger] r@[k]).hex@,
        n,
    ) by {
        assert(all[k] == r@[k].hex@);
    }
}

/// Ticking a branch on or off decides on that branch alone: all others stay, each as
/// often and in the order it was. `at` lists where the others stand.
pub proof fn law_ticking_leaves_the_others(
    editable: &Vec<String>,
    name: &str,
    on: bool,
    r: Vec<String>,
    at: Seq<int>,
)
    requires
        call_ensures(toggle_branch, (editable, name, on), r),
        indices::lists(at, 0, editable@.len() as int, |i: int| editable@[i]@ != name@),
    ensures
        on <==> text::texts(r@).contains(name@),
        !on ==> text::texts(r@) == at.map_values(|i: int| editable@[i]@),
        on ==> text::texts(editable@).is_prefix_of(text::texts(r@)),
        on ==> r@.len() == editable@.len() + if text::texts(editable@).contains(name@) {
            0int
        } else {
            1int
        },
{
    let v = text::texts(editable@);
    let w = text::texts(r@);
    assert(w.len() == r@.len());
    if on {
        if !v.contains(name@) {
            assert(w[v.len() as int] == name@);
        }
        assert(v =~= w.subrange(0, v.len() as int));
    } else {
        assert forall|i: int| 0 <= i < v.len() implies #[trigger] v[i] == editable@[i]@ by {}
        lemma_others_listed(editable@, name@, editable@.len() as int, at);
        assert(editable@.take(editable@.len() as int) =~= editable@);
        if w.contains(name@) {
            let k = choose|k: int| 0 <= k < w.len() && w[k] == name@;
            assert(w[k] == editable@[at[k]]@);
            assert(0 <= at[k] < editable@.len());
        }
    }
}

proof fn lemma_others_listed(v: Seq<String>, name: Seq<char>, n: int, at: Seq<int>)
    requires
        0 <= n <= v.len(),
        indices::lists(at, 0, n, |i: int| v[i]@ != name),
    ensures
        others(text::texts(v.take(n)), name) == at.map_values(|i: int| v[i]@),
    decreases n,
{
    let p = |i: int| v[i]@ != name;
    indices::lemma_lists_step(at, 0, n, p);
    let t = text::texts(v.take(n));
    if n > 0 {
        assert(t.drop_last() =~= text::texts(v.take(n - 1)));
        assert(t.last() == v[n - 1]@);
        if p(n - 1) {
            lemma_others_listed(v, name, n - 1, at.drop_last());
            assert(at.map_values(|i: int| v[i]@) =~= at.drop_last().map_values(
                |i: int| v[i]@,
            ).push(v[n - 1]@));
        } else {
            lemma_others_listed(v, name, n - 1, at);
        }
    } else {
        assert(t =~= Seq::<Seq<char>>::empty());
        assert(at.map_values(|i: int| v[i]@) =~= Seq::<Seq<char>>::empty());
    }
}

/// The way back through a session: one entry for every operation and one for the
/// start, from the latest to the start. To go to an entry is to keep the operations
/// up to its own, whose label and commits it shows; exactly one entry is where the
/// session stands, and those above it lie ahead.
pub proof fn law_entries_name_their_operations(
    ops: &[SessionOp],
    r: Vec<HistoryEntry>,
    cursor: usize,
    i: int,
    mark: EntryMark,
)
    requires
        call_ensures(history_entries, (ops,), r),
        cursor <= ops@.len(),
        0 <= i < r@.len(),
        call_ensures(entry_mark, (r@[i].target, cursor), mark),
    ensures
        r@.len() == ops@.len() + 1,
        r@[i].target + i == ops@.len(),
        r@[i].target > 0 ==> r@[i].label@ == ops@[r@[i].target - 1].label@ && text::texts(
            r@[i].affected@,
        ) == text::texts(ops@[r@[i].target - 1].affected@),
        r@[i].target == 0 ==> r@[i].label@ == SESSION_START@ && r@[i].affected@.len() == 0,
        mark.current <==> i == ops@.len() - cursor,
        mark.future <==> i < ops@.len() - cursor,
{
    let all = entry_texts(r@);
    assert(all.len() == r@.len());
    assert(all[i] == r@[i]@);
    assert(all[i] == session_entries(ops@)[i]);
    if r@[i].target == 0 {
        assert(text::texts(r@[i].affected@).len() == r@[i].affected@.len());
    }
}

/// A step down and one up lead back; no step leaves the list of files, and a reload
/// that keeps the place keeps the file that was shown, as far as there are so many.
pub proof fn law_file_steps_stay_and_return(
    c: u32,
    n: u32,
    down: Option<u32>,
    back: Option<u32>,
    kept: u32,
    fresh: u32,
)
    requires
        c < n < u32::MAX,
        call_ensures(step_file, (Some(c), n, true, false), down),
        down is Some ==> call_ensures(step_file, (down, n, false, true), back),
        call_ensures(reload_file, (Some(c), n, true), kept),
        call_ensures(reload_file, (Some(c), n, false), fresh),
    ensures
        down matches Some(d) && d < n && (c + 1 < n ==> d == c + 1) && (c + 1 == n ==> d == c),
        c + 1 < n ==> back == Some(c),
        kept == c,
        fresh == 0,
{
}

/// A commit put where another stood gets the children of the line that led to it:
/// those of the first line through the gap above that ends in the target.
pub proof fn law_children_are_those_of_the_line(
    boundaries: &[Vec<BoundaryEdge>],
    ci: usize,
    target: &CommitId,
    r: Vec<CommitId>,
    k: int,
)
    requires
        call_ensures(new_children, (boundaries, ci, target), r),
        0 < ci <= boundaries@.len(),
        0 <= k <= boundaries@[ci - 1]@.len(),
        forall|j: int|
            0 <= j < k ==> (#[trigger] boundaries@[ci - 1]@[j]).parent.hex@ != target.hex@,
        k < boundaries@[ci - 1]@.len() ==> boundaries@[ci - 1]@[k].parent.hex@ == target.hex@,
    ensures
        ids(r@) == if k < boundaries@[ci - 1]@.len() {
            ids(boundaries@[ci - 1]@[k].children@)
        } else {
            Seq::<Seq<char>>::empty()
        },
{
    lemma_children_found(boundaries@[ci - 1]@, target@, 0, k);
}

proof fn lemma_children_found(edges: Seq<BoundaryEdge>, target: Seq<char>, i: int, k: int)
    requires
        0 <= i <= k <= edges.len(),
        forall|j: int| i <= j < k ==> (#[trigger] edges[j]).parent.hex@ != target,
        k < edges.len() ==> edges[k].parent.hex@ == target,
    ensures
        children_on_line(edges, target, i) == if k < edges.len() {
            ids(edges[k].children@)
        } else {
            Seq::<Seq<char>>::empty()
        },
    decreases k - i,
{
    if i < k {
        assert(edges[i].parent.hex@ != target);
        lemma_children_found(edges, target, i + 1, k);
    }
}

/// More history is loaded a page at a time, and only at the bottom of a list that goes
/// on; a caret that still fits stays, and no other leaves the text; tab stops are a
/// tab's width apart.
pub proof fn law_limits_carets_and_stops(
    limit: usize,
    at_bottom: bool,
    more: bool,
    conflict: bool,
    next: Option<usize>,
    before: i32,
    chars: i32,
    caret: i32,
    cell: i32,
    width: u32,
    stops: Option<(i32, i32)>,
)
    requires
        limit + HISTORY_PAGE <= usize::MAX,
        call_ensures(next_limit, (limit, at_bottom, more, conflict), next),
        call_ensures(restored_caret, (before, chars), caret),
        cell > 0 ==> cell + 2 * (cell * width) <= i32::MAX,
        call_ensures(tab_stops, (cell, width), stops),
    ensures
        next is Some <==> at_bottom && more && !conflict,
        next matches Some(n) ==> n - limit == HISTORY_PAGE,
        caret <= chars,
        before <= chars ==> caret == before,
        stops is Some <==> cell > 0,
        stops matches Some(s) ==> s.0 - cell == cell * width && s.1 - s.0 == cell * width,
{
    if cell > 0 {
        assert(0 <= cell * width) by (nonlinear_arith)
            requires
                cell > 0,
                width >= 0,
        ;
    }
}

} // verus!
