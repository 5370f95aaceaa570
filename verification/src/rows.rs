//! What the rows of the commit, trash and working-copy lists show.
use crate::indices;
use crate::model::{CommitInfo, GraphRow, RefDecoration, RefKind, WorkingCopyEntry};
use crate::msglint;
use crate::msglint::RepoStyle;
use crate::numbers;
use crate::search;
use crate::text;
use vstd::prelude::*;

verus! {

/// The width of a lane of the ancestry graph, in pixels.
pub const LANE_WIDTH: u32 = 12;

/// How many colours the lanes cycle through.
pub const LANE_COLOR_COUNT: usize = 8;

/// The subject shown for a commit without a description.
pub const NO_DESCRIPTION: &'static str = "(no description)";

/// Which of the colours a lane has.
pub fn lane_color_index(lane: usize) -> (r: usize)
    ensures
        r == lane as int % LANE_COLOR_COUNT as int,
        r < LANE_COLOR_COUNT,
{
    lane % LANE_COLOR_COUNT
}

/// The width of the graph column for that many lanes, at least one, as far as it can
/// be told in pixels.
pub open spec fn column_pixels(max_lanes: int) -> int {
    let lanes = if max_lanes > 1 {
        max_lanes
    } else {
        1
    };
    if lanes * LANE_WIDTH > i32::MAX {
        i32::MAX as int
    } else {
        lanes * LANE_WIDTH
    }
}

/// The width of the graph column, the same in all rows so that the lanes line up.
pub fn graph_width(max_lanes: usize) -> (r: i32)
    ensures
        r == column_pixels(max_lanes as int),
{
    let lanes: usize = if max_lanes > 1 {
        max_lanes
    } else {
        1
    };
    if lanes > 178956970 {
        i32::MAX
    } else {
        (lanes as u32 * LANE_WIDTH) as i32
    }
}

/// A line of the ancestry graph within a row.
#[derive(Clone, Copy, Debug, PartialEq, Eq, Structural)]
pub struct Stroke {
    pub from: usize,
    pub to: usize,
    /// Whether it runs in the upper half of the row, down to the node's height.
    pub above: bool,
    /// Which of the lane colours it has.
    pub color: usize,
    /// Whether it stays in its lane, and so is a straight line.
    pub straight: bool,
}

/// The line for an edge. It has the colour of the lane at its outer end, so that it
/// keeps its colour from row to row.
pub open spec fn stroke(edge: (usize, usize), above: bool) -> Stroke {
    Stroke {
        from: edge.0,
        to: edge.1,
        above,
        color: (if above {
            edge.0
        } else {
            edge.1
        } as int % LANE_COLOR_COUNT as int) as usize,
        straight: edge.0 == edge.1,
    }
}

/// The lines of a row: those above its node, then those below.
pub open spec fn strokes(row: GraphRow) -> Seq<Stroke> {
    row.edges_above@.map_values(|e: (usize, usize)| stroke(e, true))
        + row.edges_below@.map_values(|e: (usize, usize)| stroke(e, false))
}

fn add_strokes(out: &mut Vec<Stroke>, edges: &Vec<(usize, usize)>, above: bool)
    ensures
        final(out)@ == old(out)@ + edges@.map_values(|e: (usize, usize)| stroke(e, above)),
{
    let ghost before = out@;
    let ghost all = edges@.map_values(|e: (usize, usize)| stroke(e, above));
    let mut i: usize = 0;
    assert(before + all.take(0) =~= before);
    while i < edges.len()
        invariant
            i <= edges@.len(),
            all == edges@.map_values(|e: (usize, usize)| stroke(e, above)),
            out@ == before + all.take(i as int),
        decreases edges.len() - i,
    {
        let (from, to) = edges[i];
        assert(edges@[i as int] == (from, to));
        let lane: usize = if above {
            from
        } else {
            to
        };
        out.push(Stroke { from, to, above, color: lane_color_index(lane), straight: from == to });
        assert(out@ =~= before + all.take(i + 1));
        i += 1;
    }
    assert(all.take(i as int) =~= all);
}

/// The lines to draw in a row of the ancestry graph.
pub fn graph_strokes(row: &GraphRow) -> (r: Vec<Stroke>)
    ensures
        r@ == strokes(*row),
{
    let mut out: Vec<Stroke> = Vec::new();
    add_strokes(&mut out, &row.edges_above, true);
    add_strokes(&mut out, &row.edges_below, false);
    assert(out@ =~= strokes(*row));
    out
}

/// The lane colour of a row's node; a merge has a black one.
pub fn node_color(row: &GraphRow) -> (r: Option<usize>)
    ensures
        r == if row.is_merge {
            None::<usize>
        } else {
            Some((row.node_lane as int % LANE_COLOR_COUNT as int) as usize)
        },
{
    if row.is_merge {
        None
    } else {
        Some(lane_color_index(row.node_lane))
    }
}

/// A line that leaves a row in some lane enters the next row in that lane with the
/// same colour.
pub proof fn law_lines_keep_their_colour(leaving: (usize, usize), entering: (usize, usize))
    requires
        leaving.1 == entering.0,
    ensures
        stroke(leaving, false).color == stroke(entering, true).color,
{
}

/// The subject that a row shows.
pub open spec fn shown_subject(subject: Seq<char>) -> Seq<char> {
    if subject.len() == 0 {
        NO_DESCRIPTION@
    } else {
        subject
    }
}

/// The subject that a row shows for a commit.
pub fn display_subject(commit: &CommitInfo) -> (r: String)
    ensures
        r@ == shown_subject(commit.subject@),
{
    if text::chars_of(commit.subject.as_str()).len() == 0 {
        NO_DESCRIPTION.to_string()
    } else {
        commit.subject.clone()
    }
}

/// The first characters of a commit id, as many as a row shows.
pub open spec fn short(id: Seq<char>) -> Seq<char> {
    if id.len() > 8 {
        id.take(8)
    } else {
        id
    }
}

/// The short form of a commit id.
pub fn short_id(id: &str) -> (r: String)
    ensures
        r@ == short(id@),
{
    let v = text::chars_of(id);
    if v.len() > 8 {
        let head = text::slice_of(&v, 0, 8);
        assert(head@ =~= id@.take(8));
        text::string_of(&head)
    } else {
        id.to_string()
    }
}

/// The lines that name the findings.
pub open spec fn bullets(lints: Seq<msglint::LintText>) -> Seq<char>
    decreases lints.len(),
{
    if lints.len() == 0 {
        Seq::<char>::empty()
    } else {
        bullets(lints.drop_last()) + "\n\u{2022} "@ + lints.last().message
    }
}

/// The tooltip of a lint badge: the findings, and what a click does.
pub open spec fn badge_tip(lints: Seq<msglint::LintText>) -> Seq<char> {
    "This summary is out of step with the repo's commit style:"@ + bullets(lints) + "\n"@
        + if msglint::any_fixable(lints) {
        "Click to fix it automatically."@
    } else {
        "Click to edit the message."@
    }
}

/// The findings on a commit's subject. A merge has none, nor has any commit while no
/// style is known.
pub open spec fn commit_lints(commit: CommitInfo, style: Option<RepoStyle>) -> Seq<msglint::LintText> {
    match style {
        Some(s) => if commit.parents@.len() <= 1 {
            msglint::drifts(commit.subject@, s)
        } else {
            Seq::<msglint::LintText>::empty()
        },
        None => Seq::<msglint::LintText>::empty(),
    }
}

/// The tooltip of a commit's badge, if it has one.
pub open spec fn badge(commit: CommitInfo, style: Option<RepoStyle>) -> Option<Seq<char>> {
    let lints = commit_lints(commit, style);
    if lints.len() == 0 {
        None
    } else {
        Some(badge_tip(lints))
    }
}

/// The style behind an optional reference.
pub open spec fn opt_style(style: Option<&RepoStyle>) -> Option<RepoStyle> {
    match style {
        Some(s) => Some(*s),
        None => None,
    }
}

/// The tooltip of a commit's lint badge; `None` where it stays hidden.
pub fn lint_badge(commit: &CommitInfo, style: Option<&RepoStyle>) -> (r: Option<String>)
    ensures
        text::opt_text(r) == badge(*commit, opt_style(style)),
{
    let lints = match style {
        Some(s) => if commit.parents.len() <= 1 {
            msglint::lint_subject(commit.subject.as_str(), s)
        } else {
            Vec::new()
        },
        None => Vec::new(),
    };
    let ghost gl = msglint::lint_texts(lints@);
    assert(gl =~= commit_lints(*commit, opt_style(style)));
    if lints.len() == 0 {
        return None;
    }
    let mut tip = text::chars_of("This summary is out of step with the repo's commit style:");
    let ghost head = tip@;
    let mut fixable = false;
    let mut i: usize = 0;
    assert(head + bullets(gl.take(0)) =~= head);
    while i < lints.len()
        invariant
            i <= lints@.len(),
            gl == msglint::lint_texts(lints@),
            tip@ == head + bullets(gl.take(i as int)),
            fixable == exists|j: int| 0 <= j < i && (#[trigger] gl[j]).kind.fixable(),
        decreases lints.len() - i,
    {
        assert(gl[i as int] == lints@[i as int]@);
        assert(gl.take(i + 1).drop_last() =~= gl.take(i as int));
        assert(gl.take(i + 1).last() == gl[i as int]);
        text::push_text(&mut tip, "\n\u{2022} ");
        text::push_text(&mut tip, lints[i].message.as_str());
        if lints[i].auto_fixable() {
            assert(gl[i as int].kind.fixable());
            fixable = true;
        }
        assert(tip@ =~= head + bullets(gl.take(i + 1)));
        i += 1;
    }
    assert(gl.take(i as int) =~= gl);
    text::push_text(&mut tip, "\n");
    if fixable {
        text::push_text(&mut tip, "Click to fix it automatically.");
    } else {
        text::push_text(&mut tip, "Click to edit the message.");
    }
    assert(tip@ =~= badge_tip(gl));
    Some(text::string_of(&tip))
}

/// A pill: the name of a ref on a row.
#[derive(Clone, Debug, PartialEq, Eq)]
pub struct Pill {
    pub text: String,
    pub tooltip: String,
    /// The style class of the kind of ref.
    pub class: &'static str,
    /// Whether the class of the checked-out branch is laid over it.
    pub current: bool,
}

/// The tooltip of a ref's pill.
pub open spec fn pill_tip(r: RefDecoration) -> Seq<char> {
    match r.kind {
        RefKind::Branch => if r.current {
            "Branch "@ + r.name@ + " (checked out)"@
        } else {
            "Branch "@ + r.name@
        },
        RefKind::Tag => "Tag "@ + r.name@,
    }
}

/// The style class of a kind of ref.
pub open spec fn pill_class(kind: RefKind) -> Seq<char> {
    match kind {
        RefKind::Branch => "ref-branch"@,
        RefKind::Tag => "ref-tag"@,
    }
}

/// Whether a pill is that of a ref.
pub open spec fn pill_of(p: Pill, r: RefDecoration) -> bool {
    &&& p.text@ == r.name@
    &&& p.tooltip@ == pill_tip(r)
    &&& p.class@ == pill_class(r.kind)
    &&& p.current == r.current
}

/// Whether the pills are those of the refs, one each.
pub open spec fn pills_of(v: Seq<Pill>, refs: Seq<RefDecoration>) -> bool {
    &&& v.len() == refs.len()
    &&& forall|i: int| 0 <= i < v.len() ==> pill_of(#[trigger] v[i], refs[i])
}

fn pill(r: &RefDecoration) -> (p: Pill)
    ensures
        pill_of(p, *r),
{
    let mut tip: Vec<char>;
    let class: &'static str;
    match r.kind {
        RefKind::Branch => {
            tip = text::chars_of("Branch ");
            text::push_text(&mut tip, r.name.as_str());
            if r.current {
                text::push_text(&mut tip, " (checked out)");
            }
            class = "ref-branch";
        },
        RefKind::Tag => {
            tip = text::chars_of("Tag ");
            text::push_text(&mut tip, r.name.as_str());
            class = "ref-tag";
        },
    }
    Pill { text: r.name.clone(), tooltip: text::string_of(&tip), class, current: r.current }
}

/// The pills of the refs that point at a commit.
pub fn pills(refs: &[RefDecoration]) -> (v: Vec<Pill>)
    ensures
        pills_of(v@, refs@),
{
    let mut out: Vec<Pill> = Vec::new();
    let mut i: usize = 0;
    while i < refs.len()
        invariant
            i <= refs@.len(),
            pills_of(out@, refs@.take(i as int)),
        decreases refs.len() - i,
    {
        let ghost o0 = out@;
        out.push(pill(&refs[i]));
        assert forall|j: int| 0 <= j < out@.len() implies pill_of(
            #[trigger] out@[j],
            refs@.take(i + 1)[j],
        ) by {
            if j < i {
                assert(out@[j] == o0[j]);
                assert(pill_of(o0[j], refs@.take(i as int)[j]));
            }
        }
        i += 1;
    }
    assert(refs@.take(i as int) =~= refs@);
    out
}

/// What a row shows of a commit.
#[derive(Clone, Debug, PartialEq, Eq)]
pub struct CommitRow {
    /// The short id, as markup.
    pub id_markup: String,
    /// The id in full, which a hover shows and a click copies.
    pub full_id: String,
    pub subject: String,
    pub lint: Option<String>,
    pub pills: Vec<Pill>,
    /// Whether the warning about unresolved conflicts shows.
    pub conflicted: bool,
    /// Whether the revert button is suppressed: a merge has no single parent.
    pub no_revert: bool,
    /// Whether the merge-out button is suppressed: only a commit with exactly one
    /// parent has something to fold out around.
    pub no_merge_out: bool,
}

/// Whether a row shows a commit as it should.
pub open spec fn shows_commit(
    row: CommitRow,
    commit: CommitInfo,
    conflicted: bool,
    refs: Seq<RefDecoration>,
    style: Option<RepoStyle>,
) -> bool {
    &&& row.id_markup@ == "<tt>"@ + short(commit.id@) + "</tt>"@
    &&& row.full_id@ == commit.id@
    &&& row.subject@ == shown_subject(commit.subject@)
    &&& text::opt_text(row.lint) == badge(commit, style)
    &&& pills_of(row.pills@, refs)
    &&& row.conflicted == conflicted
    &&& row.no_revert == (commit.parents@.len() > 1)
    &&& row.no_merge_out == (commit.parents@.len() != 1)
}

/// What a row shows of a commit.
pub fn commit_row(
    commit: &CommitInfo,
    conflicted: bool,
    refs: &[RefDecoration],
    style: Option<&RepoStyle>,
) -> (r: CommitRow)
    ensures
        shows_commit(r, *commit, conflicted, refs@, opt_style(style)),
{
    let mut markup = text::chars_of("<tt>");
    text::push_text(&mut markup, short_id(commit.id.hex.as_str()).as_str());
    text::push_text(&mut markup, "</tt>");
    CommitRow {
        id_markup: text::string_of(&markup),
        full_id: commit.id.hex.clone(),
        subject: display_subject(commit),
        lint: lint_badge(commit, style),
        pills: pills(refs),
        conflicted,
        no_revert: commit.parents.len() > 1,
        no_merge_out: commit.parents.len() != 1,
    }
}

/// The refs of the commit `id` among those listed by commit.
pub open spec fn refs_of(refs: Seq<(String, Vec<RefDecoration>)>, id: Seq<char>) -> Seq<
    RefDecoration,
>
    decreases refs.len(),
{
    if refs.len() == 0 {
        Seq::<RefDecoration>::empty()
    } else if refs.last().0@ == id {
        refs.last().1@
    } else {
        refs_of(refs.drop_last(), id)
    }
}

fn find_refs(refs: &[(String, Vec<RefDecoration>)], id: &str) -> (r: Option<usize>)
    ensures
        match r {
            Some(i) => i < refs@.len() && refs@[i as int].1@ == refs_of(refs@, id@),
            None => refs_of(refs@, id@).len() == 0,
        },
{
    let mut n: usize = refs.len();
    assert(refs@.take(n as int) =~= refs@);
    while n > 0
        invariant
            n <= refs@.len(),
            refs_of(refs@, id@) == refs_of(refs@.take(n as int), id@),
        decreases n,
    {
        assert(refs@.take(n as int).last() == refs@[n - 1]);
        assert(refs@.take(n as int).drop_last() =~= refs@.take(n - 1));
        if text::same_text(refs[n - 1].0.as_str(), id) {
            return Some(n - 1);
        }
        n -= 1;
    }
    None
}

/// What the rows of a commit list show, one row per commit. `conflicts` holds the
/// change ids of the commits with conflicts, `refs` the refs by commit id.
pub fn commit_rows(
    commits: &[CommitInfo],
    conflicts: &[String],
    refs: &[(String, Vec<RefDecoration>)],
    style: Option<&RepoStyle>,
) -> (r: Vec<CommitRow>)
    ensures
        r@.len() == commits@.len(),
        forall|i: int|
            0 <= i < r@.len() ==> shows_commit(
                #[trigger] r@[i],
                commits@[i],
                text::texts(conflicts@).contains(commits@[i].change_id@),
                refs_of(refs@, commits@[i].id@),
                opt_style(style),
            ),
{
    let mut out: Vec<CommitRow> = Vec::new();
    let mut i: usize = 0;
    while i < commits.len()
        invariant
            i <= commits@.len(),
            out@.len() == i,
            forall|j: int|
                0 <= j < i ==> shows_commit(
                    #[trigger] out@[j],
                    commits@[j],
                    text::texts(conflicts@).contains(commits@[j].change_id@),
                    refs_of(refs@, commits@[j].id@),
                    opt_style(style),
                ),
        decreases commits.len() - i,
    {
        let c = &commits[i];
        let conflicted = text::contains_text(conflicts, c.change_id.as_str());
        let none: Vec<RefDecoration> = Vec::new();
        let row = match find_refs(refs, c.id.hex.as_str()) {
            Some(k) => commit_row(c, conflicted, refs[k].1.as_slice(), style),
            None => {
                assert(none@ =~= refs_of(refs@, c.id@));
                commit_row(c, conflicted, none.as_slice(), style)
            },
        };
        out.push(row);
        i += 1;
    }
    out
}

/// The rows whose commit is among the changes of an operation, in order.
pub fn affected_rows(commits: &[CommitInfo], affected: &[String]) -> (r: Vec<usize>)
    ensures
        indices::ascending(r@),
        forall|i: usize| #[trigger]
            r@.contains(i) <==> i < commits@.len() && text::texts(affected@).contains(
                commits@[i as int].change_id@,
            ),
{
    let mut out: Vec<usize> = Vec::new();
    let mut i: usize = 0;
    while i < commits.len()
        invariant
            i <= commits@.len(),
            indices::ascending(out@),
            forall|k: int| 0 <= k < out@.len() ==> (#[trigger] out@[k]) < i,
            forall|j: usize| #[trigger]
                out@.contains(j) <==> j < i && text::texts(affected@).contains(
                    commits@[j as int].change_id@,
                ),
        decreases commits.len() - i,
    {
        if text::contains_text(affected, commits[i].change_id.as_str()) {
            let ghost o0 = out@;
            out.push(i);
            proof {
                lemma_push_contains(o0, i);
            }
        }
        i += 1;
    }
    out
}

proof fn lemma_push_contains(v: Seq<usize>, x: usize)
    ensures
        forall|j: usize| #[trigger] v.push(x).contains(j) <==> v.contains(j) || j == x,
{
    assert forall|j: usize| #[trigger] v.push(x).contains(j) <==> v.contains(j) || j == x by {
        indices::lemma_push_member(v, x, j);
    }
}

/// How a row shows its subject under a search: as plain text, or as markup.
#[derive(Clone, Debug, PartialEq, Eq)]
pub enum SubjectText {
    Plain(String),
    Markup(String),
}

/// Whether a commit's subject matches the query.
pub open spec fn found(commit: CommitInfo, query: Seq<char>) -> bool {
    search::all_occur(search::folded(commit.subject@), search::query_needles(query))
}

/// Whether the subject text is right for a commit under a search.
pub open spec fn subject_under(t: SubjectText, commit: CommitInfo, query: Seq<char>) -> bool {
    match t {
        SubjectText::Plain(s) => !found(commit, query) && s@ == shown_subject(commit.subject@),
        SubjectText::Markup(s) => found(commit, query) && exists|p: Seq<usize>|
            #[trigger] search::lists_marks(
                p,
                search::folded(commit.subject@),
                search::query_needles(query),
            ) && s@ == search::markup(search::escaped_pieces(shown_subject(commit.subject@)), p),
    }
}

/// How each row shows its subject under a search, and which rows match, in order.
/// With a blank query no row matches, and all are plain.
pub fn search_rows(commits: &[CommitInfo], query: &str) -> (r: (Vec<SubjectText>, Vec<usize>))
    requires
        forall|i: int|
            0 <= i < commits@.len() ==> text::free_of((#[trigger] commits@[i]).subject@, '\0'),
    ensures
        r.0@.len() == commits@.len(),
        forall|i: int|
            0 <= i < commits@.len() ==> subject_under(#[trigger] r.0@[i], commits@[i], query@),
        indices::ascending(r.1@),
        forall|i: usize| #[trigger]
            r.1@.contains(i) <==> i < commits@.len() && found(commits@[i as int], query@),
{
    let mut texts: Vec<SubjectText> = Vec::new();
    let mut matches: Vec<usize> = Vec::new();
    let mut i: usize = 0;
    while i < commits.len()
        invariant
            i <= commits@.len(),
            forall|j: int|
                0 <= j < commits@.len() ==> text::free_of((#[trigger] commits@[j]).subject@, '\0'),
            texts@.len() == i,
            forall|j: int|
                0 <= j < i ==> subject_under(#[trigger] texts@[j], commits@[j], query@),
            indices::ascending(matches@),
            forall|k: int| 0 <= k < matches@.len() ==> (#[trigger] matches@[k]) < i,
            forall|j: usize| #[trigger]
                matches@.contains(j) <==> j < i && found(commits@[j as int], query@),
        decreases commits.len() - i,
    {
        let c = &commits[i];
        let subject = display_subject(c);
        match search::search_match(c.subject.as_str(), query) {
            Some(pos) => {
                assert(text::free_of(subject@, '\0')) by {
                    assert(text::free_of(commits@[i as int].subject@, '\0'));
                    lemma_placeholder_has_no_nul();
                }
                let markup = search::highlight_markup(subject.as_str(), pos.as_slice());
                let t = SubjectText::Markup(markup);
                assert(subject_under(t, commits@[i as int], query@)) by {
                    assert(search::lists_marks(
                        pos@,
                        search::folded(c.subject@),
                        search::query_needles(query@),
                    ));
                }
                texts.push(t);
                let ghost o0 = matches@;
                matches.push(i);
                proof {
                    lemma_push_contains(o0, i);
                }
            },
            None => {
                texts.push(SubjectText::Plain(subject));
            },
        }
        i += 1;
    }
    (texts, matches)
}

proof fn lemma_placeholder_has_no_nul()
    ensures
        text::free_of(NO_DESCRIPTION@, '\0'),
{
    reveal_strlit("(no description)");
    if NO_DESCRIPTION@.contains('\0') {
        let i = choose|i: int| 0 <= i < NO_DESCRIPTION@.len() && NO_DESCRIPTION@[i] == '\0';
        assert(NO_DESCRIPTION@[i] != '\0');
    }
}

/// What follows the last slash of a path.
pub open spec fn base_name(path: Seq<char>) -> Seq<char> {
    text::split_on(path, '/').last()
}

/// The summary of changed files: up to two names, and how many more there are.
pub open spec fn files_summary(names: Seq<Seq<char>>) -> Seq<char> {
    let bases = names.map_values(|p: Seq<char>| base_name(p));
    let head = text::list_with(
        if bases.len() > 2 {
            bases.take(2)
        } else {
            bases
        },
        ", "@,
    );
    if names.len() > 2 {
        head + " (+"@ + numbers::decimal((names.len() - 2) as nat) + " more)"@
    } else {
        head
    }
}

/// The summary of changed files, such as `main.rs, lib.rs (+3 more)`.
pub fn summarize_files(names: &[String]) -> (r: String)
    ensures
        r@ == files_summary(text::texts(names@)),
{
    let ghost gn = text::texts(names@);
    let ghost bases = gn.map_values(|p: Seq<char>| base_name(p));
    let mut shown: Vec<String> = Vec::new();
    let n: usize = names.len();
    let most: usize = if n > 2 {
        2
    } else {
        n
    };
    let mut i: usize = 0;
    assert(text::texts(shown@) =~= bases.take(0));
    while i < most
        invariant
            i <= most <= n,
            n == names@.len(),
            gn == text::texts(names@),
            bases == gn.map_values(|p: Seq<char>| base_name(p)),
            text::texts(shown@) == bases.take(i as int),
        decreases most - i,
    {
        let parts = text::split_chars(&text::chars_of(names[i].as_str()), '/');
        proof {
            text::lemma_split_nonempty(names@[i as int]@, '/');
            assert(gn[i as int] == names@[i as int]@);
            assert(text::deep(parts@).last() == parts@[parts@.len() - 1]@);
        }
        let ghost s0 = shown@;
        shown.push(text::string_of(&parts[parts.len() - 1]));
        assert(text::texts(shown@) =~= text::texts(s0).push(base_name(gn[i as int])));
        assert(text::texts(shown@) =~= bases.take(i + 1));
        i += 1;
    }
    let mut out = text::chars_of(text::list_texts(&shown, ", ").as_str());
    assert(bases.take(most as int) =~= if bases.len() > 2 {
        bases.take(2)
    } else {
        bases
    });
    if n > 2 {
        text::push_text(&mut out, " (+");
        text::push_all(&mut out, &numbers::write_decimal((n - 2) as u64));
        text::push_text(&mut out, " more)");
    }
    text::string_of(&out)
}

/// The text of a working-copy row.
pub open spec fn wc_text(files: Seq<Seq<char>>, conflict: bool) -> Seq<char> {
    if conflict {
        "\u{26A0} Uncommitted changes \u{2014} conflicts in "@ + files_summary(files)
    } else {
        "\u{270E} Uncommitted changes \u{2014} "@ + files_summary(files)
    }
}

/// The text of the row of an uncommitted entry.
pub fn wc_label(entry: &WorkingCopyEntry) -> (r: String)
    ensures
        r@ == wc_text(text::texts(entry.file_names@), entry.has_conflict),
{
    let mut out = if entry.has_conflict {
        text::chars_of("\u{26A0} Uncommitted changes \u{2014} conflicts in ")
    } else {
        text::chars_of("\u{270E} Uncommitted changes \u{2014} ")
    };
    text::push_text(&mut out, summarize_files(entry.file_names.as_slice()).as_str());
    text::string_of(&out)
}

/// The refs of a commit are those recorded last for its id.
pub proof fn law_the_last_refs_count(
    refs: Seq<(String, Vec<RefDecoration>)>,
    id: Seq<char>,
    k: int,
)
    requires
        -1 <= k < refs.len(),
        forall|j: int| k < j < refs.len() ==> (#[trigger] refs[j]).0@ != id,
        k >= 0 ==> refs[k].0@ == id,
    ensures
        refs_of(refs, id) == if k >= 0 {
            refs[k].1@
        } else {
            Seq::<RefDecoration>::empty()
        },
    decreases refs.len(),
{
    if refs.len() > 0 && k < refs.len() - 1 {
        let init = refs.drop_last();
        assert(refs[refs.len() - 1].0@ != id);
        assert forall|j: int| k < j < init.len() implies (#[trigger] init[j]).0@ != id by {
            assert(init[j] == refs[j]);
        }
        law_the_last_refs_count(init, id, k);
    }
}

/// A row shows its own commit: the id, in short and in full, the subject or that there
/// is none, the refs in their order with their kind, and whether it is conflicted; a
/// merge cannot be reverted, and only a commit with one parent can be merged out.
pub proof fn law_a_row_shows_its_commit(
    commits: &[CommitInfo],
    conflicts: &[String],
    refs: &[(String, Vec<RefDecoration>)],
    style: Option<&RepoStyle>,
    r: Vec<CommitRow>,
    i: int,
    k: int,
)
    requires
        call_ensures(commit_rows, (commits, conflicts, refs, style), r),
        0 <= i < commits@.len(),
        -1 <= k < refs@.len(),
        forall|j: int|
            k < j < refs@.len() ==> (#[trigger] refs@[j]).0@ != commits@[i].id.hex@,
        k >= 0 ==> refs@[k].0@ == commits@[i].id.hex@,
    ensures
        r@.len() == commits@.len(),
        r@[i].full_id@ == commits@[i].id.hex@,
        commits@[i].id.hex@.len() >= 8 ==> r@[i].id_markup@ == "<tt>"@ + commits@[i].id.hex@.take(8)
            + "</tt>"@,
        commits@[i].subject@.len() > 0 ==> r@[i].subject@ == commits@[i].subject@,
        commits@[i].subject@.len() == 0 ==> r@[i].subject@ == NO_DESCRIPTION@,
        r@[i].conflicted <==> exists|c: int|
            0 <= c < conflicts@.len() && (#[trigger] conflicts@[c])@ == commits@[i].change_id@,
        r@[i].no_revert <==> commits@[i].parents@.len() > 1,
        r@[i].no_merge_out <==> commits@[i].parents@.len() != 1,
        r@[i].pills@.len() == if k >= 0 {
            refs@[k].1@.len()
        } else {
            0
        },
        k >= 0 ==> forall|p: int|
            0 <= p < r@[i].pills@.len() ==> (#[trigger] r@[i].pills@[p]).text@
                == refs@[k].1@[p].name@ && r@[i].pills@[p].current == refs@[k].1@[p].current
                && r@[i].pills@[p].class@ == if refs@[k].1@[p].kind == RefKind::Tag {
                "ref-tag"@
            } else {
                "ref-branch"@
            },
{
    law_the_last_refs_count(refs@, commits@[i].id@, k);
    let row = r@[i];
    let marks = text::texts(conflicts@);
    assert(shows_commit(
        row,
        commits@[i],
        marks.contains(commits@[i].change_id@),
        refs_of(refs@, commits@[i].id@),
        opt_style(style),
    ));
    if commits@[i].id@.len() == 8 {
        assert(commits@[i].id@.take(8) =~= commits@[i].id@);
    }
    if marks.contains(commits@[i].change_id@) {
        let c = choose|c: int| 0 <= c < marks.len() && marks[c] == commits@[i].change_id@;
        assert(conflicts@[c]@ == commits@[i].change_id@);
    }
    if exists|c: int| 0 <= c < conflicts@.len() && (#[trigger] conflicts@[c])@
        == commits@[i].change_id@ {
        let c = choose|c: int|
            0 <= c < conflicts@.len() && (#[trigger] conflicts@[c])@ == commits@[i].change_id@;
        assert(marks[c] == commits@[i].change_id@);
    }
    if k >= 0 {
        assert forall|p: int| 0 <= p < row.pills@.len() implies (#[trigger] row.pills@[p]).text@
            == refs@[k].1@[p].name@ && row.pills@[p].current == refs@[k].1@[p].current
            && row.pills@[p].class@ == if refs@[k].1@[p].kind == RefKind::Tag {
            "ref-tag"@
        } else {
            "ref-branch"@
        } by {
            assert(pill_of(row.pills@[p], refs@[k].1@[p]));
        }
    }
}

/// A search of the history finds the commits whose own subject matches, and lights up
/// in each what the match lights up; the others are shown plainly.
pub proof fn law_the_history_is_searched_row_by_row(
    commits: &[CommitInfo],
    query: &str,
    r: (Vec<SubjectText>, Vec<usize>),
    i: usize,
    subject: &str,
    m: Option<Vec<usize>>,
)
    requires
        forall|j: int|
            0 <= j < commits@.len() ==> text::free_of((#[trigger] commits@[j]).subject@, '\0'),
        call_ensures(search_rows, (commits, query), r),
        i < commits@.len(),
        subject@ == commits@[i as int].subject@,
        call_ensures(search::search_match, (subject, query), m),
    ensures
        r.1@.contains(i) <==> m is Some,
        r.0@[i as int] is Markup <==> m is Some,
        m is None && subject@.len() > 0 ==> (r.0@[i as int] matches SubjectText::Plain(s) && s@
            == subject@),
        m is Some && subject@.len() > 0 ==> (r.0@[i as int] matches SubjectText::Markup(s) && s@
            == search::markup(search::escaped_pieces(subject@), m->0@)),
{
    let t = r.0@[i as int];
    assert(subject_under(t, commits@[i as int], query@));
    if m is Some {
        let hay = search::folded(subject@);
        let needles = search::query_needles(query@);
        if let SubjectText::Markup(s) = t {
            let p = choose|p: Seq<usize>|
                #[trigger] search::lists_marks(p, hay, needles) && s@ == search::markup(
                    search::escaped_pieces(shown_subject(subject@)),
                    p,
                );
            lemma_marks_unique(p, m->0@, hay, needles);
        }
    }
}

proof fn lemma_marks_unique(
    a: Seq<usize>,
    b: Seq<usize>,
    hay: Seq<char>,
    needles: Seq<Seq<char>>,
)
    requires
        search::lists_marks(a, hay, needles),
        search::lists_marks(b, hay, needles),
    ensures
        a == b,
{
    assert forall|x: usize| #[trigger] a.contains(x) <==> b.contains(x) by {}
    lemma_same_members(a, b);
}

proof fn lemma_same_members(a: Seq<usize>, b: Seq<usize>)
    requires
        indices::ascending(a),
        indices::ascending(b),
        forall|x: usize| #[trigger] a.contains(x) <==> b.contains(x),
    ensures
        a == b,
    decreases a.len(),
{
    if a.len() == 0 {
        if b.len() > 0 {
            assert(b.contains(b[0]));
            assert(a.contains(b[0]));
        }
        assert(a =~= b);
    } else {
        assert(a.contains(a[a.len() - 1]));
        assert(b.contains(a[a.len() - 1]));
        let j = choose|j: int| 0 <= j < b.len() && b[j] == a[a.len() - 1];
        assert(b.contains(b[b.len() - 1]));
        assert(a.contains(b[b.len() - 1]));
        let k = choose|k: int| 0 <= k < a.len() && a[k] == b[b.len() - 1];
        if j < b.len() - 1 {
            assert(b[j] < b[b.len() - 1]);
            if k < a.len() - 1 {
                assert(a[k] < a[a.len() - 1]);
            }
        }
        let (x, y) = (a.drop_last(), b.drop_last());
        assert forall|v: usize| #[trigger] x.contains(v) <==> y.contains(v) by {
            if x.contains(v) {
                let i = choose|i: int| 0 <= i < x.len() && x[i] == v;
                assert(a[i] == v && a[i] < a[a.len() - 1]);
                assert(a.contains(v));
                let m = choose|m: int| 0 <= m < b.len() && b[m] == v;
                assert(y[m] == v);
            }
            if y.contains(v) {
                let i = choose|i: int| 0 <= i < y.len() && y[i] == v;
                assert(b[i] == v && b[i] < b[b.len() - 1]);
                assert(b.contains(v));
                assert(a.contains(v) <==> b.contains(v));
                let m = choose|m: int| 0 <= m < a.len() && a[m] == v;
                assert(x[m] == v);
            }
        }
        lemma_same_members(x, y);
        assert(a =~= x.push(a.last()));
        assert(b =~= y.push(b.last()));
    }
}

/// A summary of files names the first two by their last path part, and counts the
/// rest.
pub proof fn law_a_summary_names_two_and_counts_the_rest(
    names: &[String],
    r: String,
    a: Seq<char>,
    b: Seq<char>,
    da: Seq<char>,
    db: Seq<char>,
)
    requires
        call_ensures(summarize_files, (names,), r),
        text::free_of(a, '/'),
        text::free_of(b, '/'),
        names@.len() >= 1 ==> names@[0]@ == a || names@[0]@ == da.push('/') + a,
        names@.len() >= 2 ==> names@[1]@ == b || names@[1]@ == db.push('/') + b,
    ensures
        names@.len() == 1 ==> r@ == a,
        names@.len() == 2 ==> r@ == a + ", "@ + b,
        names@.len() > 2 ==> r@ == a + ", "@ + b + " (+"@ + numbers::decimal(
            (names@.len() - 2) as nat,
        ) + " more)"@,
{
    let ns = text::texts(names@);
    let bases = ns.map_values(|p: Seq<char>| base_name(p));
    lemma_base_name(a, da);
    lemma_base_name(b, db);
    reveal_with_fuel(text::list_with, 3);
    if names@.len() >= 1 {
        assert(bases[0] == a);
    }
    if names@.len() >= 2 {
        assert(bases[1] == b);
        let two = if bases.len() > 2 {
            bases.take(2)
        } else {
            bases
        };
        assert(two =~= seq![a, b]);
        assert(seq![a, b].drop_last() =~= seq![a]);
        assert(text::list_with(two, ", "@) == a + ", "@ + b);
    } else if names@.len() == 1 {
        assert(bases =~= seq![a]);
    }
}

proof fn lemma_base_name(base: Seq<char>, dir: Seq<char>)
    requires
        text::free_of(base, '/'),
    ensures
        base_name(base) == base,
        base_name(dir.push('/') + base) == base,
{
    text::lemma_split_free(base, '/');
    text::lemma_split_append(dir, base, '/');
}

/// Every edge of the graph is drawn from the lane it leaves to the lane it enters, on
/// its own side of the commit, and straight where it stays in its lane.
pub proof fn law_edges_are_drawn_where_they_run(row: &GraphRow, r: Vec<Stroke>, i: int)
    requires
        call_ensures(graph_strokes, (row,), r),
    ensures
        r@.len() == row.edges_above@.len() + row.edges_below@.len(),
        0 <= i < row.edges_above@.len() ==> r@[i].above && r@[i].from == row.edges_above@[i].0
            && r@[i].to == row.edges_above@[i].1 && (r@[i].straight <==> row.edges_above@[i].0
            == row.edges_above@[i].1),
        0 <= i < row.edges_below@.len() ==> {
            let s = r@[row.edges_above@.len() + i];
            !s.above && s.from == row.edges_below@[i].0 && s.to == row.edges_below@[i].1 && (
            s.straight <==> row.edges_below@[i].0 == row.edges_below@[i].1)
        },
{
}

/// A commit has a badge exactly where a style is known, it is no merge, and its subject
/// has findings; the badge names each of them, and offers the fix where the subject has
/// one.
pub proof fn law_a_badge_tells_the_findings(
    commit: &CommitInfo,
    style: &RepoStyle,
    r: Option<String>,
    subject: &str,
    found: Vec<msglint::Lint>,
    fix: Option<String>,
    unstyled: Option<String>,
)
    requires
        call_ensures(lint_badge, (commit, Some(style)), r),
        call_ensures(lint_badge, (commit, None), unstyled),
        subject@ == commit.subject@,
        call_ensures(msglint::lint_subject, (subject, style), found),
        call_ensures(msglint::autofix_subject, (subject, style), fix),
    ensures
        unstyled is None,
        r is Some <==> commit.parents@.len() <= 1 && found@.len() > 0,
        r is Some && found@.len() == 1 ==> r->0@
            == "This summary is out of step with the repo's commit style:"@ + ("\n\u{2022} "@
            + found@[0].message@) + "\n"@ + if fix is Some {
            "Click to fix it automatically."@
        } else {
            "Click to edit the message."@
        },
{
    let v = msglint::lint_texts(found@);
    assert(v.len() == found@.len());
    msglint::law_fixed_exactly_where_fixable(subject@, *style);
    if found@.len() == 1 {
        assert(v[0] == found@[0]@);
        reveal_with_fuel(bullets, 2);
        assert(v.drop_last() =~= Seq::<msglint::LintText>::empty());
        assert(bullets(v) =~= "\n\u{2022} "@ + found@[0].message@);
    }
}

} // verus!
