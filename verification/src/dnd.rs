//! The drag payload that crosses between windows: plain text that names the
//! source process, its repository and the dragged commits.
use crate::numbers;
use crate::text;
use crate::white;
use vstd::prelude::*;

verus! {

/// The marker and version on the first line of a payload.
pub const MAGIC: &'static str = "commedit-dnd-v1";

/// One dragged commit, addressed by its sha.
#[derive(Debug, Clone, PartialEq, Eq)]
pub struct DraggedCommit {
    pub sha: String,
    pub change_id: String,
    pub subject: String,
}

/// A commit drag that began in some window.
#[derive(Debug, Clone, PartialEq, Eq)]
pub struct DraggedCommits {
    /// The source process.
    pub pid: u32,
    /// The key of the source repository's object store.
    pub repo_key: String,
    /// The source branch, for display only.
    pub branch: Option<String>,
    pub commits: Vec<DraggedCommit>,
}

/// The contents of a dragged commit.
#[verifier::ext_equal]
pub struct CommitText {
    pub sha: Seq<char>,
    pub change_id: Seq<char>,
    pub subject: Seq<char>,
}

/// The contents of a payload.
#[verifier::ext_equal]
pub struct PayloadText {
    pub pid: nat,
    pub repo_key: Seq<char>,
    pub branch: Option<Seq<char>>,
    pub commits: Seq<CommitText>,
}

impl View for DraggedCommit {
    type V = CommitText;

    open spec fn view(&self) -> CommitText {
        CommitText { sha: self.sha@, change_id: self.change_id@, subject: self.subject@ }
    }
}

/// The contents of dragged commits.
pub open spec fn commit_texts(v: Seq<DraggedCommit>) -> Seq<CommitText> {
    v.map_values(|c: DraggedCommit| c@)
}

impl View for DraggedCommits {
    type V = PayloadText;

    open spec fn view(&self) -> PayloadText {
        PayloadText {
            pid: self.pid as nat,
            repo_key: self.repo_key@,
            branch: text::opt_text(self.branch),
            commits: commit_texts(self.commits@),
        }
    }
}

/// `s` with every newline replaced by a space.
pub open spec fn flatten(s: Seq<char>) -> Seq<char> {
    s.map_values(
        |c: char|
            if c == '\n' {
                ' '
            } else {
                c
            },
    )
}

/// The line of one commit.
pub open spec fn commit_line(c: CommitText) -> Seq<char> {
    "commit "@ + c.sha + " "@ + c.change_id + " "@ + flatten(c.subject)
}

/// The lines of a payload.
pub open spec fn payload_lines(p: PayloadText) -> Seq<Seq<char>> {
    seq![MAGIC@, "pid="@ + numbers::decimal(p.pid), "repo="@ + p.repo_key] + (match p.branch {
        Some(b) => seq!["branch="@ + b],
        None => Seq::<Seq<char>>::empty(),
    }) + p.commits.map_values(|c: CommitText| commit_line(c))
}

/// The text of a payload: its lines, each with a newline behind it.
pub open spec fn payload_text(p: PayloadText) -> Seq<char> {
    text::join_with(payload_lines(p).push(Seq::<char>::empty()), '\n')
}

/// What has been read of a payload so far.
#[verifier::ext_equal]
pub struct Reading {
    pub pid: Option<nat>,
    pub repo_key: Option<Seq<char>>,
    pub branch: Option<Seq<char>>,
    pub commits: Seq<CommitText>,
}

/// Nothing read yet.
pub open spec fn nothing_read() -> Reading {
    Reading { pid: None, repo_key: None, branch: None, commits: Seq::<CommitText>::empty() }
}

/// `s` in at most three parts, cut at its first two spaces.
pub open spec fn three_parts(s: Seq<char>) -> (Seq<char>, Seq<char>, Seq<char>) {
    match text::cut(s, ' ') {
        None => (s, Seq::<char>::empty(), Seq::<char>::empty()),
        Some((a, rest)) => match text::cut(rest, ' ') {
            None => (a, rest, Seq::<char>::empty()),
            Some((b, c)) => (a, b, c),
        },
    }
}

/// One more line: a commit with a sha and a change id, or a known `key=value`;
/// other lines are passed over.
pub open spec fn read_line(r: Reading, l: Seq<char>) -> Reading {
    if "commit "@.is_prefix_of(l) {
        let (sha, change_id, subject) = three_parts(l.skip(7));
        if sha.len() == 0 || change_id.len() == 0 {
            r
        } else {
            Reading { commits: r.commits.push(CommitText { sha, change_id, subject }), ..r }
        }
    } else {
        match text::cut(l, '=') {
            None => r,
            Some((k, v)) => {
                let key = white::trim(k);
                let value = white::trim(v);
                if key == "pid"@ {
                    Reading { pid: numbers::parse_number(value, u32::MAX as nat), ..r }
                } else if key == "repo"@ {
                    Reading { repo_key: Some(value), ..r }
                } else if key == "branch"@ {
                    Reading { branch: Some(value), ..r }
                } else {
                    r
                }
            },
        }
    }
}

/// What the lines `ls[1..n]` hold.
pub open spec fn read_lines(ls: Seq<Seq<char>>, n: int) -> Reading
    decreases n,
{
    if n <= 1 {
        nothing_read()
    } else {
        read_line(read_lines(ls, n - 1), ls[n - 1])
    }
}

/// The payload that `s` holds: a first line with the marker, a process and a
/// repository; `None` for any other text.
pub open spec fn parsed(s: Seq<char>) -> Option<PayloadText> {
    let ls = text::ended_lines(s);
    let r = read_lines(ls, ls.len() as int);
    if ls.len() > 0 && white::trim(ls[0]) == MAGIC@ && r.pid is Some && r.repo_key is Some {
        Some(
            PayloadText {
                pid: r.pid->0,
                repo_key: r.repo_key->0,
                branch: r.branch,
                commits: r.commits,
            },
        )
    } else {
        None
    }
}

/// `v` with every newline replaced by a space.
fn flatten_chars(v: &Vec<char>) -> (r: Vec<char>)
    ensures
        r@ == flatten(v@),
{
    let mut out: Vec<char> = Vec::new();
    let mut i: usize = 0;
    while i < v.len()
        invariant
            i <= v@.len(),
            out@ == flatten(v@.take(i as int)),
        decreases v.len() - i,
    {
        let c = v[i];
        out.push(
            if c == '\n' {
                ' '
            } else {
                c
            },
        );
        i += 1;
        assert(out@ =~= flatten(v@.take(i as int)));
    }
    assert(v@.take(i as int) =~= v@);
    out
}

fn three_parts_of(v: &Vec<char>) -> (r: (Vec<char>, Vec<char>, Vec<char>))
    ensures
        (r.0@, r.1@, r.2@) == three_parts(v@),
{
    match text::cut_chars(v, ' ') {
        None => (text::copy_of(v), Vec::new(), Vec::new()),
        Some((a, rest)) => match text::cut_chars(&rest, ' ') {
            None => (a, rest, Vec::new()),
            Some((b, c)) => (a, b, c),
        },
    }
}

impl DraggedCommits {
    /// The text form that the drag carries.
    pub fn serialize(&self) -> (r: String)
        ensures
            r@ == payload_text(self@),
    {
        let mut ls: Vec<Vec<char>> = Vec::new();
        ls.push(text::chars_of(MAGIC));
        let mut pid = text::chars_of("pid=");
        text::push_all(&mut pid, &numbers::write_decimal(self.pid as u64));
        ls.push(pid);
        let mut repo = text::chars_of("repo=");
        text::push_text(&mut repo, self.repo_key.as_str());
        ls.push(repo);
        match &self.branch {
            Some(b) => {
                let mut branch = text::chars_of("branch=");
                text::push_text(&mut branch, b.as_str());
                ls.push(branch);
            },
            None => {},
        }
        let ghost head = text::deep(ls@);
        let ghost tail = self@.commits.map_values(|c: CommitText| commit_line(c));
        assert(head + tail =~= payload_lines(self@));
        let mut i: usize = 0;
        assert(text::deep(ls@) =~= head + tail.take(0));
        while i < self.commits.len()
            invariant
                i <= self.commits@.len(),
                tail == commit_texts(self.commits@).map_values(|c: CommitText| commit_line(c)),
                text::deep(ls@) == head + tail.take(i as int),
            decreases self.commits.len() - i,
        {
            let c = &self.commits[i];
            let mut v = text::chars_of("commit ");
            text::push_text(&mut v, c.sha.as_str());
            text::push_text(&mut v, " ");
            text::push_text(&mut v, c.change_id.as_str());
            text::push_text(&mut v, " ");
            text::push_all(&mut v, &flatten_chars(&text::chars_of(c.subject.as_str())));
            assert(v@ =~= commit_line(c@));
            assert(tail[i as int] == v@);
            let ghost od = ls@;
            ls.push(v);
            assert(text::deep(ls@) =~= text::deep(od).push(v@));
            i += 1;
            assert(text::deep(ls@) =~= head + tail.take(i as int));
        }
        assert(tail.take(i as int) =~= tail);
        let ghost od = ls@;
        ls.push(Vec::new());
        assert(text::deep(ls@) =~= text::deep(od).push(Seq::<char>::empty()));
        text::string_of(&text::join_chars(&ls, '\n'))
    }

    /// Reads the text form; `None` for anything that is no payload.
    pub fn parse(text: &str) -> (r: Option<Self>)
        ensures
            (match r {
                Some(p) => parsed(text@) == Some(p@),
                None => parsed(text@) is None,
            }),
    {
        let ls = text::ended_lines_of(text);
        let ghost gl = text::ended_lines(text@);
        if ls.len() == 0 {
            return None;
        }
        assert(gl[0] == ls@[0]@);
        if !text::same_chars(&white::trim_chars(&ls[0]), &text::chars_of(MAGIC)) {
            return None;
        }
        proof {
            reveal_strlit("commit ");
        }
        let mut pid: Option<u32> = None;
        let mut repo_key: Option<String> = None;
        let mut branch: Option<String> = None;
        let mut commits: Vec<DraggedCommit> = Vec::new();
        let mut i: usize = 1;
        let commit_mark = "commit ";
        let pid_key = text::chars_of("pid");
        let repo_name = text::chars_of("repo");
        let branch_key = text::chars_of("branch");
        assert(commit_texts(commits@) =~= Seq::<CommitText>::empty());
        while i < ls.len()
            invariant
                1 <= i <= ls@.len(),
                gl == text::deep(ls@),
                commit_mark@ == "commit "@,
                commit_mark@.len() == 7,
                pid_key@ == "pid"@,
                repo_name@ == "repo"@,
                branch_key@ == "branch"@,
                read_lines(gl, i as int) == (Reading {
                    pid: match pid {
                        Some(n) => Some(n as nat),
                        None => None,
                    },
                    repo_key: text::opt_text(repo_key),
                    branch: text::opt_text(branch),
                    commits: commit_texts(commits@),
                }),
            decreases ls.len() - i,
        {
            let l = &ls[i];
            assert(gl[i as int] == l@);
            if text::starts_with(l, commit_mark) {
                let rest = text::slice_of(l, 7, l.len());
                assert(rest@ =~= l@.skip(7));
                let (sha, change_id, subject) = three_parts_of(&rest);
                if sha.len() > 0 && change_id.len() > 0 {
                    let c = DraggedCommit {
                        sha: text::string_of(&sha),
                        change_id: text::string_of(&change_id),
                        subject: text::string_of(&subject),
                    };
                    let ghost od = commits@;
                    commits.push(c);
                    assert(commit_texts(commits@) =~= commit_texts(od).push(c@));
                }
            } else {
                match text::cut_chars(l, '=') {
                    None => {},
                    Some((k, v)) => {
                        let key = white::trim_chars(&k);
                        let value = white::trim_chars(&v);
                        if text::same_chars(&key, &pid_key) {
                            pid = numbers::parse_u32(&value);
                        } else if text::same_chars(&key, &repo_name) {
                            repo_key = Some(text::string_of(&value));
                        } else if text::same_chars(&key, &branch_key) {
                            branch = Some(text::string_of(&value));
                        }
                    },
                }
            }
            i += 1;
        }
        match (pid, repo_key) {
            (Some(pid), Some(repo_key)) => {
                let p = DraggedCommits { pid, repo_key, branch, commits };
                Some(p)
            },
            _ => None,
        }
    }
}

/// Whether `s` may stand as a whole word of a commit line.
pub open spec fn plain_word(s: Seq<char>) -> bool {
    s.len() > 0 && text::free_of(s, ' ') && text::free_of(s, '\n')
}

/// Whether `s` may stand as a value of its own line.
pub open spec fn plain_value(s: Seq<char>) -> bool {
    white::trimmed(s) && text::free_of(s, '\n')
}

/// Whether a payload can be carried without loss: identifiers are single words,
/// values have no white space at their ends, and no subject ends with a carriage
/// return.
pub open spec fn carriable(p: PayloadText) -> bool {
    &&& p.pid <= u32::MAX
    &&& plain_value(p.repo_key)
    &&& (p.branch matches Some(b) ==> plain_value(b))
    &&& forall|i: int|
        0 <= i < p.commits.len() ==> {
            let c = #[trigger] p.commits[i];
            plain_word(c.sha) && plain_word(c.change_id) && (c.subject.len() > 0
                ==> c.subject.last() != '\r')
        }
}

/// A payload as it arrives: the newlines of its subjects have become spaces.
pub open spec fn flattened(p: PayloadText) -> PayloadText {
    PayloadText {
        commits: p.commits.map_values(
            |c: CommitText| CommitText { subject: flatten(c.subject), ..c },
        ),
        ..p
    }
}

proof fn lemma_flatten_free(s: Seq<char>)
    ensures
        text::free_of(flatten(s), '\n'),
{
    assert forall|j: int| 0 <= j < flatten(s).len() implies flatten(s)[j] != '\n' by {}
}

/// A `key=value` line of a payload, for a value without newlines and white ends.
proof fn lemma_value_line(key: Seq<char>, value: Seq<char>)
    requires
        key == "pid"@ || key == "repo"@ || key == "branch"@,
        plain_value(value),
    ensures
        ({
            let l = key.push('=') + value;
            &&& text::cut(l, '=') == Some((key, value))
            &&& white::trim(key) == key
            &&& white::trim(value) == value
            &&& !"commit "@.is_prefix_of(l)
            &&& text::free_of(l, '\n')
            &&& text::strip_cr(l) == l
        }),
{
    reveal_strlit("pid");
    reveal_strlit("repo");
    reveal_strlit("branch");
    reveal_strlit("commit ");
    let l = key.push('=') + value;
    assert forall|j: int| 0 <= j < key.len() implies key[j] != '=' && key[j] != '\n'
        && !white::is_white(key[j]) by {}
    text::lemma_cut_at(key, '=', value);
    white::lemma_trim_trimmed(key);
    white::lemma_trim_trimmed(value);
    if "commit "@.is_prefix_of(l) {
        assert("commit "@[0] == l.subrange(0, 7)[0]);
        assert(l[0] == key[0]);
    }
    assert forall|j: int| 0 <= j < l.len() implies l[j] != '\n' by {
        if j > key.len() {
            assert(l[j] == value[j - key.len() - 1]);
            assert(value.contains(value[j - key.len() - 1]));
        }
    }
    if value.len() > 0 {
        assert(l.last() == value.last());
        assert(!white::is_white('a'));
        assert(white::is_white('\r'));
    }
}

/// A commit line reads back as its commit.
proof fn lemma_commit_line(c: CommitText, r: Reading)
    requires
        plain_word(c.sha),
        plain_word(c.change_id),
        c.subject.len() > 0 ==> c.subject.last() != '\r',
    ensures
        text::free_of(commit_line(c), '\n'),
        text::strip_cr(commit_line(c)) == commit_line(c),
        read_line(r, commit_line(c)) == (Reading {
            commits: r.commits.push(CommitText { subject: flatten(c.subject), ..c }),
            ..r
        }),
{
    reveal_strlit("commit ");
    reveal_strlit(" ");
    let l = commit_line(c);
    let flat = flatten(c.subject);
    let rest = c.change_id.push(' ') + flat;
    lemma_flatten_free(c.subject);
    assert(l =~= "commit "@ + (c.sha.push(' ') + rest));
    assert(l.subrange(0, 7) =~= "commit "@);
    assert(l.skip(7) =~= c.sha.push(' ') + rest);
    text::lemma_cut_at(c.sha, ' ', rest);
    text::lemma_cut_at(c.change_id, ' ', flat);
    let n1 = 7 + c.sha.len();
    let n2 = n1 + 1 + c.change_id.len();
    assert forall|j: int| 0 <= j < l.len() implies l[j] != '\n' by {
        if 7 <= j < n1 {
            assert(l[j] == c.sha[j - 7]);
            assert(c.sha.contains(c.sha[j - 7]));
        } else if n1 < j < n2 {
            assert(l[j] == c.change_id[j - n1 - 1]);
            assert(c.change_id.contains(c.change_id[j - n1 - 1]));
        } else if j > n2 {
            assert(l[j] == flat[j - n2 - 1]);
            assert(flat.contains(flat[j - n2 - 1]));
        }
    }
    if flat.len() > 0 {
        assert(l.last() == flat.last());
    } else {
        assert(l.last() == ' ');
    }
}

/// The commits of a payload are read one after the other.
proof fn lemma_read_commits(p: PayloadText, head: Seq<Seq<char>>, r: Reading, n: int)
    requires
        carriable(p),
        0 <= n <= p.commits.len(),
        head.len() >= 1,
        read_lines(head, head.len() as int) == r,
    ensures
        ({
            let ls = head + p.commits.map_values(|c: CommitText| commit_line(c));
            read_lines(ls, head.len() + n) == (Reading {
                commits: r.commits + flattened(p).commits.take(n),
                ..r
            })
        }),
    decreases n,
{
    let ls = head + p.commits.map_values(|c: CommitText| commit_line(c));
    if n == 0 {
        lemma_read_prefix(head, ls, head.len() as int);
        assert(r.commits + flattened(p).commits.take(0) =~= r.commits);
    } else {
        lemma_read_commits(p, head, r, n - 1);
        let c = p.commits[n - 1];
        assert(ls[head.len() + n - 1] == commit_line(c));
        lemma_commit_line(c, read_lines(ls, head.len() + n - 1));
        assert(flattened(p).commits.take(n) =~= flattened(p).commits.take(n - 1).push(
            CommitText { subject: flatten(c.subject), ..c },
        ));
        assert(r.commits + flattened(p).commits.take(n) =~= (r.commits + flattened(
            p,
        ).commits.take(n - 1)).push(CommitText { subject: flatten(c.subject), ..c }));
    }
}

proof fn lemma_read_prefix(a: Seq<Seq<char>>, b: Seq<Seq<char>>, n: int)
    requires
        n <= a.len(),
        n <= b.len(),
        forall|i: int| 0 <= i < n ==> a[i] == b[i],
    ensures
        read_lines(a, n) == read_lines(b, n),
    decreases n,
{
    if n > 1 {
        lemma_read_prefix(a, b, n - 1);
    }
}

/// What one window writes, another reads back: the same process, repository,
/// branch and commits, with the newlines of a subject turned into spaces.
pub proof fn law_payload_round_trip(p: PayloadText)
    requires
        carriable(p),
    ensures
        parsed(payload_text(p)) == Some(flattened(p)),
{
    let ls = payload_lines(p);
    let dec = numbers::decimal(p.pid);
    numbers::lemma_decimal_reads_back(p.pid);
    numbers::lemma_parse_decimal(p.pid, u32::MAX as nat);
    assert forall|j: int| 0 <= j < dec.len() implies dec[j] != '\n' && !white::is_white(
        dec[j],
    ) by {
        assert(numbers::is_digit(dec[j]));
    }
    reveal_strlit("commedit-dnd-v1");
    reveal_strlit("pid");
    reveal_strlit("pid=");
    reveal_strlit("repo");
    reveal_strlit("repo=");
    reveal_strlit("branch");
    reveal_strlit("branch=");
    assert("pid="@ + dec =~= "pid"@.push('=') + dec);
    assert("repo="@ + p.repo_key =~= "repo"@.push('=') + p.repo_key);
    lemma_value_line("pid"@, dec);
    lemma_value_line("repo"@, p.repo_key);
    let head = match p.branch {
        Some(b) => {
            assert("branch="@ + b =~= "branch"@.push('=') + b);
            lemma_value_line("branch"@, b);
            seq![MAGIC@, "pid="@ + dec, "repo="@ + p.repo_key, "branch="@ + b]
        },
        None => seq![MAGIC@, "pid="@ + dec, "repo="@ + p.repo_key],
    };
    let tail = p.commits.map_values(|c: CommitText| commit_line(c));
    assert(ls =~= head + tail);
    assert forall|i: int| 0 <= i < ls.len() implies text::free_of(#[trigger] ls[i], '\n')
        && text::strip_cr(ls[i]) == ls[i] by {
        if i >= head.len() {
            assert(ls[i] == commit_line(p.commits[i - head.len()]));
            lemma_commit_line(p.commits[i - head.len()], nothing_read());
        }
    }
    text::lemma_ended_lines_join(ls);
    white::lemma_trim_trimmed(MAGIC@);
    let r = Reading {
        pid: Some(p.pid),
        repo_key: Some(p.repo_key),
        branch: p.branch,
        commits: Seq::<CommitText>::empty(),
    };
    assert(!("pid"@ == "repo"@) && !("pid"@ == "branch"@) && !("repo"@ == "branch"@)) by {
        assert("pid"@.len() != "repo"@.len());
        assert("pid"@.len() != "branch"@.len());
        assert("repo"@.len() != "branch"@.len());
    }
    reveal_with_fuel(read_lines, 5);
    assert(read_lines(head, head.len() as int) == r);
    lemma_read_commits(p, head, r, p.commits.len() as int);
    assert(r.commits + flattened(p).commits.take(p.commits.len() as int)
        =~= flattened(p).commits);
    assert(ls.len() == head.len() + p.commits.len());
}

} // verus!
