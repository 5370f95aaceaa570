//! The author and committer fields above the message editor: `Name <email>` texts
//! and timestamps, and the identities they stand for.
//!
//! The four fields come in one order everywhere: author, author date, committer,
//! committer date.
use crate::model::{CommitInfo, Identity};
use crate::model;
use crate::numbers;
use crate::order;
use crate::text;
use crate::white;
use vstd::prelude::*;

verus! {

/// The placeholder of each field.
pub const IDENTITY_PLACEHOLDERS: [&'static str; 4] = [
    "Author — Name <email>",
    "YYYY-MM-DD HH:MM:SS ±HHMM",
    "Committer — Name <email>",
    "YYYY-MM-DD HH:MM:SS ±HHMM",
];

/// The placeholder of a field on which the selected commits disagree.
pub const DIFFERS_PLACEHOLDER: &'static str = "(differs across commits)";

/// The time of day that a date gets where the field holds none.
pub const MIDNIGHT: &'static str = "00:00:00 +0000";

/// The integer at position `i` of the texts between dashes.
pub open spec fn dashed(parts: Seq<Seq<char>>, i: int) -> Option<int> {
    if i < parts.len() {
        numbers::parse_integer(parts[i], i32::MIN as int, i32::MAX as int)
    } else {
        None
    }
}

/// Year, month and day of the first word of a timestamp.
pub open spec fn date_parts(s: Seq<char>) -> Option<(int, int, int)> {
    let words = white::words(s);
    if words.len() == 0 {
        None
    } else {
        let parts = text::split_on(words[0], '-');
        match (dashed(parts, 0), dashed(parts, 1), dashed(parts, 2)) {
            (Some(y), Some(m), Some(d)) => Some((y, m, d)),
            _ => None,
        }
    }
}

fn dashed_at(parts: &Vec<Vec<char>>, i: usize) -> (r: Option<i32>)
    ensures
        match r {
            Some(n) => dashed(text::deep(parts@), i as int) == Some(n as int),
            None => dashed(text::deep(parts@), i as int) is None,
        },
{
    if i < parts.len() {
        assert(text::deep(parts@)[i as int] == parts@[i as int]@);
        numbers::parse_i32(&parts[i])
    } else {
        None
    }
}

/// The `YYYY-MM-DD` that a timestamp starts with, as year, month and day.
pub fn entry_date_parts(text: &str) -> (r: Option<(i32, i32, i32)>)
    ensures
        match r {
            Some(p) => date_parts(text@) == Some((p.0 as int, p.1 as int, p.2 as int)),
            None => date_parts(text@) is None,
        },
{
    let words = white::words_of(&text::chars_of(text));
    if words.len() == 0 {
        return None;
    }
    assert(text::deep(words@)[0] == words@[0]@);
    let parts = text::split_chars(&words[0], '-');
    match (dashed_at(&parts, 0), dashed_at(&parts, 1), dashed_at(&parts, 2)) {
        (Some(y), Some(m), Some(d)) => Some((y, m, d)),
        _ => None,
    }
}

/// What follows the date in a timestamp: all behind the first space, or midnight
/// where there is none.
pub open spec fn time_part(s: Seq<char>) -> Seq<char> {
    match text::cut(white::trim(s), ' ') {
        Some(p) => p.1,
        None => MIDNIGHT@,
    }
}

/// A date as `YYYY-MM-DD`.
pub open spec fn date_text(year: int, month: int, day: int) -> Seq<char> {
    numbers::padded(year, 4).push('-') + numbers::padded(month, 2).push('-') + numbers::padded(
        day,
        2,
    )
}

/// The timestamp `s` moved to another day.
pub open spec fn with_date(s: Seq<char>, year: int, month: int, day: int) -> Seq<char> {
    date_text(year, month, day).push(' ') + time_part(s)
}

/// The text of a date field once a day is picked: the day is replaced, the time of
/// day and the zone stay.
pub fn set_entry_date(text: &str, year: i32, month: i32, day: i32) -> (r: String)
    ensures
        r@ == with_date(text@, year as int, month as int, day as int),
{
    let t = white::trim_chars(&text::chars_of(text));
    let rest = match text::cut_chars(&t, ' ') {
        Some(p) => p.1,
        None => text::chars_of(MIDNIGHT),
    };
    let mut out = numbers::write_padded(year, 4);
    out.push('-');
    text::push_all(&mut out, &numbers::write_padded(month, 2));
    out.push('-');
    text::push_all(&mut out, &numbers::write_padded(day, 2));
    assert(out@ =~= date_text(year as int, month as int, day as int));
    out.push(' ');
    text::push_all(&mut out, &rest);
    text::string_of(&out)
}

/// The last place of `c` in `s`.
pub open spec fn last_char(s: Seq<char>, c: char) -> Option<int>
    decreases s.len(),
{
    if s.len() == 0 {
        None
    } else if s.last() == c {
        Some(s.len() - 1)
    } else {
        last_char(s.drop_last(), c)
    }
}

/// Name and email of a `Name <email>` field: the email stands between the last `<`
/// and the `>` behind it. Without such brackets all of it is the name.
pub open spec fn person(s: Seq<char>) -> (Seq<char>, Seq<char>) {
    let t = white::trim(s);
    match last_char(t, '<') {
        Some(open) => match text::find_char(t.skip(open), '>') {
            Some(close) => (
                white::trim(t.take(open)),
                white::trim(t.subrange(open + 1, open + close)),
            ),
            None => (t, Seq::<char>::empty()),
        },
        None => (t, Seq::<char>::empty()),
    }
}

/// A name and an email as a field shows them.
pub open spec fn person_text(name: Seq<char>, email: Seq<char>) -> Seq<char> {
    if email.len() == 0 {
        name
    } else {
        name + " <"@ + email.push('>')
    }
}

fn last_index(v: &Vec<char>, c: char) -> (r: Option<usize>)
    ensures
        match r {
            Some(i) => last_char(v@, c) == Some(i as int) && i < v@.len() && v@[i as int] == c,
            None => last_char(v@, c) is None,
        },
{
    let mut n: usize = v.len();
    assert(v@.take(n as int) =~= v@);
    while n > 0
        invariant
            n <= v@.len(),
            last_char(v@, c) == last_char(v@.take(n as int), c),
        decreases n,
    {
        assert(v@.take(n as int).last() == v@[n - 1]);
        if v[n - 1] == c {
            return Some(n - 1);
        }
        assert(v@.take(n as int).drop_last() =~= v@.take(n - 1));
        n -= 1;
    }
    None
}

/// The name and the email in a `Name <email>` field.
pub fn split_name_email(text: &str) -> (r: (String, String))
    ensures
        (r.0@, r.1@) == person(text@),
{
    let t = white::trim_chars(&text::chars_of(text));
    let n: usize = t.len();
    if let Some(open) = last_index(&t, '<') {
        let rest = text::slice_of(&t, open, n);
        assert(rest@ =~= t@.skip(open as int));
        if let Some(close) = text::index_of(&rest, '>') {
            assert(rest@[0] == t@[open as int]);
            assert(0 < close && close < n - open);
            let name = text::slice_of(&t, 0, open);
            assert(name@ =~= t@.take(open as int));
            let email = text::slice_of(&t, open + 1, open + close);
            return (
                text::string_of(&white::trim_chars(&name)),
                text::string_of(&white::trim_chars(&email)),
            );
        }
    }
    let none = String::new();
    assert(none@ =~= Seq::<char>::empty());
    (text::string_of(&t), none)
}

/// A name and an email as a `Name <email>` field.
pub fn join_name_email(name: &str, email: &str) -> (r: String)
    ensures
        r@ == person_text(name@, email@),
{
    let e = text::chars_of(email);
    if e.len() == 0 {
        return name.to_string();
    }
    let mut out = text::chars_of(name);
    text::push_text(&mut out, " <");
    text::push_all(&mut out, &e);
    out.push('>');
    assert(out@ =~= person_text(name@, email@));
    text::string_of(&out)
}

/// The identity that the texts of the four fields stand for.
pub open spec fn fields_identity(f: Seq<Seq<char>>) -> model::IdentityText {
    model::IdentityText {
        author: person(f[0]),
        author_time: f[1],
        committer: person(f[2]),
        committer_time: f[3],
    }
}

/// The texts of four fields.
pub open spec fn field_texts(f: [String; 4]) -> Seq<Seq<char>> {
    text::texts(f@)
}

/// The identity in the four fields.
pub fn read_identity(fields: &[String; 4]) -> (r: Identity)
    ensures
        r@ == fields_identity(field_texts(*fields)),
{
    let ghost g = field_texts(*fields);
    assert(g[0] == fields[0]@ && g[1] == fields[1]@ && g[2] == fields[2]@ && g[3] == fields[3]@);
    let (author_name, author_email) = split_name_email(fields[0].as_str());
    let (committer_name, committer_email) = split_name_email(fields[2].as_str());
    Identity {
        author_name,
        author_email,
        author_time: fields[1].clone(),
        committer_name,
        committer_email,
        committer_time: fields[3].clone(),
    }
}

/// The texts of the four fields for an identity.
pub open spec fn identity_fields(id: model::IdentityText) -> Seq<Seq<char>> {
    seq![
        person_text(id.author.0, id.author.1),
        id.author_time,
        person_text(id.committer.0, id.committer.1),
        id.committer_time,
    ]
}

/// The texts of the four fields for a commit.
pub fn commit_field_values(commit: &CommitInfo) -> (r: [String; 4])
    ensures
        field_texts(r) == identity_fields(commit.identity()),
{
    let r = [
        join_name_email(commit.author_name.as_str(), commit.author_email.as_str()),
        commit.author_time.clone(),
        join_name_email(commit.committer_name.as_str(), commit.committer_email.as_str()),
        commit.committer_time.clone(),
    ];
    assert(field_texts(r) =~= identity_fields(commit.identity()));
    r
}

/// A field shown for several commits.
#[derive(Clone, Debug, PartialEq, Eq)]
pub struct CommonField {
    /// Whether the commits disagree, which the field shows by its style.
    pub differs: bool,
    pub placeholder: &'static str,
    pub text: String,
}

/// Whether all commits have the same text in field `i`.
pub open spec fn agree(commits: Seq<CommitInfo>, i: int) -> bool {
    forall|k: int|
        0 <= k < commits.len() ==> identity_fields((#[trigger] commits[k]).identity())[i]
            == identity_fields(commits[0].identity())[i]
}

/// What field `i` shows for several commits: the text that they share, or nothing.
pub open spec fn common_text(commits: Seq<CommitInfo>, i: int) -> Seq<char> {
    if agree(commits, i) {
        identity_fields(commits[0].identity())[i]
    } else {
        Seq::<char>::empty()
    }
}

/// What field `i` shows for several commits.
pub fn common_field(commits: &[CommitInfo], i: usize) -> (r: CommonField)
    requires
        commits@.len() > 0,
        i < 4,
    ensures
        r.differs == !agree(commits@, i as int),
        r.text@ == common_text(commits@, i as int),
        r.placeholder@ == if r.differs {
            DIFFERS_PLACEHOLDER@
        } else {
            IDENTITY_PLACEHOLDERS[i as int]@
        },
{
    let first = commit_field_values(&commits[0]);
    let ghost g0 = field_texts(first);
    let mut k: usize = 1;
    assert(g0[i as int] == first[i as int]@);
    while k < commits.len()
        invariant
            0 < k <= commits@.len(),
            i < 4,
            g0 == identity_fields(commits@[0].identity()),
            g0[i as int] == first[i as int]@,
            forall|j: int|
                0 <= j < k ==> identity_fields((#[trigger] commits@[j]).identity())[i as int]
                    == g0[i as int],
        decreases commits.len() - k,
    {
        let one = commit_field_values(&commits[k]);
        assert(field_texts(one)[i as int] == one[i as int]@);
        if !text::same_text(one[i].as_str(), first[i].as_str()) {
            let none = String::new();
            assert(none@ =~= Seq::<char>::empty());
            assert(!agree(commits@, i as int)) by {
                assert(identity_fields(commits@[k as int].identity())[i as int] != g0[i as int]);
            }
            return CommonField { differs: true, placeholder: DIFFERS_PLACEHOLDER, text: none };
        }
        k += 1;
    }
    CommonField {
        differs: false,
        placeholder: IDENTITY_PLACEHOLDERS[i],
        text: first[i].clone(),
    }
}

/// What the four fields show for several commits. The texts are also what an edit
/// is told apart from.
pub fn common_fields(commits: &[CommitInfo]) -> (r: Vec<CommonField>)
    requires
        commits@.len() > 0,
    ensures
        r@.len() == 4,
        forall|i: int|
            0 <= i < 4 ==> {
                &&& (#[trigger] r@[i]).differs == !agree(commits@, i)
                &&& r@[i].text@ == common_text(commits@, i)
                &&& r@[i].placeholder@ == if r@[i].differs {
                    DIFFERS_PLACEHOLDER@
                } else {
                    IDENTITY_PLACEHOLDERS[i]@
                }
            },
{
    let mut out: Vec<CommonField> = Vec::new();
    let mut i: usize = 0;
    while i < 4
        invariant
            commits@.len() > 0,
            i <= 4,
            out@.len() == i,
            forall|j: int|
                0 <= j < i ==> {
                    &&& (#[trigger] out@[j]).differs == !agree(commits@, j)
                    &&& out@[j].text@ == common_text(commits@, j)
                    &&& out@[j].placeholder@ == if out@[j].differs {
                        DIFFERS_PLACEHOLDER@
                    } else {
                        IDENTITY_PLACEHOLDERS[j]@
                    }
                },
        decreases 4 - i,
    {
        out.push(common_field(commits, i));
        i += 1;
    }
    out
}

/// The text to write for a field of several commits: what it holds, where that is
/// something and not what the field was given.
pub open spec fn field_override(now: Seq<char>, given: Seq<char>) -> Option<Seq<char>> {
    if !white::all_white(now) && now != given {
        Some(now)
    } else {
        None
    }
}

/// The fields to write to every selected commit.
pub fn identity_overrides(now: &[String; 4], given: &[String; 4]) -> (r: [Option<String>; 4])
    ensures
        forall|i: int|
            0 <= i < 4 ==> text::opt_text(#[trigger] r[i]) == field_override(now[i]@, given[i]@),
{
    [
        override_of(now[0].as_str(), given[0].as_str()),
        override_of(now[1].as_str(), given[1].as_str()),
        override_of(now[2].as_str(), given[2].as_str()),
        override_of(now[3].as_str(), given[3].as_str()),
    ]
}

fn override_of(now: &str, given: &str) -> (r: Option<String>)
    ensures
        text::opt_text(r) == field_override(now@, given@),
{
    let t = white::trim_chars(&text::chars_of(now));
    proof {
        white::lemma_trim_empty(now@);
    }
    if t.len() > 0 && !text::same_text(now, given) {
        Some(now.to_string())
    } else {
        None
    }
}

/// Whether nothing is to be written.
pub fn no_overrides(overrides: &[Option<String>; 4]) -> (r: bool)
    ensures
        r == forall|i: int| 0 <= i < 4 ==> (#[trigger] overrides[i]) is None,
{
    let r = overrides[0].is_none() && overrides[1].is_none() && overrides[2].is_none()
        && overrides[3].is_none();
    assert(overrides[0] is None && overrides[1] is None && overrides[2] is None && overrides[3]
        is None ==> forall|i: int| 0 <= i < 4 ==> (#[trigger] overrides[i]) is None);
    r
}

/// An identity with some fields overridden.
pub open spec fn overridden(id: model::IdentityText, o: Seq<Option<Seq<char>>>) -> model::IdentityText {
    model::IdentityText {
        author: match o[0] {
            Some(v) => person(v),
            None => id.author,
        },
        author_time: match o[1] {
            Some(v) => v,
            None => id.author_time,
        },
        committer: match o[2] {
            Some(v) => person(v),
            None => id.committer,
        },
        committer_time: match o[3] {
            Some(v) => v,
            None => id.committer_time,
        },
    }
}

/// The texts of four overrides.
pub open spec fn override_texts(o: [Option<String>; 4]) -> Seq<Option<Seq<char>>> {
    o@.map_values(|v: Option<String>| text::opt_text(v))
}

fn own_or(o: &Option<String>, own: &String) -> (r: String)
    ensures
        r@ == match text::opt_text(*o) {
            Some(v) => v,
            None => own@,
        },
{
    match o {
        Some(v) => v.clone(),
        None => own.clone(),
    }
}

fn person_or(o: &Option<String>, name: &String, email: &String) -> (r: (String, String))
    ensures
        (r.0@, r.1@) == match text::opt_text(*o) {
            Some(v) => person(v),
            None => (name@, email@),
        },
{
    match o {
        Some(v) => split_name_email(v.as_str()),
        None => (name.clone(), email.clone()),
    }
}

/// The commit's identity with every overridden field replaced.
pub fn identity_for_commit(commit: &CommitInfo, overrides: &[Option<String>; 4]) -> (r: Identity)
    ensures
        r@ == overridden(commit.identity(), override_texts(*overrides)),
{
    let ghost g = override_texts(*overrides);
    assert(g[0] == text::opt_text(overrides[0]) && g[1] == text::opt_text(overrides[1]) && g[2]
        == text::opt_text(overrides[2]) && g[3] == text::opt_text(overrides[3]));
    let (author_name, author_email) = person_or(
        &overrides[0],
        &commit.author_name,
        &commit.author_email,
    );
    let (committer_name, committer_email) = person_or(
        &overrides[2],
        &commit.committer_name,
        &commit.committer_email,
    );
    Identity {
        author_name,
        author_email,
        author_time: own_or(&overrides[1], &commit.author_time),
        committer_name,
        committer_email,
        committer_time: own_or(&overrides[3], &commit.committer_time),
    }
}

/// Whether a field text holds an email in brackets.
pub open spec fn bracketed(s: Seq<char>) -> bool {
    last_char(s, '<') matches Some(open) && text::find_char(s.skip(open), '>') is Some
}

/// A name and an email read back from the field that shows them, unless white space
/// stands at their ends, brackets stand in the email, or brackets stand in the name
/// of someone without one.
pub proof fn law_person_round_trip(name: Seq<char>, email: Seq<char>)
    requires
        white::trimmed(name),
        white::trimmed(email),
        text::free_of(email, '<'),
        text::free_of(email, '>'),
        email.len() == 0 ==> !bracketed(name),
    ensures
        person(person_text(name, email)) == (name, email),
{
    let f = person_text(name, email);
    if email.len() == 0 {
        white::lemma_trim_trimmed(name);
        assert(email =~= Seq::<char>::empty());
    } else {
        reveal_strlit(" <");
        assert(f.last() == '>');
        let t = if name.len() == 0 {
            seq!['<'] + email.push('>')
        } else {
            f
        };
        let open = if name.len() == 0 {
            0
        } else {
            name.len() as int + 1
        };
        assert(!white::is_white('>') && !white::is_white('<') && white::is_white(' '));
        if name.len() == 0 {
            assert(f[0] == ' ');
            assert(f.skip(1) =~= t);
            white::lemma_trim_trimmed(t);
            assert(white::trim_start(t) == t);
        } else {
            assert(f[0] == name[0]);
            white::lemma_trim_trimmed(f);
        }
        assert(white::trim(f) == t);
        let rest = t.skip(open);
        assert(rest =~= seq!['<'] + email.push('>'));
        assert(t[open] == '<');
        assert forall|i: int| open < i < t.len() implies t[i] != '<' by {
            if i < t.len() - 1 {
                assert(t[i] == email[i - open - 1]);
                assert(email.contains(email[i - open - 1]));
            }
        }
        lemma_last_at(t, '<', open);
        let close = email.len() as int + 1;
        assert forall|j: int| 0 <= j < close implies rest[j] != '>' by {
            if j > 0 {
                assert(rest[j] == email[j - 1]);
                assert(email.contains(email[j - 1]));
            }
        }
        text::lemma_found_at(rest, '>', close);
        assert(t.subrange(open + 1, open + close) =~= email);
        white::lemma_trim_trimmed(email);
        if name.len() == 0 {
            assert(t.take(0) =~= name);
            white::lemma_trim_trimmed(name);
        } else {
            let before = t.take(open);
            assert(before =~= name.push(' '));
            assert(before.drop_last() =~= name);
            assert(white::trim_start(before) == before);
            assert(white::trim_end(name) == name);
            assert(white::trim(before) == name);
        }
    }
}

proof fn lemma_last_at(s: Seq<char>, c: char, at: int)
    requires
        0 <= at < s.len(),
        s[at] == c,
        forall|i: int| at < i < s.len() ==> s[i] != c,
    ensures
        last_char(s, c) == Some(at),
    decreases s.len(),
{
    if at < s.len() - 1 {
        lemma_last_at(s.drop_last(), c, at);
    }
}

/// Whether a name and an email read back from the field that shows them.
pub open spec fn shows(person: (Seq<char>, Seq<char>)) -> bool {
    &&& white::trimmed(person.0)
    &&& white::trimmed(person.1)
    &&& text::free_of(person.1, '<')
    &&& text::free_of(person.1, '>')
    &&& person.1.len() == 0 ==> !bracketed(person.0)
}

/// The fields filled in from a commit stand for the commit's own identity: to save
/// them untouched changes nothing.
pub proof fn law_untouched_fields_keep_the_identity(id: model::IdentityText)
    requires
        shows(id.author),
        shows(id.committer),
    ensures
        fields_identity(identity_fields(id)) == id,
{
    law_person_round_trip(id.author.0, id.author.1);
    law_person_round_trip(id.committer.0, id.committer.1);
}

/// With no field overridden, a commit keeps its identity.
pub proof fn law_no_override_keeps_the_identity(id: model::IdentityText, o: Seq<Option<Seq<char>>>)
    requires
        o.len() == 4,
        forall|i: int| 0 <= i < 4 ==> (#[trigger] o[i]) is None,
    ensures
        overridden(id, o) == id,
{
    assert(o[0] is None && o[1] is None && o[2] is None && o[3] is None);
}

/// What is typed for the selected commits is what each of them gets, and no more: an
/// overridden person, in the plain form that a field shows, and an overridden date
/// read back from the identity and from the fields that show it; whatever is not
/// overridden stays the commit's own.
pub proof fn law_overrides_read_back(
    commit: CommitInfo,
    overrides: [Option<String>; 4],
    r: Identity,
    author: (Seq<char>, Seq<char>),
    committer: (Seq<char>, Seq<char>),
)
    requires
        r@ == overridden(commit.identity(), override_texts(overrides)),
        overrides[0] matches Some(v) ==> shows(author) && v@ == person_text(author.0, author.1),
        overrides[2] matches Some(v) ==> shows(committer) && v@ == person_text(
            committer.0,
            committer.1,
        ),
    ensures
        match overrides[0] {
            Some(v) => r.author_name@ == author.0 && r.author_email@ == author.1
                && identity_fields(r@)[0] == v@,
            None => r.author_name@ == commit.author_name@ && r.author_email@
                == commit.author_email@ && identity_fields(r@)[0] == identity_fields(
                commit.identity(),
            )[0],
        },
        match overrides[1] {
            Some(v) => r.author_time@ == v@ && identity_fields(r@)[1] == v@,
            None => r.author_time@ == commit.author_time@ && identity_fields(r@)[1]
                == commit.author_time@,
        },
        match overrides[2] {
            Some(v) => r.committer_name@ == committer.0 && r.committer_email@ == committer.1
                && identity_fields(r@)[2] == v@,
            None => r.committer_name@ == commit.committer_name@ && r.committer_email@
                == commit.committer_email@ && identity_fields(r@)[2] == identity_fields(
                commit.identity(),
            )[2],
        },
        match overrides[3] {
            Some(v) => r.committer_time@ == v@ && identity_fields(r@)[3] == v@,
            None => r.committer_time@ == commit.committer_time@ && identity_fields(r@)[3]
                == commit.committer_time@,
        },
{
    let o = override_texts(overrides);
    assert(o[0] == text::opt_text(overrides[0]) && o[1] == text::opt_text(overrides[1]) && o[2]
        == text::opt_text(overrides[2]) && o[3] == text::opt_text(overrides[3]));
    if overrides[0] is Some {
        law_person_round_trip(author.0, author.1);
    }
    if overrides[2] is Some {
        law_person_round_trip(committer.0, committer.1);
    }
}

/// To type over the fields of one commit and to type the same over those of several
/// gives a commit the same identity: the fields as they then read.
pub proof fn law_overrides_are_fields_typed_over(
    commit: CommitInfo,
    overrides: [Option<String>; 4],
    fields: Seq<Seq<char>>,
)
    requires
        shows(commit.identity().author),
        shows(commit.identity().committer),
        fields.len() == 4,
        forall|i: int|
            0 <= i < 4 ==> #[trigger] fields[i] == match text::opt_text(overrides[i]) {
                Some(v) => v,
                None => identity_fields(commit.identity())[i],
            },
    ensures
        overridden(commit.identity(), override_texts(overrides)) == fields_identity(fields),
{
    let o = override_texts(overrides);
    assert(o[0] == text::opt_text(overrides[0]) && o[1] == text::opt_text(overrides[1]) && o[2]
        == text::opt_text(overrides[2]) && o[3] == text::opt_text(overrides[3]));
    assert(fields[0] == fields[0] && fields[1] == fields[1] && fields[2] == fields[2] && fields[3]
        == fields[3]);
    law_untouched_fields_keep_the_identity(commit.identity());
}

/// A field that still shows what it was given, or is left blank, as one on which
/// the commits differ, is not written.
pub proof fn law_untouched_field_is_not_written(commits: Seq<CommitInfo>, i: int, now: Seq<char>)
    requires
        now == common_text(commits, i),
    ensures
        field_override(now, common_text(commits, i)) is None,
        !agree(commits, i) ==> field_override(Seq::<char>::empty(), common_text(commits, i)) is None,
{
}

proof fn lemma_date_text(year: int, month: int, day: int)
    ensures
        date_text(year, month, day).len() > 0,
        forall|i: int|
            0 <= i < date_text(year, month, day).len() ==> !white::is_white(
                #[trigger] date_text(year, month, day)[i],
            ),
{
    lemma_padded_chars(year, 4);
    lemma_padded_chars(month, 2);
    lemma_padded_chars(day, 2);
    let y = numbers::padded(year, 4);
    let m = numbers::padded(month, 2);
    let d = numbers::padded(day, 2);
    let t = date_text(year, month, day);
    assert forall|i: int| 0 <= i < t.len() implies !white::is_white(#[trigger] t[i]) by {
        if i < y.len() {
            assert(t[i] == y[i]);
        } else if i == y.len() {
            assert(t[i] == '-');
        } else if i < y.len() + 1 + m.len() {
            assert(t[i] == m[i - y.len() - 1]);
        } else if i == y.len() + 1 + m.len() {
            assert(t[i] == '-');
        } else {
            assert(t[i] == d[i - y.len() - m.len() - 2]);
        }
    }
}

proof fn lemma_padded_chars(n: int, width: int)
    ensures
        forall|i: int|
            0 <= i < numbers::padded(n, width).len() ==> !white::is_white(
                #[trigger] numbers::padded(n, width)[i],
            ),
{
    let k = if n < 0 {
        (-n) as nat
    } else {
        n as nat
    };
    let d = numbers::decimal(k);
    numbers::lemma_decimal_reads_back(k);
    let p = numbers::padded(n, width);
    assert forall|i: int| 0 <= i < p.len() implies !white::is_white(#[trigger] p[i]) by {
        let at = i - (p.len() - d.len());
        if at >= 0 {
            assert(p[i] == d[at]);
            assert(numbers::is_digit(d[at]));
        }
    }
}

/// A picked day is the day that the field then shows.
pub proof fn law_picked_day_reads_back(s: Seq<char>, year: int, month: int, day: int)
    requires
        0 <= year <= i32::MAX,
        0 <= month <= i32::MAX,
        0 <= day <= i32::MAX,
    ensures
        date_parts(with_date(s, year, month, day)) == Some((year, month, day)),
{
    let t = date_text(year, month, day);
    lemma_date_text(year, month, day);
    white::lemma_first_word(t, time_part(s));
    numbers::lemma_parse_padded(year, 4, i32::MIN as int, i32::MAX as int);
    numbers::lemma_parse_padded(month, 2, i32::MIN as int, i32::MAX as int);
    numbers::lemma_parse_padded(day, 2, i32::MIN as int, i32::MAX as int);
    let y = numbers::padded(year, 4);
    let m = numbers::padded(month, 2);
    let d = numbers::padded(day, 2);
    lemma_digits_have_no_dash(y);
    lemma_digits_have_no_dash(m);
    lemma_digits_have_no_dash(d);
    assert(t =~= (y.push('-') + m).push('-') + d);
    text::lemma_split_append(y.push('-') + m, d, '-');
    text::lemma_split_append(y, m, '-');
    text::lemma_split_free(y, '-');
}

proof fn lemma_digits_have_no_dash(s: Seq<char>)
    requires
        numbers::all_digits(s),
    ensures
        text::free_of(s, '-'),
{
    if s.contains('-') {
        let i = choose|i: int| 0 <= i < s.len() && s[i] == '-';
        assert(numbers::is_digit(s[i]));
    }
}

/// Picking a day leaves the time of day and the zone as they are.
pub proof fn law_picking_a_day_keeps_the_time(s: Seq<char>, year: int, month: int, day: int)
    ensures
        time_part(with_date(s, year, month, day)) == time_part(s),
{
    let t = date_text(year, month, day);
    let rest = time_part(s);
    lemma_date_text(year, month, day);
    assert(rest.len() > 0 && !white::is_white(rest.last())) by {
        let w = white::trim(s);
        white::lemma_trim_is_trimmed(s);
        text::lemma_find_char(w, ' ');
        if let Some(i) = text::find_char(w, ' ') {
            assert(w[i] == ' ');
            assert(white::is_white(' '));
            assert(w.skip(i + 1).len() > 0);
            assert(w.skip(i + 1).last() == w.last());
        } else {
            reveal_strlit("00:00:00 +0000");
        }
    }
    let f = with_date(s, year, month, day);
    assert(f[0] == t[0]);
    assert(f.last() == rest.last());
    white::lemma_trim_trimmed(f);
    assert(text::free_of(t, ' ')) by {
        if t.contains(' ') {
            let i = choose|i: int| 0 <= i < t.len() && t[i] == ' ';
            assert(!white::is_white(t[i]));
            assert(white::is_white(' '));
        }
    }
    text::lemma_cut_at(t, ' ', rest);
}

/// Whether one person comes before another: by name, then by email.
pub open spec fn person_lt(a: (Seq<char>, Seq<char>), b: (Seq<char>, Seq<char>)) -> bool {
    order::text_lt(a.0, b.0) || (a.0 == b.0 && order::text_lt(a.1, b.1))
}

/// The texts of a list of persons.
pub open spec fn persons(v: Seq<(String, String)>) -> Seq<(Seq<char>, Seq<char>)> {
    v.map_values(|p: (String, String)| (p.0@, p.1@))
}

/// Whether the persons stand in order, none twice.
pub open spec fn in_order(v: Seq<(Seq<char>, Seq<char>)>) -> bool {
    forall|i: int, j: int| 0 <= i < j < v.len() ==> person_lt(#[trigger] v[i], #[trigger] v[j])
}

/// Whether a person wrote or committed one of the commits.
pub open spec fn took_part(commits: Seq<CommitInfo>, p: (Seq<char>, Seq<char>)) -> bool {
    exists|i: int|
        0 <= i < commits.len() && ((#[trigger] commits[i]).identity().author == p
            || commits[i].identity().committer == p)
}

fn person_less(a: &(String, String), name: &String, email: &String) -> (r: bool)
    ensures
        r == person_lt((a.0@, a.1@), (name@, email@)),
{
    order::text_less(a.0.as_str(), name.as_str()) || (text::same_text(a.0.as_str(), name.as_str())
        && order::text_less(a.1.as_str(), email.as_str()))
}

fn add_person(v: &mut Vec<(String, String)>, name: &String, email: &String)
    requires
        in_order(persons(old(v)@)),
    ensures
        in_order(persons(final(v)@)),
        forall|y: (Seq<char>, Seq<char>)| #[trigger]
            persons(final(v)@).contains(y) <==> persons(old(v)@).contains(y) || y == (name@, email@),
{
    let ghost g0 = persons(v@);
    let ghost p = (name@, email@);
    let mut i: usize = 0;
    while i < v.len() && person_less(&v[i], name, email)
        invariant
            i <= v@.len(),
            g0 == persons(v@),
            p == (name@, email@),
            forall|j: int| 0 <= j < i ==> person_lt(#[trigger] g0[j], p),
        decreases v.len() - i,
    {
        assert(g0[i as int] == (v@[i as int].0@, v@[i as int].1@));
        i += 1;
    }
    if i < v.len() && text::same_text(v[i].0.as_str(), name.as_str()) && text::same_text(
        v[i].1.as_str(),
        email.as_str(),
    ) {
        assert(g0[i as int] == p);
        assert(g0.contains(g0[i as int]));
        return;
    }
    let ghost ov = v@;
    proof {
        if i < g0.len() {
            assert(g0[i as int] == (ov[i as int].0@, ov[i as int].1@));
            order::lemma_lt_total(p.0, g0[i as int].0);
            order::lemma_lt_total(p.1, g0[i as int].1);
        }
        assert forall|j: int| i <= j < g0.len() implies person_lt(p, #[trigger] g0[j]) by {
            if j > i {
                lemma_person_lt_transitive(p, g0[i as int], g0[j]);
            }
        }
    }
    v.insert(i, (name.clone(), email.clone()));
    let ghost g1 = persons(v@);
    assert(g1 =~= g0.insert(i as int, p));
    proof {
        assert forall|a: int, b: int| 0 <= a < b < g1.len() implies person_lt(
            #[trigger] g1[a],
            #[trigger] g1[b],
        ) by {
            if a < i && b < i {
                assert(g1[a] == g0[a] && g1[b] == g0[b]);
            } else if a < i && b == i {
                assert(g1[a] == g0[a]);
            } else if a < i {
                assert(g1[a] == g0[a] && g1[b] == g0[b - 1]);
            } else if a == i {
                assert(g1[b] == g0[b - 1]);
            } else {
                assert(g1[a] == g0[a - 1] && g1[b] == g0[b - 1]);
            }
        }
        assert forall|y: (Seq<char>, Seq<char>)| #[trigger] g1.contains(y) <==> g0.contains(y) || y
            == p by {
            if g1.contains(y) {
                let k = choose|k: int| 0 <= k < g1.len() && g1[k] == y;
                if k < i {
                    assert(g0[k] == y);
                } else if k > i {
                    assert(g0[k - 1] == y);
                }
            }
            if g0.contains(y) {
                let k = choose|k: int| 0 <= k < g0.len() && g0[k] == y;
                if k < i {
                    assert(g1[k] == y);
                } else {
                    assert(g1[k + 1] == y);
                }
            }
            if y == p {
                assert(g1[i as int] == y);
            }
        }
    }
}

proof fn lemma_person_lt_transitive(
    a: (Seq<char>, Seq<char>),
    b: (Seq<char>, Seq<char>),
    c: (Seq<char>, Seq<char>),
)
    requires
        person_lt(a, b),
        person_lt(b, c),
    ensures
        person_lt(a, c),
{
    if order::text_lt(a.0, b.0) && order::text_lt(b.0, c.0) {
        order::lemma_lt_transitive(a.0, b.0, c.0);
    } else if a.0 == b.0 && b.0 == c.0 {
        order::lemma_lt_transitive(a.1, b.1, c.1);
    }
}

/// The persons of a history, each once and in order, as the picker offers them.
pub fn harvest_identities(commits: &[CommitInfo]) -> (r: Vec<(String, String)>)
    ensures
        in_order(persons(r@)),
        forall|p: (Seq<char>, Seq<char>)| #[trigger]
            persons(r@).contains(p) <==> took_part(commits@, p),
{
    let mut out: Vec<(String, String)> = Vec::new();
    let mut i: usize = 0;
    assert(persons(out@).len() == 0);
    while i < commits.len()
        invariant
            i <= commits@.len(),
            in_order(persons(out@)),
            forall|p: (Seq<char>, Seq<char>)| #[trigger]
                persons(out@).contains(p) <==> took_part(commits@.take(i as int), p),
        decreases commits.len() - i,
    {
        let ghost g0 = persons(out@);
        let c = &commits[i];
        add_person(&mut out, &c.author_name, &c.author_email);
        let ghost g1 = persons(out@);
        add_person(&mut out, &c.committer_name, &c.committer_email);
        proof {
            let big = commits@.take(i + 1);
            let small = commits@.take(i as int);
            assert(big[i as int] == commits@[i as int]);
            assert forall|p: (Seq<char>, Seq<char>)| #[trigger]
                persons(out@).contains(p) <==> took_part(big, p) by {
                assert(g1.contains(p) <==> g0.contains(p) || p == (c.author_name@, c.author_email@));
                assert(g0.contains(p) <==> took_part(small, p));
                if took_part(big, p) {
                    let k = choose|k: int|
                        0 <= k < big.len() && ((#[trigger] big[k]).identity().author == p
                            || big[k].identity().committer == p);
                    if k < i {
                        assert(small[k] == big[k]);
                    }
                }
                if took_part(small, p) {
                    let k = choose|k: int|
                        0 <= k < small.len() && ((#[trigger] small[k]).identity().author == p
                            || small[k].identity().committer == p);
                    assert(big[k] == small[k]);
                }
            }
        }
        i += 1;
    }
    assert(commits@.take(i as int) =~= commits@);
    out
}

/// A commit's four fields show its author, the author's time, its committer and the
/// committer's time: a person as `Name <email>`, or the name alone where there is no
/// email.
pub proof fn law_fields_show_the_commit(commit: &CommitInfo, r: [String; 4])
    requires
        call_ensures(commit_field_values, (commit,), r),
    ensures
        commit.author_email@.len() > 0 ==> r[0]@ == commit.author_name@ + " <"@
            + commit.author_email@ + ">"@,
        commit.author_email@.len() == 0 ==> r[0]@ == commit.author_name@,
        r[1]@ == commit.author_time@,
        commit.committer_email@.len() > 0 ==> r[2]@ == commit.committer_name@ + " <"@
            + commit.committer_email@ + ">"@,
        commit.committer_email@.len() == 0 ==> r[2]@ == commit.committer_name@,
        r[3]@ == commit.committer_time@,
{
    reveal_strlit(">");
    let f = field_texts(r);
    assert(f[0] == r@[0]@ && f[1] == r@[1]@ && f[2] == r@[2]@ && f[3] == r@[3]@);
    assert(commit.author_email@.push('>') =~= commit.author_email@ + ">"@);
    assert(commit.committer_email@.push('>') =~= commit.committer_email@ + ">"@);
    assert(commit.author_name@ + " <"@ + commit.author_email@.push('>') =~= commit.author_name@
        + " <"@ + commit.author_email@ + ">"@);
    assert(commit.committer_name@ + " <"@ + commit.committer_email@.push('>')
        =~= commit.committer_name@ + " <"@ + commit.committer_email@ + ">"@);
}

/// The fields of a commit, read back, give its identity.
pub proof fn law_shown_fields_read_back(commit: &CommitInfo, fields: [String; 4], r: Identity)
    requires
        call_ensures(commit_field_values, (commit,), fields),
        call_ensures(read_identity, (&fields,), r),
        shows(commit.identity().author),
        shows(commit.identity().committer),
    ensures
        r.author_name@ == commit.author_name@,
        r.author_email@ == commit.author_email@,
        r.author_time@ == commit.author_time@,
        r.committer_name@ == commit.committer_name@,
        r.committer_email@ == commit.committer_email@,
        r.committer_time@ == commit.committer_time@,
{
    law_untouched_fields_keep_the_identity(commit.identity());
}

/// A field that several commits share is shown, and one in which some two differ is
/// left empty and marked.
pub proof fn law_a_shared_field_is_shown(
    commits: &[CommitInfo],
    i: usize,
    r: CommonField,
    a: int,
    b: int,
    x: [String; 4],
    y: [String; 4],
)
    requires
        commits@.len() > 0,
        i < 4,
        call_ensures(common_field, (commits, i), r),
        0 <= a < commits@.len(),
        0 <= b < commits@.len(),
        call_ensures(commit_field_values, (&commits@[a],), x),
        call_ensures(commit_field_values, (&commits@[b],), y),
    ensures
        x[i as int]@ != y[i as int]@ ==> r.differs && r.text@.len() == 0 && r.placeholder@
            == "(differs across commits)"@,
        !r.differs ==> r.text@ == x[i as int]@,
        commits@.len() == 1 ==> !r.differs,
{
    assert(field_texts(x)[i as int] == x@[i as int]@);
    assert(field_texts(y)[i as int] == y@[i as int]@);
    assert(agree(commits@, i as int) ==> identity_fields(commits@[a].identity())[i as int]
        == identity_fields(commits@[0].identity())[i as int] && identity_fields(
        commits@[b].identity(),
    )[i as int] == identity_fields(commits@[0].identity())[i as int]);
}

/// A field is written exactly where something was typed that is not what was given, and
/// with what was typed.
pub proof fn law_only_typed_fields_are_written(
    now: &[String; 4],
    given: &[String; 4],
    r: [Option<String>; 4],
    i: int,
)
    requires
        call_ensures(identity_overrides, (now, given), r),
        0 <= i < 4,
    ensures
        now[i]@ == given[i]@ ==> r[i] is None,
        (forall|k: int| 0 <= k < now[i]@.len() ==> (#[trigger] now[i]@[k]) == ' ') ==> r[i] is None,
        now[i]@ != given[i]@ && (exists|k: int|
            0 <= k < now[i]@.len() && !white::is_white(#[trigger] now[i]@[k])) ==> (r[i] matches
            Some(v) && v@ == now[i]@),
{
    assert(text::opt_text(r[i]) == field_override(now[i]@, given[i]@));
}

/// Everyone who wrote or made one of the commits is offered, by name and then by email,
/// and each person once.
pub proof fn law_people_are_offered_by_name(
    commits: &[CommitInfo],
    r: Vec<(String, String)>,
    c: int,
    i: int,
    j: int,
)
    requires
        call_ensures(harvest_identities, (commits,), r),
        0 <= c < commits@.len(),
    ensures
        exists|k: int|
            0 <= k < r@.len() && (#[trigger] r@[k]).0@ == commits@[c].author_name@ && r@[k].1@
                == commits@[c].author_email@,
        exists|k: int|
            0 <= k < r@.len() && (#[trigger] r@[k]).0@ == commits@[c].committer_name@ && r@[k].1@
                == commits@[c].committer_email@,
        0 <= i < j < r@.len() ==> {
            ||| order::text_lt(r@[i].0@, r@[j].0@)
            ||| r@[i].0@ == r@[j].0@ && order::text_lt(r@[i].1@, r@[j].1@)
        },
{
    let v = persons(r@);
    let id = commits@[c].identity();
    assert(took_part(commits@, id.author));
    assert(took_part(commits@, id.committer));
    assert(v.contains(id.author) && v.contains(id.committer));
    let a = choose|k: int| 0 <= k < v.len() && v[k] == id.author;
    assert(v[a] == (r@[a].0@, r@[a].1@));
    let b = choose|k: int| 0 <= k < v.len() && v[k] == id.committer;
    assert(v[b] == (r@[b].0@, r@[b].1@));
    if 0 <= i < j < r@.len() {
        assert(person_lt(v[i], v[j]));
    }
}

/// A day is read from a first word of at least three parts between dashes, and from
/// nothing less.
pub proof fn law_a_day_takes_three_parts(s: Seq<char>)
    ensures
        white::words(s).len() == 0 ==> date_parts(s) is None,
        white::words(s).len() > 0 && text::split_on(white::words(s)[0], '-').len() < 3
            ==> date_parts(s) is None,
{
}

} // verus!
