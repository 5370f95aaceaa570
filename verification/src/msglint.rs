//! Commit-message linting against the conventions that a repository's own history
//! follows: learning them, flagging a subject that drifts, and fixing what can be
//! fixed without guessing.
use crate::indices;
use crate::text;
use crate::unicode;
use crate::white;
use vstd::prelude::*;

verus! {

/// How many authored subjects it takes before any opinion is formed.
pub const MIN_SAMPLE: usize = 5;

/// The length below which a summary is never too long.
pub const LONG_ABS_FLOOR: usize = 72;

/// How often a prefix must recur in one casing to be canonical.
pub const MIN_PREFIX_OCCURRENCES: usize = 2;

/// What a lint flags.
#[derive(Debug, Clone, Copy, PartialEq, Eq, Structural)]
pub enum LintKind {
    /// Most subjects carry a `type:` prefix; this one has none.
    MissingPrefix,
    /// The prefix is written in another case than usual.
    PrefixCapitalization,
    /// The summary's first letter is in the other case than usual.
    Capitalization,
    /// The summary ends with a period.
    TrailingPeriod,
    /// The summary is much longer than most.
    TooLong,
}

impl LintKind {
    /// Whether the kind can be fixed without guessing.
    pub open spec fn fixable(self) -> bool {
        self == LintKind::PrefixCapitalization || self == LintKind::Capitalization || self
            == LintKind::TrailingPeriod
    }

    /// Whether [`autofix_subject`] can correct this kind.
    pub fn auto_fixable(self) -> (r: bool)
        ensures
            r == self.fixable(),
    {
        matches!(self, LintKind::PrefixCapitalization | LintKind::Capitalization | LintKind::TrailingPeriod)
    }
}

/// One finding: its kind and an explanation.
#[derive(Debug, Clone, PartialEq, Eq)]
pub struct Lint {
    pub kind: LintKind,
    pub message: String,
}

/// The contents of a finding.
#[verifier::ext_equal]
pub struct LintText {
    pub kind: LintKind,
    pub message: Seq<char>,
}

impl View for Lint {
    type V = LintText;

    open spec fn view(&self) -> LintText {
        LintText { kind: self.kind, message: self.message@ }
    }
}

/// The contents of findings.
pub open spec fn lint_texts(v: Seq<Lint>) -> Seq<LintText> {
    v.map_values(|l: Lint| l@)
}

impl Lint {
    /// A finding of the given kind.
    pub fn new(kind: LintKind, message: &str) -> (r: Self)
        ensures
            r@ == (LintText { kind, message: message@ }),
    {
        Lint { kind, message: message.to_string() }
    }

    /// Whether [`autofix_subject`] can correct the finding.
    pub fn auto_fixable(&self) -> (r: bool)
        ensures
            r == self.kind.fixable(),
    {
        self.kind.auto_fixable()
    }
}

/// The canonical casing of each prefix token, keyed by the token in lower case.
#[derive(Debug, Clone, PartialEq, Eq)]
pub struct PrefixCasings {
    pub entries: Vec<(String, String)>,
}

/// The value of the first entry whose key is `key`.
pub open spec fn lookup(entries: Seq<(String, String)>, key: Seq<char>) -> Option<Seq<char>>
    decreases entries.len(),
{
    if entries.len() == 0 {
        None
    } else {
        match lookup(entries.drop_last(), key) {
            Some(v) => Some(v),
            None => if entries.last().0@ == key {
                Some(entries.last().1@)
            } else {
                None
            },
        }
    }
}

impl PrefixCasings {
    /// The canonical casing of the token whose lower-case form is `key`.
    pub open spec fn casing(&self, key: Seq<char>) -> Option<Seq<char>> {
        lookup(self.entries@, key)
    }

    /// The canonical casing of the token whose lower-case form is `key`.
    pub fn get(&self, key: &str) -> (r: Option<&String>)
        ensures
            (match r {
                Some(v) => self.casing(key@) == Some(v@),
                None => self.casing(key@) is None,
            }),
    {
        let k = text::chars_of(key);
        self.get_chars(&k)
    }

    fn get_chars(&self, key: &Vec<char>) -> (r: Option<&String>)
        ensures
            (match r {
                Some(v) => self.casing(key@) == Some(v@),
                None => self.casing(key@) is None,
            }),
    {
        let mut i: usize = 0;
        while i < self.entries.len()
            invariant
                i <= self.entries@.len(),
                lookup(self.entries@.take(i as int), key@) is None,
            decreases self.entries.len() - i,
        {
            let ghost head = self.entries@.take(i + 1);
            assert(head.drop_last() =~= self.entries@.take(i as int));
            if text::same_chars(&text::chars_of(self.entries[i].0.as_str()), key) {
                proof {
                    lemma_lookup_prefix(self.entries@, i + 1, key@);
                }
                return Some(&self.entries[i].1);
            }
            i += 1;
        }
        assert(self.entries@.take(i as int) =~= self.entries@);
        None
    }

    /// Whether the token whose lower-case form is `key` has a canonical casing.
    pub fn contains_key(&self, key: &str) -> (r: bool)
        ensures
            r == (self.casing(key@) is Some),
    {
        self.get(key).is_some()
    }
}

proof fn lemma_lookup_prefix(entries: Seq<(String, String)>, n: int, key: Seq<char>)
    requires
        0 <= n <= entries.len(),
        lookup(entries.take(n), key) is Some,
    ensures
        lookup(entries, key) == lookup(entries.take(n), key),
    decreases entries.len() - n,
{
    if n < entries.len() {
        assert(entries.take(n + 1).drop_last() =~= entries.take(n));
        lemma_lookup_prefix(entries, n + 1, key);
    } else {
        assert(entries.take(n) =~= entries);
    }
}

/// The conventions that a repository follows; the default has no opinion.
#[derive(Debug, Clone, PartialEq, Eq)]
pub struct RepoStyle {
    /// Subjects carry a `type:` prefix.
    pub requires_prefix: bool,
    /// How each prefix token is written.
    pub prefix_casings: PrefixCasings,
    /// Whether summaries begin with a capital; `None` without a convention.
    pub capitalized: Option<bool>,
    /// Summaries do not end with a period.
    pub no_trailing_period: bool,
    /// The length from which on a summary is an outlier.
    pub long_cutoff: Option<usize>,
}

/// Whether the style has no opinion on anything.
pub open spec fn no_opinion(s: RepoStyle) -> bool {
    &&& !s.requires_prefix
    &&& s.prefix_casings.entries@.len() == 0
    &&& s.capitalized is None
    &&& !s.no_trailing_period
    &&& s.long_cutoff is None
}

impl Default for RepoStyle {
    fn default() -> (r: Self)
        ensures
            no_opinion(r),
    {
        RepoStyle {
            requires_prefix: false,
            prefix_casings: PrefixCasings { entries: Vec::new() },
            capitalized: None,
            no_trailing_period: false,
            long_cutoff: None,
        }
    }
}

/// Whether `s` is boilerplate that a tool wrote.
pub open spec fn autogen(s: Seq<char>) -> bool {
    let t = white::trim_start(s);
    ||| t == "Initial commit"@
    ||| "Merge "@.is_prefix_of(t)
    ||| "Revert "@.is_prefix_of(t)
    ||| "Reapply "@.is_prefix_of(t)
    ||| "fixup! "@.is_prefix_of(t)
    ||| "squash! "@.is_prefix_of(t)
    ||| "amend! "@.is_prefix_of(t)
}

/// Whether `s` says nothing about authored style: blank or boilerplate.
pub open spec fn exempt(s: Seq<char>) -> bool {
    white::trim(s).len() == 0 || autogen(s)
}

/// Whether `c` may stand in a prefix token.
pub open spec fn prefix_char(c: char) -> bool {
    unicode::alphanumeric(c) || c == '.' || c == '_' || c == '-' || c == '/' || c == '+'
}

/// Whether `t` is a prefix token: one word of prefix characters, with an optional
/// `(scope)` behind it.
pub open spec fn prefix_word(t: Seq<char>) -> bool {
    let core = text::split_on(t, '(')[0];
    &&& t.len() > 0
    &&& forall|i: int| 0 <= i < t.len() ==> !white::is_white(#[trigger] t[i])
    &&& core.len() > 0
    &&& forall|i: int| 0 <= i < core.len() ==> prefix_char(#[trigger] core[i])
}

/// The position of the first character of the description, where `s` has a
/// prefix: behind its colon and the space that follows, or at the end.
pub open spec fn after_prefix(s: Seq<char>) -> Option<int> {
    match text::find_char(s, ':') {
        None => None,
        Some(i) => if !prefix_word(s.take(i)) {
            None
        } else if i + 1 == s.len() {
            Some(i + 1)
        } else if s[i + 1] == ' ' {
            Some(i + 2)
        } else {
            None
        },
    }
}

/// The position of the first character of the description.
pub open spec fn description_at(s: Seq<char>) -> int {
    match after_prefix(s) {
        Some(i) => i,
        None => 0,
    }
}

/// The description of a subject.
pub open spec fn description(s: Seq<char>) -> Seq<char> {
    s.skip(description_at(s))
}

/// The position of the colon that ends the prefix.
pub open spec fn colon_at(s: Seq<char>) -> Option<int> {
    if after_prefix(s) is Some {
        text::find_char(s, ':')
    } else {
        None
    }
}

/// The prefix token of a subject.
pub open spec fn token(s: Seq<char>) -> Option<Seq<char>> {
    match colon_at(s) {
        Some(i) => Some(s.take(i)),
        None => None,
    }
}

/// Whether the first letter of `d` is a capital; `None` if it begins otherwise.
pub open spec fn first_case(d: Seq<char>) -> Option<bool> {
    let t = white::trim_start(d);
    if t.len() > 0 && unicode::alphabetic(t[0]) {
        Some(unicode::uppercase(t[0]))
    } else {
        None
    }
}

/// Whether `s` ends with a period that is not part of an ellipsis.
pub open spec fn lone_period(s: Seq<char>) -> bool {
    let t = white::trim_end(s);
    t.len() > 0 && t.last() == '.' && !(t.len() >= 2 && t[t.len() - 2] == '.')
}

/// Whether `s` ends with a period.
pub open spec fn ends_with_period(s: Seq<char>) -> bool {
    let t = white::trim_end(s);
    t.len() > 0 && t.last() == '.'
}

/// How many bytes the first `k` characters of `s` take.
pub open spec fn byte_offset(s: Seq<char>, k: int) -> usize {
    vstd::utf8::encode_utf8(s.subrange(0, k)).len() as usize
}

/// Whether `t` is a prefix token.
pub fn is_prefix_token(token: &str) -> (r: bool)
    ensures
        r == prefix_word(token@),
{
    is_prefix_chars(&text::chars_of(token))
}

fn is_prefix_chars(t: &Vec<char>) -> (r: bool)
    ensures
        r == prefix_word(t@),
{
    if t.len() == 0 {
        return false;
    }
    let mut i: usize = 0;
    while i < t.len()
        invariant
            i <= t@.len(),
            forall|j: int| 0 <= j < i ==> !white::is_white(#[trigger] t@[j]),
        decreases t.len() - i,
    {
        if white::is_white_char(t[i]) {
            assert(white::is_white(t@[i as int]));
            return false;
        }
        i += 1;
    }
    let parts = text::split_chars(t, '(');
    proof {
        text::lemma_split_nonempty(t@, '(');
        assert(text::deep(parts@).len() == parts@.len());
        assert(text::deep(parts@)[0] == parts@[0]@);
    }
    let core = &parts[0];
    if core.len() == 0 {
        return false;
    }
    let mut j: usize = 0;
    while j < core.len()
        invariant
            j <= core@.len(),
            core@ == text::split_on(t@, '(')[0],
            forall|m: int| 0 <= m < j ==> prefix_char(#[trigger] core@[m]),
        decreases core.len() - j,
    {
        let c = core[j];
        if !(unicode::is_alphanumeric(c) || c == '.' || c == '_' || c == '-' || c == '/' || c
            == '+') {
            assert(!prefix_char(core@[j as int]));
            return false;
        }
        j += 1;
    }
    true
}

/// The character position of the description behind a prefix.
fn after_prefix_chars(s: &Vec<char>) -> (r: Option<usize>)
    ensures
        (match r {
            Some(i) => after_prefix(s@) == Some(i as int) && 0 < i <= s@.len(),
            None => after_prefix(s@) is None,
        }),
{
    let n: usize = s.len();
    match text::index_of(s, ':') {
        None => None,
        Some(i) => {
            let t = text::slice_of(s, 0, i);
            assert(t@ =~= s@.take(i as int));
            if !is_prefix_chars(&t) {
                None
            } else if i + 1 == n {
                Some(i + 1)
            } else if s[i + 1] == ' ' {
                Some(i + 2)
            } else {
                None
            }
        },
    }
}

/// The byte offset of the description behind a `type:` prefix and its space.
pub fn prefix_desc_start(subject: &str) -> (r: Option<usize>)
    ensures
        (match r {
            Some(b) => after_prefix(subject@) is Some && b == byte_offset(
                subject@,
                after_prefix(subject@)->0,
            ),
            None => after_prefix(subject@) is None,
        }),
{
    match after_prefix_chars(&text::chars_of(subject)) {
        Some(i) => Some(subject.substring_char(0, i).len()),
        None => None,
    }
}

/// The byte offset of the description: 0 without a prefix.
pub fn description_start(subject: &str) -> (r: usize)
    ensures
        r == byte_offset(subject@, description_at(subject@)),
{
    let k = match after_prefix_chars(&text::chars_of(subject)) {
        Some(i) => i,
        None => 0,
    };
    subject.substring_char(0, k).len()
}

/// The description of a subject: what stands behind a prefix.
pub fn description_part(subject: &str) -> (r: &str)
    ensures
        r@ == description(subject@),
{
    let v = text::chars_of(subject);
    let k = match after_prefix_chars(&v) {
        Some(i) => i,
        None => 0,
    };
    let r = subject.substring_char(k, v.len());
    assert(r@ =~= description(subject@));
    r
}

/// The byte offset of the colon that ends a prefix.
pub fn prefix_colon(subject: &str) -> (r: Option<usize>)
    ensures
        (match r {
            Some(b) => colon_at(subject@) is Some && b == byte_offset(
                subject@,
                colon_at(subject@)->0,
            ),
            None => colon_at(subject@) is None,
        }),
{
    match colon_chars(&text::chars_of(subject)) {
        Some(i) => Some(subject.substring_char(0, i).len()),
        None => None,
    }
}

fn colon_chars(v: &Vec<char>) -> (r: Option<usize>)
    ensures
        (match r {
            Some(i) => colon_at(v@) == Some(i as int) && i < v@.len(),
            None => colon_at(v@) is None,
        }),
{
    match after_prefix_chars(v) {
        None => None,
        Some(_) => text::index_of(v, ':'),
    }
}

/// The prefix token of a subject.
pub fn prefix_token(subject: &str) -> (r: Option<&str>)
    ensures
        (match r {
            Some(t) => token(subject@) == Some(t@),
            None => token(subject@) is None,
        }),
{
    match colon_chars(&text::chars_of(subject)) {
        Some(i) => {
            let t = subject.substring_char(0, i);
            assert(t@ =~= subject@.take(i as int));
            Some(t)
        },
        None => None,
    }
}

/// Whether a subject has a prefix.
pub fn has_prefix(subject: &str) -> (r: bool)
    ensures
        r == (after_prefix(subject@) is Some),
{
    after_prefix_chars(&text::chars_of(subject)).is_some()
}

/// Whether the first letter of `desc` is a capital.
pub fn first_alpha_upper(desc: &str) -> (r: Option<bool>)
    ensures
        r == first_case(desc@),
{
    first_case_chars(&text::chars_of(desc))
}

fn first_case_chars(v: &Vec<char>) -> (r: Option<bool>)
    ensures
        r == first_case(v@),
{
    let t = white::trim_start_chars(v);
    if t.len() > 0 && unicode::is_alphabetic(t[0]) {
        Some(unicode::is_uppercase(t[0]))
    } else {
        None
    }
}

/// Whether a subject ends with a period that is not part of an ellipsis.
pub fn has_lone_trailing_period(subject: &str) -> (r: bool)
    ensures
        r == lone_period(subject@),
{
    lone_period_chars(&text::chars_of(subject))
}

fn lone_period_chars(v: &Vec<char>) -> (r: bool)
    ensures
        r == lone_period(v@),
{
    let t = white::trim_end_chars(v);
    let n: usize = t.len();
    n > 0 && t[n - 1] == '.' && !(n >= 2 && t[n - 2] == '.')
}

/// Whether a subject is boilerplate that a tool wrote.
pub fn is_autogen(subject: &str) -> (r: bool)
    ensures
        r == autogen(subject@),
{
    let t = white::trim_start_chars(&text::chars_of(subject));
    text::same_chars(&t, &text::chars_of("Initial commit")) || text::starts_with(&t, "Merge ")
        || text::starts_with(&t, "Revert ") || text::starts_with(&t, "Reapply ")
        || text::starts_with(&t, "fixup! ") || text::starts_with(&t, "squash! ")
        || text::starts_with(&t, "amend! ")
}

fn is_exempt(subject: &str) -> (r: bool)
    ensures
        r == exempt(subject@),
{
    white::trim_chars(&text::chars_of(subject)).len() == 0 || is_autogen(subject)
}

/// The case that three quarters of the voters agree on, given enough voters.
pub open spec fn agreed_case(upper: nat, total: nat) -> Option<bool> {
    if total < MIN_SAMPLE {
        None
    } else if 4 * upper >= 3 * total {
        Some(true)
    } else if 4 * (total - upper) >= 3 * total {
        Some(false)
    } else {
        None
    }
}

/// Whether `part` of `whole` is a majority: three quarters or more.
fn is_majority(part: usize, whole: usize) -> (r: bool)
    ensures
        r == (4 * part >= 3 * whole),
{
    (part as u128) * 4 >= (whole as u128) * 3
}

/// The case that a majority of `total` voters agree on, `upper` of them for upper
/// case.
pub fn majority_case(upper: usize, total: usize) -> (r: Option<bool>)
    ensures
        r == agreed_case(upper as nat, total as nat),
{
    if total < MIN_SAMPLE {
        None
    } else if is_majority(upper, total) {
        Some(true)
    } else if is_majority(total - upper, total) {
        Some(false)
    } else {
        None
    }
}

/// The views of borrowed texts.
pub open spec fn views(v: Seq<&str>) -> Seq<Seq<char>> {
    v.map_values(|s: &str| s@)
}

/// The authored subjects among `subjects`.
pub open spec fn samples(subjects: Seq<Seq<char>>) -> Seq<Seq<char>>
    decreases subjects.len(),
{
    if subjects.len() == 0 {
        Seq::<Seq<char>>::empty()
    } else {
        let init = samples(subjects.drop_last());
        if exempt(subjects.last()) {
            init
        } else {
            init.push(subjects.last())
        }
    }
}

/// How many of `s` have a prefix.
pub open spec fn prefixed(s: Seq<Seq<char>>) -> nat
    decreases s.len(),
{
    if s.len() == 0 {
        0
    } else {
        prefixed(s.drop_last()) + if after_prefix(s.last()) is Some {
            1nat
        } else {
            0nat
        }
    }
}

/// How many of `s` end without a period.
pub open spec fn unperioded(s: Seq<Seq<char>>) -> nat
    decreases s.len(),
{
    if s.len() == 0 {
        0
    } else {
        unperioded(s.drop_last()) + if ends_with_period(s.last()) {
            0nat
        } else {
            1nat
        }
    }
}

/// How many descriptions of `s` begin with a letter.
pub open spec fn lettered(s: Seq<Seq<char>>) -> nat
    decreases s.len(),
{
    if s.len() == 0 {
        0
    } else {
        lettered(s.drop_last()) + if first_case(description(s.last())) is Some {
            1nat
        } else {
            0nat
        }
    }
}

/// How many descriptions of `s` begin with a capital.
pub open spec fn capitals(s: Seq<Seq<char>>) -> nat
    decreases s.len(),
{
    if s.len() == 0 {
        0
    } else {
        capitals(s.drop_last()) + if first_case(description(s.last())) == Some(true) {
            1nat
        } else {
            0nat
        }
    }
}

/// How many of `s` have a prefix token that reads `key` in lower case.
pub open spec fn key_count(s: Seq<Seq<char>>, key: Seq<char>) -> nat
    decreases s.len(),
{
    if s.len() == 0 {
        0
    } else {
        key_count(s.drop_last(), key) + if token(s.last()) matches Some(t) && unicode::lower(t)
            == key {
            1nat
        } else {
            0nat
        }
    }
}

/// How many of `s` have exactly the prefix token `t`.
pub open spec fn token_count(s: Seq<Seq<char>>, t: Seq<char>) -> nat
    decreases s.len(),
{
    if s.len() == 0 {
        0
    } else {
        token_count(s.drop_last(), t) + if token(s.last()) == Some(t) {
            1nat
        } else {
            0nat
        }
    }
}

/// Whether `t` is how the subjects `s` write its token: often enough, and in three
/// quarters of the cases.
pub open spec fn canonical(s: Seq<Seq<char>>, t: Seq<char>) -> bool {
    &&& token_count(s, t) >= MIN_PREFIX_OCCURRENCES
    &&& 4 * token_count(s, t) >= 3 * key_count(s, unicode::lower(t))
}

/// How many of `s` are shorter than `n` characters.
pub open spec fn shorter(s: Seq<Seq<char>>, n: int) -> nat
    decreases s.len(),
{
    if s.len() == 0 {
        0
    } else {
        shorter(s.drop_last(), n) + if s.last().len() < n {
            1nat
        } else {
            0nat
        }
    }
}

/// Whether `n` is the length of rank `k` among `s`, counted from the shortest.
pub open spec fn length_of_rank(s: Seq<Seq<char>>, k: int, n: int) -> bool {
    shorter(s, n) <= k < shorter(s, n + 1)
}

/// The rank of the ninetieth percentile of `n` values.
pub open spec fn percentile_rank(n: int) -> int {
    if 9 * n / 10 <= n - 1 {
        9 * n / 10
    } else {
        n - 1
    }
}

/// One and a half times `n`, as far as it fits the machine.
pub open spec fn half_again(n: int) -> int {
    if 3 * n / 2 <= usize::MAX {
        3 * n / 2
    } else {
        usize::MAX as int
    }
}

/// Whether `style` is what the authored subjects `s` show.
pub open spec fn learned(style: RepoStyle, s: Seq<Seq<char>>) -> bool {
    if s.len() < MIN_SAMPLE {
        no_opinion(style)
    } else {
        &&& style.requires_prefix == (4 * prefixed(s) >= 3 * s.len())
        &&& style.capitalized == agreed_case(capitals(s), lettered(s))
        &&& style.no_trailing_period == (4 * unperioded(s) >= 3 * s.len())
        &&& forall|k: Seq<char>, t: Seq<char>|
            (#[trigger] style.prefix_casings.casing(k)) == Some(t) <==> k == #[trigger] unicode::lower(
                t,
            ) && canonical(s, t)
        &&& style.long_cutoff is Some
        &&& exists|p90: int| #[trigger]
            length_of_rank(s, percentile_rank(s.len() as int), p90) && style.long_cutoff->0
                == half_again(p90)
    }
}

proof fn lemma_counts_bounded(s: Seq<Seq<char>>)
    ensures
        prefixed(s) <= s.len(),
        unperioded(s) <= s.len(),
        capitals(s) <= lettered(s) <= s.len(),
    decreases s.len(),
{
    if s.len() > 0 {
        lemma_counts_bounded(s.drop_last());
    }
}

proof fn lemma_token_counted(s: Seq<Seq<char>>, t: Seq<char>)
    ensures
        token_count(s, t) <= key_count(s, unicode::lower(t)) <= s.len(),
    decreases s.len(),
{
    if s.len() > 0 {
        lemma_token_counted(s.drop_last(), t);
    }
}

proof fn lemma_two_casings(s: Seq<Seq<char>>, a: Seq<char>, b: Seq<char>)
    requires
        a != b,
        unicode::lower(a) == unicode::lower(b),
    ensures
        token_count(s, a) + token_count(s, b) <= key_count(s, unicode::lower(a)),
    decreases s.len(),
{
    if s.len() > 0 {
        lemma_two_casings(s.drop_last(), a, b);
    }
}

/// A token has at most one canonical casing.
pub proof fn law_canonical_is_unique(s: Seq<Seq<char>>, a: Seq<char>, b: Seq<char>)
    requires
        canonical(s, a),
        canonical(s, b),
        unicode::lower(a) == unicode::lower(b),
    ensures
        a == b,
{
    if a != b {
        lemma_two_casings(s, a, b);
    }
}

proof fn lemma_token_occurs(s: Seq<Seq<char>>, t: Seq<char>) -> (i: int)
    requires
        token_count(s, t) > 0,
    ensures
        0 <= i < s.len(),
        token(s[i]) == Some(t),
    decreases s.len(),
{
    if token(s.last()) == Some(t) {
        s.len() - 1
    } else {
        let i = lemma_token_occurs(s.drop_last(), t);
        i
    }
}

/// The authored subjects among `subjects`.
fn collect_samples(subjects: &[&str]) -> (r: Vec<Vec<char>>)
    ensures
        text::deep(r@) == samples(views(subjects@)),
        r@.len() == samples(views(subjects@)).len(),
{
    let mut out: Vec<Vec<char>> = Vec::new();
    let ghost gs = views(subjects@);
    let mut i: usize = 0;
    assert(text::deep(out@) =~= samples(gs.take(0)));
    while i < subjects.len()
        invariant
            i <= subjects@.len(),
            gs == views(subjects@),
            text::deep(out@) == samples(gs.take(i as int)),
        decreases subjects.len() - i,
    {
        assert(gs.take(i + 1).drop_last() =~= gs.take(i as int));
        assert(gs.take(i + 1).last() == subjects@[i as int]@);
        if !is_exempt(subjects[i]) {
            let v = text::chars_of(subjects[i]);
            let ghost od = out@;
            out.push(v);
            assert(text::deep(out@) =~= text::deep(od).push(v@));
        }
        i += 1;
    }
    assert(gs.take(i as int) =~= gs);
    assert(text::deep(out@).len() == out@.len());
    out
}

/// The votes of the samples: with a prefix, without a final period, beginning with
/// a letter, beginning with a capital.
fn count_votes(s: &Vec<Vec<char>>) -> (r: (usize, usize, usize, usize))
    ensures
        r.0 == prefixed(text::deep(s@)),
        r.1 == unperioded(text::deep(s@)),
        r.2 == lettered(text::deep(s@)),
        r.3 == capitals(text::deep(s@)),
{
    let ghost gs = text::deep(s@);
    let mut with_prefix: usize = 0;
    let mut without_period: usize = 0;
    let mut letters: usize = 0;
    let mut upper: usize = 0;
    let mut i: usize = 0;
    while i < s.len()
        invariant
            i <= s@.len(),
            gs == text::deep(s@),
            with_prefix <= i,
            without_period <= i,
            letters <= i,
            upper <= i,
            with_prefix == prefixed(gs.take(i as int)),
            without_period == unperioded(gs.take(i as int)),
            letters == lettered(gs.take(i as int)),
            upper == capitals(gs.take(i as int)),
        decreases s.len() - i,
    {
        let ghost head = gs.take(i + 1);
        assert(head.drop_last() =~= gs.take(i as int));
        assert(head.last() == s@[i as int]@);
        let subject = &s[i];
        let start = match after_prefix_chars(subject) {
            Some(k) => {
                with_prefix += 1;
                k
            },
            None => 0,
        };
        let d = text::slice_of(subject, start, subject.len());
        assert(d@ =~= description(head.last()));
        match first_case_chars(&d) {
            Some(is_upper) => {
                letters += 1;
                if is_upper {
                    upper += 1;
                }
            },
            None => {},
        }
        let t = white::trim_end_chars(subject);
        if !(t.len() > 0 && t[t.len() - 1] == '.') {
            without_period += 1;
        }
        i += 1;
    }
    assert(gs.take(i as int) =~= gs);
    (with_prefix, without_period, letters, upper)
}

/// The prefix token of each sample and its lower-case form; empty without one.
fn token_table(s: &Vec<Vec<char>>) -> (r: Vec<Option<(Vec<char>, Vec<char>)>>)
    ensures
        r@.len() == s@.len(),
        forall|i: int|
            0 <= i < r@.len() ==> (match #[trigger] r@[i] {
                Some(p) => token(s@[i]@) == Some(p.0@) && p.1@ == unicode::lower(p.0@),
                None => token(s@[i]@) is None,
            }),
{
    let mut out: Vec<Option<(Vec<char>, Vec<char>)>> = Vec::new();
    let mut i: usize = 0;
    while i < s.len()
        invariant
            i <= s@.len(),
            out@.len() == i,
            forall|j: int|
                0 <= j < i ==> (match #[trigger] out@[j] {
                    Some(p) => token(s@[j]@) == Some(p.0@) && p.1@ == unicode::lower(p.0@),
                    None => token(s@[j]@) is None,
                }),
        decreases s.len() - i,
    {
        match colon_chars(&s[i]) {
            Some(k) => {
                let t = text::slice_of(&s[i], 0, k);
                assert(t@ =~= s@[i as int]@.take(k as int));
                let l = unicode::lower_chars(&t);
                out.push(Some((t, l)));
            },
            None => {
                out.push(None);
            },
        }
        i += 1;
    }
    out
}

/// How many samples have the token `t`, and how many one that reads `key`.
fn count_tokens(
    s: &Vec<Vec<char>>,
    table: &Vec<Option<(Vec<char>, Vec<char>)>>,
    t: &Vec<char>,
    key: &Vec<char>,
) -> (r: (usize, usize))
    requires
        table@.len() == s@.len(),
        forall|i: int|
            0 <= i < table@.len() ==> (match #[trigger] table@[i] {
                Some(p) => token(s@[i]@) == Some(p.0@) && p.1@ == unicode::lower(p.0@),
                None => token(s@[i]@) is None,
            }),
    ensures
        r.0 == token_count(text::deep(s@), t@),
        r.1 == key_count(text::deep(s@), key@),
{
    let ghost gs = text::deep(s@);
    let mut same: usize = 0;
    let mut keyed: usize = 0;
    let mut i: usize = 0;
    while i < s.len()
        invariant
            i <= s@.len(),
            gs == text::deep(s@),
            table@.len() == s@.len(),
            forall|i: int|
                0 <= i < table@.len() ==> (match #[trigger] table@[i] {
                    Some(p) => token(s@[i]@) == Some(p.0@) && p.1@ == unicode::lower(p.0@),
                    None => token(s@[i]@) is None,
                }),
            same <= i,
            keyed <= i,
            same == token_count(gs.take(i as int), t@),
            keyed == key_count(gs.take(i as int), key@),
        decreases s.len() - i,
    {
        let ghost head = gs.take(i + 1);
        assert(head.drop_last() =~= gs.take(i as int));
        assert(head.last() == s@[i as int]@);
        match &table[i] {
            Some(p) => {
                if text::same_chars(&p.0, t) {
                    same += 1;
                }
                if text::same_chars(&p.1, key) {
                    keyed += 1;
                }
            },
            None => {},
        }
        i += 1;
    }
    assert(gs.take(i as int) =~= gs);
    (same, keyed)
}

/// The canonical casing of every token that has one.
fn learn_casings(s: &Vec<Vec<char>>) -> (r: PrefixCasings)
    ensures
        forall|k: Seq<char>, t: Seq<char>|
            (#[trigger] r.casing(k)) == Some(t) <==> k == #[trigger] unicode::lower(t)
                && canonical(text::deep(s@), t),
{
    let ghost gs = text::deep(s@);
    let table = token_table(s);
    let mut entries: Vec<(String, String)> = Vec::new();
    let mut i: usize = 0;
    while i < s.len()
        invariant
            i <= s@.len(),
            gs == text::deep(s@),
            table@.len() == s@.len(),
            forall|i: int|
                0 <= i < table@.len() ==> (match #[trigger] table@[i] {
                    Some(p) => token(s@[i]@) == Some(p.0@) && p.1@ == unicode::lower(p.0@),
                    None => token(s@[i]@) is None,
                }),
            forall|k: Seq<char>|
                (#[trigger] lookup(entries@, k)) matches Some(t) ==> k == unicode::lower(t)
                    && canonical(gs, t),
            forall|j: int|
                0 <= j < i ==> (token(#[trigger] s@[j]@) matches Some(t) ==> canonical(gs, t)
                    ==> lookup(entries@, unicode::lower(t)) == Some(t)),
        decreases s.len() - i,
    {
        let ghost before = entries@;
        match &table[i] {
            Some(p) => {
                let (same, keyed) = count_tokens(s, &table, &p.0, &p.1);
                if same >= MIN_PREFIX_OCCURRENCES && is_majority(same, keyed) {
                    let e = (text::string_of(&p.1), text::string_of(&p.0));
                    entries.push(e);
                    proof {
                        let k = unicode::lower(p.0@);
                        assert(canonical(gs, p.0@));
                        assert(entries@.drop_last() =~= before);
                        assert forall|k2: Seq<char>| #[trigger]
                            lookup(entries@, k2) is Some implies (lookup(entries@, k2) matches Some(
                            t,
                        ) ==> k2 == unicode::lower(t) && canonical(gs, t)) by {
                            if lookup(before, k2) is None {
                                assert(k2 == k && lookup(entries@, k2) == Some(p.0@));
                            }
                        }
                        if let Some(t) = lookup(before, k) {
                            assert(k == unicode::lower(t) && canonical(gs, t));
                            law_canonical_is_unique(gs, t, p.0@);
                        }
                        assert(lookup(entries@, k) == Some(p.0@));
                        assert forall|j: int| 0 <= j < i implies (token(
                            #[trigger] s@[j]@,
                        ) matches Some(t) ==> canonical(gs, t) ==> lookup(
                            entries@,
                            unicode::lower(t),
                        ) == Some(t)) by {
                            if let Some(t) = token(s@[j]@) {
                                if canonical(gs, t) {
                                    assert(lookup(before, unicode::lower(t)) == Some(t));
                                }
                            }
                        }
                    }
                } else {
                    assert(!canonical(gs, p.0@));
                }
            },
            None => {},
        }
        i += 1;
    }
    let r = PrefixCasings { entries };
    proof {
        assert forall|k: Seq<char>, t: Seq<char>|
            (#[trigger] r.casing(k)) == Some(t) <==> k == #[trigger] unicode::lower(t)
                && canonical(gs, t) by {
            if k == unicode::lower(t) && canonical(gs, t) {
                let j = lemma_token_occurs(gs, t);
                assert(gs[j] == s@[j]@);
                assert(token(s@[j]@) == Some(t));
            }
            if r.casing(k) == Some(t) {
                assert(lookup(entries@, k) == Some(t));
            }
        }
    }
    r
}

/// How many samples have at most `n` characters.
fn count_at_most(s: &Vec<Vec<char>>, n: usize) -> (r: usize)
    ensures
        r == shorter(text::deep(s@), n + 1),
        r <= s@.len(),
{
    let ghost gs = text::deep(s@);
    let mut c: usize = 0;
    let mut i: usize = 0;
    while i < s.len()
        invariant
            i <= s@.len(),
            gs == text::deep(s@),
            c <= i,
            c == shorter(gs.take(i as int), n + 1),
        decreases s.len() - i,
    {
        let ghost head = gs.take(i + 1);
        assert(head.drop_last() =~= gs.take(i as int));
        assert(head.last() == s@[i as int]@);
        if s[i].len() <= n {
            c += 1;
        }
        i += 1;
    }
    assert(gs.take(i as int) =~= gs);
    c
}

proof fn lemma_shorter_grows(s: Seq<Seq<char>>, a: int, b: int)
    requires
        a <= b,
    ensures
        shorter(s, a) <= shorter(s, b) <= s.len(),
    decreases s.len(),
{
    if s.len() > 0 {
        lemma_shorter_grows(s.drop_last(), a, b);
    }
}

/// If some of `s` are shorter than `n`, one of them is the longest of those.
proof fn lemma_longest_shorter(s: Seq<Seq<char>>, n: int) -> (i: int)
    requires
        shorter(s, n) > 0,
    ensures
        0 <= i < s.len(),
        s[i].len() < n,
        shorter(s, s[i].len() as int + 1) == shorter(s, n),
    decreases n,
{
    if n <= 0 {
        lemma_none_below_zero(s, n);
        0
    } else if exists|j: int| 0 <= j < s.len() && (#[trigger] s[j]).len() == n - 1 {
        choose|j: int| 0 <= j < s.len() && (#[trigger] s[j]).len() == n - 1
    } else {
        lemma_same_below(s, n);
        lemma_longest_shorter(s, n - 1)
    }
}

proof fn lemma_none_below_zero(s: Seq<Seq<char>>, n: int)
    requires
        n <= 0,
    ensures
        shorter(s, n) == 0,
    decreases s.len(),
{
    if s.len() > 0 {
        lemma_none_below_zero(s.drop_last(), n);
    }
}

proof fn lemma_same_below(s: Seq<Seq<char>>, n: int)
    requires
        forall|j: int| 0 <= j < s.len() ==> (#[trigger] s[j]).len() != n - 1,
    ensures
        shorter(s, n) == shorter(s, n - 1),
    decreases s.len(),
{
    if s.len() > 0 {
        assert(s[s.len() - 1].len() != n - 1);
        assert forall|j: int| 0 <= j < s.drop_last().len() implies (
        #[trigger] s.drop_last()[j]).len() != n - 1 by {
            assert(s.drop_last()[j] == s[j]);
        }
        lemma_same_below(s.drop_last(), n);
    }
}

proof fn lemma_all_at_most(s: Seq<Seq<char>>, n: int)
    requires
        forall|j: int| 0 <= j < s.len() ==> (#[trigger] s[j]).len() < n,
    ensures
        shorter(s, n) == s.len(),
    decreases s.len(),
{
    if s.len() > 0 {
        assert(s[s.len() - 1].len() < n);
        assert forall|j: int| 0 <= j < s.drop_last().len() implies (
        #[trigger] s.drop_last()[j]).len() < n by {
            assert(s.drop_last()[j] == s[j]);
        }
        lemma_all_at_most(s.drop_last(), n);
    }
}

/// The length of rank `k` among the samples.
fn length_at_rank(s: &Vec<Vec<char>>, k: usize) -> (r: usize)
    requires
        k < s@.len(),
    ensures
        length_of_rank(text::deep(s@), k as int, r as int),
{
    let ghost gs = text::deep(s@);
    let mut best: Option<usize> = None;
    let mut i: usize = 0;
    while i < s.len()
        invariant
            i <= s@.len(),
            k < s@.len(),
            gs == text::deep(s@),
            best matches Some(b) ==> k < shorter(gs, b + 1),
            forall|j: int|
                0 <= j < i && k < shorter(gs, (#[trigger] s@[j])@.len() as int + 1) ==> best is Some
                    && best->0 <= s@[j]@.len(),
        decreases s.len() - i,
    {
        let n: usize = s[i].len();
        assert(s@[i as int]@.len() == n);
        if count_at_most(s, n) > k {
            match best {
                Some(b) => {
                    if n < b {
                        best = Some(n);
                    }
                },
                None => {
                    best = Some(n);
                },
            }
        }
        i += 1;
    }
    proof {
        assert forall|j: int| 0 <= j < gs.len() implies (#[trigger] gs[j]).len() < usize::MAX + 1 by {
            assert(gs[j] == s@[j]@);
            assert(s@[j].len() <= usize::MAX);
        }
        lemma_all_at_most(gs, usize::MAX + 1);
        let top = lemma_longest_shorter(gs, usize::MAX + 1);
        assert(gs[top] == s@[top]@);
        assert(best is Some);
        let b = best->0;
        if shorter(gs, b as int) > k {
            let m = lemma_longest_shorter(gs, b as int);
            assert(gs[m] == s@[m]@);
            assert(s@[m]@.len() < b);
            assert(false);
        }
    }
    match best {
        Some(b) => b,
        None => 0,
    }
}

impl RepoStyle {
    /// Learns the conventions that a repository's subjects show. Boilerplate has no
    /// say, and too few subjects show nothing.
    pub fn learn(subjects: &[&str]) -> (r: RepoStyle)
        ensures
            learned(r, samples(views(subjects@))),
    {
        let s = collect_samples(subjects);
        let ghost gs = samples(views(subjects@));
        let n: usize = s.len();
        if n < MIN_SAMPLE {
            return RepoStyle::default();
        }
        let (with_prefix, without_period, letters, upper) = count_votes(&s);
        let prefix_casings = learn_casings(&s);
        let rank: usize = ninetieth(n);
        let p90 = length_at_rank(&s, rank);
        let cutoff: u128 = (p90 as u128) * 3 / 2;
        let long_cutoff: usize = if cutoff <= usize::MAX as u128 {
            cutoff as usize
        } else {
            usize::MAX
        };
        assert(long_cutoff == half_again(p90 as int));
        RepoStyle {
            requires_prefix: is_majority(with_prefix, n),
            prefix_casings,
            capitalized: majority_case(upper, letters),
            no_trailing_period: is_majority(without_period, n),
            long_cutoff: Some(long_cutoff),
        }
    }
}

/// The rank of the ninetieth percentile of `n` values.
fn ninetieth(n: usize) -> (r: usize)
    requires
        n > 0,
    ensures
        r == percentile_rank(n as int),
        r < n,
{
    let k: usize = ((n as u128) * 9 / 10) as usize;
    if k <= n - 1 {
        k
    } else {
        n - 1
    }
}

/// The explanation of a prefix in the wrong case.
pub open spec fn casing_message(canonical: Seq<char>, written: Seq<char>) -> Seq<char> {
    "Most commits here write this prefix “"@ + canonical + ":”, not “"@ + written + ":”."@
}

/// The canonical casing of the subject's prefix, where it is written otherwise.
pub open spec fn miscased(s: Seq<char>, style: RepoStyle) -> Option<Seq<char>> {
    match token(s) {
        Some(t) => match style.prefix_casings.casing(unicode::lower(t)) {
            Some(c) => if c != t {
                Some(c)
            } else {
                None
            },
            None => None,
        },
        None => None,
    }
}

/// One finding, where `flagged` holds.
pub open spec fn flag(flagged: bool, kind: LintKind, message: Seq<char>) -> Seq<LintText> {
    if flagged {
        seq![LintText { kind, message }]
    } else {
        Seq::<LintText>::empty()
    }
}

/// Whether the summary's first letter is in the other case than the style's.
pub open spec fn wrong_case(s: Seq<char>, style: RepoStyle) -> bool {
    match (style.capitalized, first_case(description(s))) {
        (Some(want), Some(is)) => want != is,
        _ => false,
    }
}

/// Whether the summary is an outlier in length.
pub open spec fn too_long(s: Seq<char>, style: RepoStyle) -> bool {
    style.long_cutoff matches Some(cutoff) && s.len() > cutoff && s.len() > LONG_ABS_FLOOR
}

/// Everything in which the subject `s` drifts from `style`, in a fixed order.
pub open spec fn drifts(s: Seq<char>, style: RepoStyle) -> Seq<LintText> {
    if exempt(s) {
        Seq::<LintText>::empty()
    } else {
        flag(
            style.requires_prefix && after_prefix(s) is None,
            LintKind::MissingPrefix,
            "Most commits here start the summary with a “type:” prefix — this one doesn't."@,
        ) + (match miscased(s, style) {
            Some(c) => seq![
                LintText {
                    kind: LintKind::PrefixCapitalization,
                    message: casing_message(c, token(s)->0),
                },
            ],
            None => Seq::<LintText>::empty(),
        }) + flag(
            wrong_case(s, style),
            LintKind::Capitalization,
            if style.capitalized == Some(true) {
                "Most commits here capitalize the summary — this one starts lowercase."@
            } else {
                "Most commits here start the summary lowercase — this one is capitalized."@
            },
        ) + flag(
            style.no_trailing_period && lone_period(s),
            LintKind::TrailingPeriod,
            "Most commits here don't end the summary with a period."@,
        ) + flag(
            too_long(s, style),
            LintKind::TooLong,
            "This summary runs much longer than most here — consider trimming it."@,
        )
    }
}

fn push_lint(lints: &mut Vec<Lint>, kind: LintKind, message: &str)
    ensures
        lint_texts(final(lints)@) == lint_texts(old(lints)@) + seq![
            LintText { kind, message: message@ },
        ],
{
    let l = Lint::new(kind, message);
    lints.push(l);
    assert(lint_texts(lints@) =~= lint_texts(old(lints)@) + seq![
        LintText { kind, message: message@ },
    ]);
}

/// The canonical casing of the prefix token `s[..colon]`, where it is written
/// otherwise.
fn find_miscased(s: &Vec<char>, style: &RepoStyle) -> (r: Option<(usize, Vec<char>)>)
    ensures
        (match r {
            Some(p) => colon_at(s@) == Some(p.0 as int) && p.0 < s@.len() && miscased(s@, *style)
                == Some(p.1@),
            None => miscased(s@, *style) is None,
        }),
{
    match colon_chars(s) {
        None => None,
        Some(i) => {
            let t = text::slice_of(s, 0, i);
            assert(t@ =~= s@.take(i as int));
            let key = unicode::lower_chars(&t);
            match style.prefix_casings.get_chars(&key) {
                None => None,
                Some(c) => {
                    let canonical = text::chars_of(c.as_str());
                    if text::same_chars(&canonical, &t) {
                        None
                    } else {
                        Some((i, canonical))
                    }
                },
            }
        },
    }
}

/// Flags every way in which `subject` drifts from `style`.
pub fn lint_subject(subject: &str, style: &RepoStyle) -> (r: Vec<Lint>)
    ensures
        lint_texts(r@) == drifts(subject@, *style),
{
    let mut lints: Vec<Lint> = Vec::new();
    assert(lint_texts(lints@) =~= Seq::<LintText>::empty());
    if is_exempt(subject) {
        return lints;
    }
    let s = text::chars_of(subject);
    if style.requires_prefix && !has_prefix(subject) {
        push_lint(
            &mut lints,
            LintKind::MissingPrefix,
            "Most commits here start the summary with a “type:” prefix — this one doesn't.",
        );
    }
    let ghost l1 = lint_texts(lints@);
    match find_miscased(&s, style) {
        Some((i, canonical)) => {
            let mut m = text::chars_of("Most commits here write this prefix “");
            text::push_all(&mut m, &canonical);
            text::push_text(&mut m, ":”, not “");
            let t = text::slice_of(&s, 0, i);
            assert(t@ =~= s@.take(i as int));
            text::push_all(&mut m, &t);
            text::push_text(&mut m, ":”.");
            let message = text::string_of(&m);
            push_lint(&mut lints, LintKind::PrefixCapitalization, message.as_str());
        },
        None => {
            assert(lint_texts(lints@) =~= l1 + Seq::<LintText>::empty());
        },
    }
    let ghost l2 = lint_texts(lints@);
    match (style.capitalized, first_alpha_upper(description_part(subject))) {
        (Some(want_upper), Some(is_upper)) => {
            if want_upper && !is_upper {
                push_lint(
                    &mut lints,
                    LintKind::Capitalization,
                    "Most commits here capitalize the summary — this one starts lowercase.",
                );
            } else if !want_upper && is_upper {
                push_lint(
                    &mut lints,
                    LintKind::Capitalization,
                    "Most commits here start the summary lowercase — this one is capitalized.",
                );
            } else {
                assert(lint_texts(lints@) =~= l2 + Seq::<LintText>::empty());
            }
        },
        _ => {
            assert(lint_texts(lints@) =~= l2 + Seq::<LintText>::empty());
        },
    }
    let ghost l3 = lint_texts(lints@);
    if style.no_trailing_period && has_lone_trailing_period(subject) {
        push_lint(
            &mut lints,
            LintKind::TrailingPeriod,
            "Most commits here don't end the summary with a period.",
        );
    } else {
        assert(lint_texts(lints@) =~= l3 + Seq::<LintText>::empty());
    }
    let ghost l4 = lint_texts(lints@);
    match style.long_cutoff {
        Some(cutoff) => {
            if s.len() > cutoff && s.len() > LONG_ABS_FLOOR {
                push_lint(
                    &mut lints,
                    LintKind::TooLong,
                    "This summary runs much longer than most here — consider trimming it.",
                );
            } else {
                assert(lint_texts(lints@) =~= l4 + Seq::<LintText>::empty());
            }
        },
        None => {
            assert(lint_texts(lints@) =~= l4 + Seq::<LintText>::empty());
        },
    }
    assert(lint_texts(lints@) =~= drifts(subject@, *style));
    lints
}

/// Whether the fix strips a final period from `s`.
pub open spec fn strips_period(s: Seq<char>, style: RepoStyle) -> bool {
    style.no_trailing_period && lone_period(s)
}

/// `s` without its final period, where that is stripped.
pub open spec fn without_period(s: Seq<char>, style: RepoStyle) -> Seq<char> {
    if strips_period(s, style) {
        white::trim_end(white::trim_end(s).drop_last())
    } else {
        s
    }
}

/// The position of the first character of the description that is not white.
pub open spec fn letter_at(s: Seq<char>) -> int {
    s.len() - white::trim_start(description(s)).len()
}

/// `s` with the case of the summary's first letter turned, where it is wrong.
pub open spec fn with_case(s: Seq<char>, style: RepoStyle) -> Seq<char> {
    let at = letter_at(s);
    if wrong_case(s, style) {
        s.take(at) + (if style.capitalized == Some(true) {
            unicode::char_upper(s[at])
        } else {
            unicode::char_lower(s[at])
        }) + s.skip(at + 1)
    } else {
        s
    }
}

/// `s` with its prefix in the canonical casing.
pub open spec fn with_casing(s: Seq<char>, style: RepoStyle) -> Seq<char> {
    match miscased(s, style) {
        Some(c) => c + s.skip(colon_at(s)->0),
        None => s,
    }
}

/// The subject with the period, the case and the prefix fixed, in that order;
/// `None` where there is nothing to fix.
pub open spec fn fixed(subject: Seq<char>, style: RepoStyle) -> Option<Seq<char>> {
    let s1 = without_period(subject, style);
    let s2 = with_case(s1, style);
    let s3 = with_casing(s2, style);
    if !exempt(subject) && (strips_period(subject, style) || wrong_case(s1, style) || miscased(
        s2,
        style,
    ) is Some) {
        Some(s3)
    } else {
        None
    }
}

/// What follows the white space in front of the summary is the end of the subject.
proof fn lemma_letter_at(s: Seq<char>)
    ensures
        0 <= description_at(s) <= letter_at(s) <= s.len(),
        white::trim_start(description(s)) == s.skip(letter_at(s)),
        letter_at(s) < s.len() ==> white::trim_start(description(s))[0] == s[letter_at(s)],
{
    text::lemma_find_char(s, ':');
    let d = description(s);
    white::lemma_trim_start_suffix(d);
    assert(d.skip(d.len() - white::trim_start(d).len()) =~= s.skip(letter_at(s)));
}

/// Fixes what can be fixed without guessing: a final period, the case of the
/// first letter and the casing of the prefix.
pub fn autofix_subject(subject: &str, style: &RepoStyle) -> (r: Option<String>)
    ensures
        text::opt_text(r) == fixed(subject@, *style),
{
    if is_exempt(subject) {
        return None;
    }
    let mut s = text::chars_of(subject);
    let mut changed = false;
    if style.no_trailing_period && lone_period_chars(&s) {
        let t = white::trim_end_chars(&s);
        let n: usize = t.len();
        let u = text::slice_of(&t, 0, n - 1);
        assert(u@ =~= t@.drop_last());
        s = white::trim_end_chars(&u);
        changed = true;
    }
    let ghost s1 = s@;
    assert(s1 == without_period(subject@, *style));
    match style.capitalized {
        Some(want_upper) => {
            let start: usize = match after_prefix_chars(&s) {
                Some(i) => i,
                None => 0,
            };
            let t = white::trim_start_chars(&text::slice_of(&s, start, s.len()));
            proof {
                assert(s1.subrange(start as int, s1.len() as int) =~= description(s1));
                lemma_letter_at(s1);
            }
            let at: usize = s.len() - t.len();
            if at < s.len() {
                let first = s[at];
                if unicode::is_alphabetic(first) && unicode::is_uppercase(first) != want_upper {
                    let flipped = if want_upper {
                        unicode::to_upper(first)
                    } else {
                        unicode::to_lower(first)
                    };
                    let mut out = text::slice_of(&s, 0, at);
                    text::push_all(&mut out, &flipped);
                    let rest = text::slice_of(&s, at + 1, s.len());
                    text::push_all(&mut out, &rest);
                    assert(out@ =~= s1.take(at as int) + flipped@ + s1.skip(at + 1));
                    s = out;
                    changed = true;
                }
            }
        },
        None => {},
    }
    let ghost s2 = s@;
    assert(s2 == with_case(s1, *style));
    match find_miscased(&s, style) {
        Some((colon, canonical)) => {
            let mut out = canonical;
            let rest = text::slice_of(&s, colon, s.len());
            text::push_all(&mut out, &rest);
            assert(out@ =~= with_casing(s2, *style));
            s = out;
            changed = true;
        },
        None => {},
    }
    if changed {
        Some(text::string_of(&s))
    } else {
        None
    }
}

/// `description` with its first line replaced.
pub open spec fn with_subject(description: Seq<char>, subject: Seq<char>) -> Seq<char> {
    match text::cut(description, '\n') {
        Some((_, rest)) => subject.push('\n') + rest,
        None => subject,
    }
}

/// Replaces the first line of a commit message and keeps its body.
pub fn replace_subject(description: &str, new_subject: &str) -> (r: String)
    ensures
        r@ == with_subject(description@, new_subject@),
{
    match text::cut_chars(&text::chars_of(description), '\n') {
        Some((_, rest)) => {
            let mut v = text::chars_of(new_subject);
            v.push('\n');
            text::push_all(&mut v, &rest);
            text::string_of(&v)
        },
        None => new_subject.to_string(),
    }
}

/// Replacing the subject keeps the body: the new message is cut into the new
/// subject and the old body, or is the new subject alone.
pub proof fn law_replace_keeps_body(description: Seq<char>, subject: Seq<char>)
    requires
        text::free_of(subject, '\n'),
    ensures
        (match text::cut(description, '\n') {
            Some((_, rest)) => text::cut(with_subject(description, subject), '\n') == Some(
                (subject, rest),
            ),
            None => text::cut(with_subject(description, subject), '\n') is None
                && with_subject(description, subject) == subject,
        }),
{
    if let Some((_, rest)) = text::cut(description, '\n') {
        text::lemma_cut_at(subject, '\n', rest);
    } else {
        text::lemma_find_char(subject, '\n');
        if let Some(i) = text::find_char(subject, '\n') {
            assert(subject.contains(subject[i]));
        }
    }
}

/// A style without opinions flags nothing and fixes nothing.
pub proof fn law_no_opinion_stays_quiet(subject: Seq<char>, style: RepoStyle)
    requires
        no_opinion(style),
    ensures
        drifts(subject, style).len() == 0,
        fixed(subject, style) is None,
{
    assert forall|k: Seq<char>| #[trigger] style.prefix_casings.casing(k) is None by {}
}

/// Blank subjects and boilerplate are neither flagged nor fixed, and have no part
/// in what is learned.
pub proof fn law_boilerplate_is_exempt(
    subjects: Seq<Seq<char>>,
    subject: Seq<char>,
    style: RepoStyle,
)
    requires
        exempt(subject),
    ensures
        drifts(subject, style).len() == 0,
        fixed(subject, style) is None,
        samples(subjects.push(subject)) == samples(subjects),
{
    assert(subjects.push(subject).drop_last() =~= subjects);
}

/// Whether a finding of kind `k` is among `v`.
pub open spec fn reports(v: Seq<LintText>, k: LintKind) -> bool {
    exists|i: int| 0 <= i < v.len() && (#[trigger] v[i]).kind == k
}

/// Whether one of the findings can be mended without a person's judgement.
pub open spec fn any_fixable(v: Seq<LintText>) -> bool {
    exists|i: int| 0 <= i < v.len() && (#[trigger] v[i]).kind.fixable()
}

proof fn lemma_fixable_sum(a: Seq<LintText>, b: Seq<LintText>)
    ensures
        any_fixable(a + b) <==> any_fixable(a) || any_fixable(b),
{
    let v = a + b;
    if any_fixable(v) {
        let i = choose|i: int| 0 <= i < v.len() && (#[trigger] v[i]).kind.fixable();
        if i < a.len() {
            assert(a[i] == v[i]);
        } else {
            assert(b[i - a.len()] == v[i]);
        }
    }
    if any_fixable(a) {
        let i = choose|i: int| 0 <= i < a.len() && (#[trigger] a[i]).kind.fixable();
        assert(v[i] == a[i]);
    }
    if any_fixable(b) {
        let i = choose|i: int| 0 <= i < b.len() && (#[trigger] b[i]).kind.fixable();
        assert(v[a.len() + i] == b[i]);
    }
}

proof fn lemma_fixable_flag(flagged: bool, kind: LintKind, message: Seq<char>)
    ensures
        any_fixable(flag(flagged, kind, message)) <==> flagged && kind.fixable(),
{
    if flagged && kind.fixable() {
        assert(flag(flagged, kind, message)[0].kind.fixable());
    }
}

/// What of a subject's drift can be fixed: its period, its case and its prefix.
proof fn lemma_fixable_drifts(s: Seq<char>, style: RepoStyle)
    ensures
        any_fixable(drifts(s, style)) <==> !exempt(s) && (miscased(s, style) is Some
            || wrong_case(s, style) || strips_period(s, style)),
{
    if !exempt(s) {
        let f1 = flag(
            style.requires_prefix && after_prefix(s) is None,
            LintKind::MissingPrefix,
            "Most commits here start the summary with a “type:” prefix — this one doesn't."@,
        );
        let m2 = casing_message(miscased(s, style)->0, token(s)->0);
        let f2 = flag(miscased(s, style) is Some, LintKind::PrefixCapitalization, m2);
        let m3 = if style.capitalized == Some(true) {
            "Most commits here capitalize the summary — this one starts lowercase."@
        } else {
            "Most commits here start the summary lowercase — this one is capitalized."@
        };
        let f3 = flag(wrong_case(s, style), LintKind::Capitalization, m3);
        let f4 = flag(
            style.no_trailing_period && lone_period(s),
            LintKind::TrailingPeriod,
            "Most commits here don't end the summary with a period."@,
        );
        let f5 = flag(
            too_long(s, style),
            LintKind::TooLong,
            "This summary runs much longer than most here — consider trimming it."@,
        );
        assert(drifts(s, style) =~= f1 + f2 + f3 + f4 + f5);
        lemma_fixable_flag(
            style.requires_prefix && after_prefix(s) is None,
            LintKind::MissingPrefix,
            "Most commits here start the summary with a “type:” prefix — this one doesn't."@,
        );
        lemma_fixable_flag(miscased(s, style) is Some, LintKind::PrefixCapitalization, m2);
        lemma_fixable_flag(wrong_case(s, style), LintKind::Capitalization, m3);
        lemma_fixable_flag(
            style.no_trailing_period && lone_period(s),
            LintKind::TrailingPeriod,
            "Most commits here don't end the summary with a period."@,
        );
        lemma_fixable_flag(
            too_long(s, style),
            LintKind::TooLong,
            "This summary runs much longer than most here — consider trimming it."@,
        );
        lemma_fixable_sum(f1, f2);
        lemma_fixable_sum(f1 + f2, f3);
        lemma_fixable_sum(f1 + f2 + f3, f4);
        lemma_fixable_sum(f1 + f2 + f3 + f4, f5);
    }
}

/// A subject gets a fix exactly when one of its findings is marked as fixable.
pub proof fn law_fixed_exactly_where_fixable(subject: Seq<char>, style: RepoStyle)
    ensures
        fixed(subject, style) is Some <==> any_fixable(drifts(subject, style)),
{
    lemma_fixable_drifts(subject, style);
}

/// Whether two characters are the same or both ASCII letters.
spec fn akin(a: char, b: char) -> bool {
    a == b || ((unicode::ascii_upper(a) || unicode::ascii_lower(a)) && (unicode::ascii_upper(b)
        || unicode::ascii_lower(b)))
}

/// Whether two texts differ at most in which ASCII letter stands where one stands.
spec fn alike(a: Seq<char>, b: Seq<char>) -> bool {
    a.len() == b.len() && forall|i: int|
        #![trigger a[i]]
        #![trigger b[i]]
        0 <= i < a.len() ==> akin(a[i], b[i])
}

proof fn lemma_alike_split(a: Seq<char>, b: Seq<char>)
    requires
        alike(a, b),
    ensures
        text::split_on(a, '(').len() == text::split_on(b, '(').len(),
        alike(text::split_on(a, '(')[0], text::split_on(b, '(')[0]),
    decreases a.len(),
{
    if a.len() > 0 {
        assert(akin(a[a.len() - 1], b[b.len() - 1]));
        lemma_alike_split(a.drop_last(), b.drop_last());
        text::lemma_split_nonempty(a.drop_last(), '(');
        text::lemma_split_nonempty(b.drop_last(), '(');
    }
}

proof fn lemma_alike_word(a: Seq<char>, b: Seq<char>)
    requires
        alike(a, b),
        prefix_word(a),
    ensures
        prefix_word(b),
{
    lemma_alike_split(a, b);
    let ca = text::split_on(a, '(')[0];
    let cb = text::split_on(b, '(')[0];
    assert forall|i: int| 0 <= i < b.len() implies !white::is_white(#[trigger] b[i]) by {
        assert(!white::is_white(a[i]));
    }
    assert forall|i: int| 0 <= i < cb.len() implies prefix_char(#[trigger] cb[i]) by {
        assert(prefix_char(ca[i]));
    }
}

proof fn lemma_alike_prefix(a: Seq<char>, b: Seq<char>)
    requires
        alike(a, b),
    ensures
        after_prefix(a) == after_prefix(b),
        text::find_char(a, ':') == text::find_char(b, ':'),
{
    text::lemma_find_char(a, ':');
    text::lemma_find_char(b, ':');
    if let Some(i) = text::find_char(a, ':') {
        assert(akin(a[i], b[i]));
        assert forall|j: int| 0 <= j < i implies b[j] != ':' by {
            assert(akin(a[j], b[j]));
        }
        text::lemma_found_at(b, ':', i);
        if prefix_word(a.take(i)) {
            lemma_alike_word(a.take(i), b.take(i));
        }
        if prefix_word(b.take(i)) {
            lemma_alike_word(b.take(i), a.take(i));
        }
        if i + 1 < a.len() {
            assert(akin(a[i + 1], b[i + 1]));
        }
    } else if let Some(i) = text::find_char(b, ':') {
        assert(akin(a[i], b[i]));
        assert(a.contains(a[i]));
    }
}

proof fn lemma_alike_trim_start(a: Seq<char>, b: Seq<char>)
    requires
        alike(a, b),
    ensures
        white::trim_start(a).len() == white::trim_start(b).len(),
    decreases a.len(),
{
    if a.len() > 0 {
        assert(akin(a[0], b[0]));
        if white::is_white(a[0]) {
            lemma_alike_trim_start(a.skip(1), b.skip(1));
        }
    }
}

proof fn lemma_alike_trim_end(a: Seq<char>, b: Seq<char>)
    requires
        alike(a, b),
    ensures
        white::trim_end(a).len() == white::trim_end(b).len(),
    decreases a.len(),
{
    if a.len() > 0 {
        assert(akin(a[a.len() - 1], b[b.len() - 1]));
        if white::is_white(a.last()) {
            lemma_alike_trim_end(a.drop_last(), b.drop_last());
        }
    }
}

proof fn lemma_alike_period(a: Seq<char>, b: Seq<char>)
    requires
        alike(a, b),
    ensures
        lone_period(a) == lone_period(b),
{
    lemma_alike_trim_end(a, b);
    white::lemma_trim_end_prefix(a);
    white::lemma_trim_end_prefix(b);
    let n = white::trim_end(a).len();
    if n > 0 {
        assert(akin(a[n - 1], b[n - 1]));
    }
    if n > 1 {
        assert(akin(a[n - 2], b[n - 2]));
    }
}

/// Turning an ASCII letter's case leaves it in the right one, and the period as it was.
proof fn lemma_case_turned(s: Seq<char>, style: RepoStyle)
    requires
        wrong_case(s, style) ==> unicode::is_ascii_char(s[letter_at(s)]),
    ensures
        !wrong_case(with_case(s, style), style),
        lone_period(with_case(s, style)) == lone_period(s),
{
    if wrong_case(s, style) {
        let t = with_case(s, style);
        let at = letter_at(s);
        lemma_letter_at(s);
        assert(alike(s, t));
        lemma_alike_prefix(s, t);
        lemma_alike_period(s, t);
        lemma_alike_trim_start(description(s), description(t));
        lemma_letter_at(t);
        assert(letter_at(t) == at);
    }
}

/// A canonical casing is a prefix token, with no colon in it.
proof fn lemma_canonical_word(s: Seq<Seq<char>>, c: Seq<char>)
    requires
        canonical(s, c),
    ensures
        prefix_word(c),
        text::free_of(c, ':'),
{
    let i = lemma_token_occurs(s, c);
    text::lemma_find_char(s[i], ':');
}

/// Writing the prefix in its canonical casing leaves it so, the description as it
/// was, and the period too.
proof fn lemma_prefix_recased(s: Seq<char>, style: RepoStyle, samples: Seq<Seq<char>>)
    requires
        learned(style, samples),
    ensures
        miscased(with_casing(s, style), style) is None,
        description(with_casing(s, style)) == description(s),
        lone_period(with_casing(s, style)) == lone_period(s),
{
    if let Some(c) = miscased(s, style) {
        let i = colon_at(s)->0;
        let t = with_casing(s, style);
        let rest = s.skip(i);
        text::lemma_find_char(s, ':');
        let key = unicode::lower(s.take(i));
        let own = unicode::lower(c);
        assert(style.prefix_casings.casing(key) == Some(c));
        assert(key == own);
        assert(canonical(samples, c));
        lemma_canonical_word(samples, c);
        assert forall|j: int| 0 <= j < c.len() implies t[j] != ':' by {
            assert(c.contains(c[j]));
        }
        text::lemma_found_at(t, ':', c.len() as int);
        assert(t.take(c.len() as int) =~= c);
        assert(token(t) == Some(c));
        assert(description(t) =~= description(s));
        assert(!white::all_white(rest)) by {
            assert(!white::is_white(rest[0]));
        }
        white::lemma_trim_empty(rest);
        white::lemma_trim_end_prefix(rest);
        white::lemma_trim_end_of_sum(c, rest);
        white::lemma_trim_end_of_sum(s.take(i), rest);
        assert(s.take(i) + rest =~= s);
    }
}

/// One pass of the fix is enough: nothing is left to fix in what it gives, nor is
/// anything found there that could be. Left out are a subject that still ends with
/// a period once one is stripped, and a letter to turn that is not ASCII, for which
/// the other case may be missing.
pub proof fn law_one_fix_is_enough(
    subjects: Seq<Seq<char>>,
    style: RepoStyle,
    subject: Seq<char>,
)
    requires
        learned(style, samples(subjects)),
        strips_period(subject, style) ==> !lone_period(without_period(subject, style)),
        ({
            let s = without_period(subject, style);
            wrong_case(s, style) ==> unicode::is_ascii_char(s[letter_at(s)])
        }),
        fixed(subject, style) is Some,
    ensures
        fixed(fixed(subject, style)->0, style) is None,
        !any_fixable(drifts(fixed(subject, style)->0, style)),
{
    let s1 = without_period(subject, style);
    let s2 = with_case(s1, style);
    let s3 = with_casing(s2, style);
    lemma_case_turned(s1, style);
    lemma_prefix_recased(s2, style, samples(subjects));
    assert(!strips_period(s3, style));
    assert(!wrong_case(s3, style));
    law_fixed_exactly_where_fixable(s3, style);
}

/// What was learned settles every answer: two styles learned from the same subjects
/// find the same and fix the same.
pub proof fn law_learning_settles_the_answers(
    subjects: Seq<Seq<char>>,
    a: RepoStyle,
    b: RepoStyle,
    subject: Seq<char>,
)
    requires
        learned(a, samples(subjects)),
        learned(b, samples(subjects)),
    ensures
        drifts(subject, a) == drifts(subject, b),
        fixed(subject, a) == fixed(subject, b),
{
    let s = samples(subjects);
    if s.len() < MIN_SAMPLE {
        law_no_opinion_stays_quiet(subject, a);
        law_no_opinion_stays_quiet(subject, b);
        assert(drifts(subject, a) =~= drifts(subject, b));
    } else {
        assert forall|k: Seq<char>| #[trigger]
            a.prefix_casings.casing(k) == b.prefix_casings.casing(k) by {
            if let Some(t) = a.prefix_casings.casing(k) {
                assert(k == unicode::lower(t));
                assert(b.prefix_casings.casing(k) == Some(t));
            }
            if let Some(t) = b.prefix_casings.casing(k) {
                assert(k == unicode::lower(t));
                assert(a.prefix_casings.casing(k) == Some(t));
            }
        }
        let k = percentile_rank(s.len() as int);
        let m = choose|p90: int| #[trigger]
            length_of_rank(s, k, p90) && a.long_cutoff->0 == half_again(p90);
        let n = choose|p90: int| #[trigger]
            length_of_rank(s, k, p90) && b.long_cutoff->0 == half_again(p90);
        if m < n {
            lemma_shorter_grows(s, m + 1, n);
        }
        if n < m {
            lemma_shorter_grows(s, n + 1, m);
        }
        assert(a.long_cutoff == b.long_cutoff);
        assert(miscased(subject, a) == miscased(subject, b));
    }
}

/// Too few authored subjects show no convention: whatever the style learned from
/// them is asked about, it has no objection.
pub proof fn law_small_sample_has_no_opinion(
    subjects: Seq<Seq<char>>,
    style: RepoStyle,
    subject: Seq<char>,
)
    requires
        learned(style, samples(subjects)),
        samples(subjects).len() < MIN_SAMPLE,
    ensures
        drifts(subject, style).len() == 0,
        fixed(subject, style) is None,
{
    law_no_opinion_stays_quiet(subject, style);
}

/// A prefix that the history itself writes canonically is never flagged.
pub proof fn law_canonical_prefix_is_not_flagged(
    subjects: Seq<Seq<char>>,
    style: RepoStyle,
    subject: Seq<char>,
)
    requires
        learned(style, samples(subjects)),
        token(subject) is Some,
        canonical(samples(subjects), token(subject)->0),
    ensures
        miscased(subject, style) is None,
        !reports(drifts(subject, style), LintKind::PrefixCapitalization),
{
    let s = samples(subjects);
    let t = token(subject)->0;
    if s.len() < MIN_SAMPLE {
        law_no_opinion_stays_quiet(subject, style);
    } else {
        assert(style.prefix_casings.casing(unicode::lower(t)) == Some(t));
    }
    assert(miscased(subject, style) is None);
}

proof fn lemma_first_piece(a: Seq<char>, b: Seq<char>, sep: char)
    ensures
        text::split_on(a.push(sep) + b, sep).len() >= 2,
        text::split_on(a.push(sep) + b, sep)[0] == text::split_on(a, sep)[0],
    decreases b.len(),
{
    let s = a.push(sep) + b;
    text::lemma_split_nonempty(a, sep);
    if b.len() == 0 {
        assert(s =~= a.push(sep));
        assert(s.drop_last() =~= a);
    } else {
        assert(s.drop_last() =~= a.push(sep) + b.drop_last());
        lemma_first_piece(a, b.drop_last(), sep);
    }
}

/// A subject `word(scope): description` has the prefix in front of its colon, and its
/// description behind the blank; so has `word: description`.
pub proof fn law_a_prefix_ends_at_its_colon(word: Seq<char>, scope: Seq<char>, d: Seq<char>)
    requires
        word.len() > 0,
        forall|i: int|
            0 <= i < word.len() ==> !white::is_white(#[trigger] word[i]) && (unicode::alphanumeric(
                word[i],
            ) || word[i] == '.' || word[i] == '_' || word[i] == '-' || word[i] == '/' || word[i]
                == '+'),
        scope.len() > 0 ==> scope[0] == '(',
        forall|i: int|
            0 <= i < scope.len() ==> !white::is_white(#[trigger] scope[i]) && scope[i] != ':',
    ensures
        token(word + scope + ": "@ + d) == Some(word + scope),
        description(word + scope + ": "@ + d) == d,
        token(word + scope + ":"@) == Some(word + scope),
        description(word + scope + ":"@).len() == 0,
{
    reveal_strlit(": ");
    reveal_strlit(":");
    let t = word + scope;
    let s = t + ": "@ + d;
    let n = t.len() as int;
    assert forall|i: int| 0 <= i < n implies t[i] != ':' && !white::is_white(t[i]) by {
        if i < word.len() {
            assert(t[i] == word[i]);
        } else {
            assert(t[i] == scope[i - word.len()]);
        }
    }
    assert(text::split_on(t, '(')[0] == word) by {
        assert(text::free_of(word, '(')) by {
            assert forall|i: int| 0 <= i < word.len() implies word[i] != '(' by {}
        }
        text::lemma_split_free(word, '(');
        if scope.len() == 0 {
            assert(t =~= word);
        } else {
            lemma_first_piece(word, scope.skip(1), '(');
            assert(t =~= word.push('(') + scope.skip(1));
        }
    }
    assert(prefix_word(t));
    assert forall|j: int| 0 <= j < n implies s[j] != ':' by {
        assert(s[j] == t[j]);
    }
    assert(s[n] == ':' && s[n + 1] == ' ');
    text::lemma_found_at(s, ':', n);
    assert(s.take(n) =~= t);
    assert(s.skip(n + 2) =~= d);
    let e = t + ":"@;
    assert forall|j: int| 0 <= j < n implies e[j] != ':' by {
        assert(e[j] == t[j]);
    }
    text::lemma_found_at(e, ':', n);
    assert(e.take(n) =~= t);
}

/// A subject without a colon has no prefix, and neither has one with white space in
/// front of its first colon, with nothing in front of it, or with anything but a blank
/// behind it.
pub proof fn law_other_colons_end_no_prefix(s: Seq<char>, i: int)
    ensures
        text::free_of(s, ':') ==> token(s) is None && description(s) == s,
        0 <= i < s.len() && s[i] == ':' && (forall|j: int| 0 <= j < i ==> s[j] != ':') && (i == 0
            || (i + 1 < s.len() && s[i + 1] != ' ') || exists|j: int|
            0 <= j < i && white::is_white(#[trigger] s[j])) ==> token(s) is None && description(s)
            == s,
{
    text::lemma_find_char(s, ':');
    assert(s.skip(0) =~= s);
    if text::free_of(s, ':') && text::find_char(s, ':') is Some {
        assert(s.contains(s[text::find_char(s, ':')->0]));
    }
    if 0 <= i < s.len() && s[i] == ':' && (forall|j: int| 0 <= j < i ==> s[j] != ':') {
        text::lemma_found_at(s, ':', i);
        let t = s.take(i);
        if exists|j: int| 0 <= j < i && white::is_white(#[trigger] s[j]) {
            let j = choose|j: int| 0 <= j < i && white::is_white(#[trigger] s[j]);
            assert(t[j] == s[j]);
        }
    }
}

/// Blank subjects, and those that tools write, are left out of everything.
pub proof fn law_written_by_tools(rest: Seq<char>, blank: Seq<char>)
    requires
        white::all_white(blank),
    ensures
        exempt("Merge "@ + rest),
        exempt("Revert "@ + rest),
        exempt("Reapply "@ + rest),
        exempt("fixup! "@ + rest),
        exempt("squash! "@ + rest),
        exempt("amend! "@ + rest),
        exempt("Initial commit"@),
        exempt(blank),
{
    reveal_strlit("Merge ");
    reveal_strlit("Revert ");
    reveal_strlit("Reapply ");
    reveal_strlit("fixup! ");
    reveal_strlit("squash! ");
    reveal_strlit("amend! ");
    reveal_strlit("Initial commit");
    assert(("Merge "@ + rest)[0] == 'M');
    assert(("Revert "@ + rest)[0] == 'R');
    assert(("Reapply "@ + rest)[0] == 'R');
    assert(("fixup! "@ + rest)[0] == 'f');
    assert(("squash! "@ + rest)[0] == 's');
    assert(("amend! "@ + rest)[0] == 'a');
    assert("Initial commit"@[0] == 'I');
    assert("Merge "@.is_prefix_of("Merge "@ + rest));
    assert("Revert "@.is_prefix_of("Revert "@ + rest));
    assert("Reapply "@.is_prefix_of("Reapply "@ + rest));
    assert("fixup! "@.is_prefix_of("fixup! "@ + rest));
    assert("squash! "@.is_prefix_of("squash! "@ + rest));
    assert("amend! "@.is_prefix_of("amend! "@ + rest));
    white::lemma_trim_empty(blank);
}

/// The subjects learned from are the others, in their order.
pub proof fn law_the_others_are_learned_from(subjects: Seq<Seq<char>>, at: Seq<int>, n: int)
    requires
        0 <= n <= subjects.len(),
        indices::lists(at, 0, n, |i: int| !exempt(subjects[i])),
    ensures
        samples(subjects.take(n)) == at.map_values(|i: int| subjects[i]),
    decreases n,
{
    let p = |i: int| !exempt(subjects[i]);
    let f = |i: int| subjects[i];
    indices::lemma_lists_step(at, 0, n, p);
    if n == 0 {
        assert(at.map_values(f) =~= Seq::<Seq<char>>::empty());
    } else {
        assert(subjects.take(n).drop_last() =~= subjects.take(n - 1));
        assert(subjects.take(n).last() == subjects[n - 1]);
        if p(n - 1) {
            law_the_others_are_learned_from(subjects, at.drop_last(), n - 1);
            assert(at.map_values(f) =~= at.drop_last().map_values(f).push(f(n - 1)));
        } else {
            law_the_others_are_learned_from(subjects, at, n - 1);
        }
    }
}

proof fn lemma_prefixed_listed(s: Seq<Seq<char>>, at: Seq<int>, n: int)
    requires
        0 <= n <= s.len(),
        indices::lists(at, 0, n, |i: int| token(s[i]) is Some),
    ensures
        prefixed(s.take(n)) == at.len(),
    decreases n,
{
    let p = |i: int| token(s[i]) is Some;
    indices::lemma_lists_step(at, 0, n, p);
    if n > 0 {
        assert(s.take(n).drop_last() =~= s.take(n - 1));
        assert(s.take(n).last() == s[n - 1]);
        if p(n - 1) {
            lemma_prefixed_listed(s, at.drop_last(), n - 1);
        } else {
            lemma_prefixed_listed(s, at, n - 1);
        }
    }
}

proof fn lemma_unperioded_listed(s: Seq<Seq<char>>, at: Seq<int>, n: int)
    requires
        0 <= n <= s.len(),
        indices::lists(
            at,
            0,
            n,
            |i: int| white::trim_end(s[i]).len() == 0 || white::trim_end(s[i]).last() != '.',
        ),
    ensures
        unperioded(s.take(n)) == at.len(),
    decreases n,
{
    let p = |i: int| white::trim_end(s[i]).len() == 0 || white::trim_end(s[i]).last() != '.';
    indices::lemma_lists_step(at, 0, n, p);
    if n > 0 {
        assert(s.take(n).drop_last() =~= s.take(n - 1));
        assert(s.take(n).last() == s[n - 1]);
        if p(n - 1) {
            lemma_unperioded_listed(s, at.drop_last(), n - 1);
        } else {
            lemma_unperioded_listed(s, at, n - 1);
        }
    }
}

proof fn lemma_lettered_listed(s: Seq<Seq<char>>, at: Seq<int>, n: int)
    requires
        0 <= n <= s.len(),
        indices::lists(at, 0, n, |i: int| first_case(description(s[i])) is Some),
    ensures
        lettered(s.take(n)) == at.len(),
    decreases n,
{
    let p = |i: int| first_case(description(s[i])) is Some;
    indices::lemma_lists_step(at, 0, n, p);
    if n > 0 {
        assert(s.take(n).drop_last() =~= s.take(n - 1));
        assert(s.take(n).last() == s[n - 1]);
        if p(n - 1) {
            lemma_lettered_listed(s, at.drop_last(), n - 1);
        } else {
            lemma_lettered_listed(s, at, n - 1);
        }
    }
}

proof fn lemma_capitals_listed(s: Seq<Seq<char>>, at: Seq<int>, n: int)
    requires
        0 <= n <= s.len(),
        indices::lists(at, 0, n, |i: int| first_case(description(s[i])) == Some(true)),
    ensures
        capitals(s.take(n)) == at.len(),
    decreases n,
{
    let p = |i: int| first_case(description(s[i])) == Some(true);
    indices::lemma_lists_step(at, 0, n, p);
    if n > 0 {
        assert(s.take(n).drop_last() =~= s.take(n - 1));
        assert(s.take(n).last() == s[n - 1]);
        if p(n - 1) {
            lemma_capitals_listed(s, at.drop_last(), n - 1);
        } else {
            lemma_capitals_listed(s, at, n - 1);
        }
    }
}

/// What three quarters of at least five subjects do is the style: a prefix in front, no
/// period at the end, and, among those that start with a letter, the case of it.
pub proof fn law_three_quarters_make_the_style(
    subjects: &[&str],
    style: RepoStyle,
    prefixes: Seq<int>,
    plain: Seq<int>,
    letters: Seq<int>,
    upper: Seq<int>,
)
    requires
        call_ensures(RepoStyle::learn, (subjects,), style),
        samples(views(subjects@)).len() >= 5,
        ({
            let s = samples(views(subjects@));
            let n = s.len() as int;
            &&& indices::lists(prefixes, 0, n, |i: int| token(s[i]) is Some)
            &&& indices::lists(
                plain,
                0,
                n,
                |i: int| white::trim_end(s[i]).len() == 0 || white::trim_end(s[i]).last() != '.',
            )
            &&& indices::lists(letters, 0, n, |i: int| first_case(description(s[i])) is Some)
            &&& indices::lists(upper, 0, n, |i: int| first_case(description(s[i])) == Some(true))
        }),
    ensures
        style.requires_prefix <==> 4 * prefixes.len() >= 3 * samples(views(subjects@)).len(),
        style.no_trailing_period <==> 4 * plain.len() >= 3 * samples(views(subjects@)).len(),
        style.capitalized == Some(true) <==> letters.len() >= 5 && 4 * upper.len() >= 3
            * letters.len(),
        style.capitalized == Some(false) <==> letters.len() >= 5 && 4 * (letters.len()
            - upper.len()) >= 3 * letters.len(),
{
    let s = samples(views(subjects@));
    let n = s.len() as int;
    assert(s.take(n) =~= s);
    lemma_prefixed_listed(s, prefixes, n);
    lemma_unperioded_listed(s, plain, n);
    lemma_lettered_listed(s, letters, n);
    lemma_capitals_listed(s, upper, n);
    lemma_counts_bounded(s);
}

proof fn lemma_token_listed(s: Seq<Seq<char>>, t: Seq<char>, at: Seq<int>, n: int)
    requires
        0 <= n <= s.len(),
        indices::lists(at, 0, n, |i: int| token(s[i]) == Some(t)),
    ensures
        token_count(s.take(n), t) == at.len(),
    decreases n,
{
    let p = |i: int| token(s[i]) == Some(t);
    indices::lemma_lists_step(at, 0, n, p);
    if n > 0 {
        assert(s.take(n).drop_last() =~= s.take(n - 1));
        assert(s.take(n).last() == s[n - 1]);
        if p(n - 1) {
            lemma_token_listed(s, t, at.drop_last(), n - 1);
        } else {
            lemma_token_listed(s, t, at, n - 1);
        }
    }
}

proof fn lemma_key_listed(s: Seq<Seq<char>>, key: Seq<char>, at: Seq<int>, n: int)
    requires
        0 <= n <= s.len(),
        indices::lists(
            at,
            0,
            n,
            |i: int| token(s[i]) is Some && unicode::lower(token(s[i])->0) == key,
        ),
    ensures
        key_count(s.take(n), key) == at.len(),
    decreases n,
{
    let p = |i: int| token(s[i]) is Some && unicode::lower(token(s[i])->0) == key;
    indices::lemma_lists_step(at, 0, n, p);
    if n > 0 {
        assert(s.take(n).drop_last() =~= s.take(n - 1));
        assert(s.take(n).last() == s[n - 1]);
        if p(n - 1) {
            lemma_key_listed(s, key, at.drop_last(), n - 1);
        } else {
            lemma_key_listed(s, key, at, n - 1);
        }
    }
}

/// A prefix is known by the way of writing it that at least two subjects and three
/// quarters of those with the prefix, in whatever case, share.
pub proof fn law_a_prefix_is_written_as_most_write_it(
    subjects: &[&str],
    style: RepoStyle,
    t: Seq<char>,
    same: Seq<int>,
    akin: Seq<int>,
)
    requires
        call_ensures(RepoStyle::learn, (subjects,), style),
        samples(views(subjects@)).len() >= 5,
        ({
            let s = samples(views(subjects@));
            let key = unicode::lower(t);
            let n = s.len() as int;
            &&& indices::lists(same, 0, n, |i: int| token(s[i]) == Some(t))
            &&& indices::lists(
                akin,
                0,
                n,
                |i: int| token(s[i]) is Some && unicode::lower(token(s[i])->0) == key,
            )
        }),
    ensures
        style.prefix_casings.casing(unicode::lower(t)) == Some(t) <==> same.len() >= 2 && 4
            * same.len() >= 3 * akin.len(),
{
    let s = samples(views(subjects@));
    let n = s.len() as int;
    assert(s.take(n) =~= s);
    lemma_token_listed(s, t, same, n);
    lemma_key_listed(s, unicode::lower(t), akin, n);
}

proof fn lemma_shorter_listed(s: Seq<Seq<char>>, l: int, at: Seq<int>, n: int)
    requires
        0 <= n <= s.len(),
        indices::lists(at, 0, n, |i: int| s[i].len() < l),
    ensures
        shorter(s.take(n), l) == at.len(),
    decreases n,
{
    let p = |i: int| s[i].len() < l;
    indices::lemma_lists_step(at, 0, n, p);
    if n > 0 {
        assert(s.take(n).drop_last() =~= s.take(n - 1));
        assert(s.take(n).last() == s[n - 1]);
        if p(n - 1) {
            lemma_shorter_listed(s, l, at.drop_last(), n - 1);
        } else {
            lemma_shorter_listed(s, l, at, n - 1);
        }
    }
}

/// What counts as long is one and a half times a length that at most nine tenths of the
/// subjects stay under and more than nine tenths do not exceed. `under` lists the
/// former, `within` the latter.
pub proof fn law_long_is_half_again_the_usual(subjects: &[&str], style: RepoStyle) -> (r: (
    int,
    Seq<int>,
    Seq<int>,
))
    requires
        call_ensures(RepoStyle::learn, (subjects,), style),
        samples(views(subjects@)).len() >= 5,
    ensures
        ({
            let s = samples(views(subjects@));
            let n = s.len() as int;
            let (l, under, within) = r;
            let most = l + 1;
            &&& indices::lists(under, 0, n, |i: int| s[i].len() < l)
            &&& indices::lists(within, 0, n, |i: int| s[i].len() < most)
            &&& 10 * under.len() <= 9 * n
            &&& 10 * within.len() > 9 * n
            &&& 3 * l / 2 <= usize::MAX ==> style.long_cutoff == Some((3 * l / 2) as usize)
            &&& 3 * l / 2 > usize::MAX ==> style.long_cutoff == Some(usize::MAX)
        }),
{
    let s = samples(views(subjects@));
    let n = s.len() as int;
    let l = choose|l: int| #[trigger]
        length_of_rank(s, percentile_rank(n), l) && style.long_cutoff->0 == half_again(l);
    let most = l + 1;
    let under = indices::lemma_listing(0, n, |i: int| s[i].len() < l);
    let within = indices::lemma_listing(0, n, |i: int| s[i].len() < most);
    assert(s.take(n) =~= s);
    lemma_shorter_listed(s, l, under, n);
    lemma_shorter_listed(s, most, within, n);
    (l, under, within)
}

proof fn lemma_reports_sum(a: Seq<LintText>, b: Seq<LintText>, k: LintKind)
    ensures
        reports(a + b, k) <==> reports(a, k) || reports(b, k),
{
    let s = a + b;
    if reports(a, k) {
        let i = choose|i: int| 0 <= i < a.len() && (#[trigger] a[i]).kind == k;
        assert(s[i] == a[i]);
    }
    if reports(b, k) {
        let i = choose|i: int| 0 <= i < b.len() && (#[trigger] b[i]).kind == k;
        assert(s[a.len() + i] == b[i]);
    }
    if reports(s, k) {
        let i = choose|i: int| 0 <= i < s.len() && (#[trigger] s[i]).kind == k;
        if i < a.len() {
            assert(a[i].kind == k);
        } else {
            assert(b[i - a.len()].kind == k);
        }
    }
}

proof fn lemma_reports_flag(flagged: bool, kind: LintKind, message: Seq<char>, k: LintKind)
    ensures
        reports(flag(flagged, kind, message), k) <==> flagged && kind == k,
{
    if flagged && kind == k {
        assert(flag(flagged, kind, message)[0].kind == k);
    }
}

/// Each finding is reported exactly where it holds of the subject: no prefix where one
/// is usual, a prefix not written as usual, a first letter of the other case, a lone
/// period at the end where none is usual, and a length past both the usual and
/// seventy-two.
pub proof fn law_findings_hold_of_the_subject(subject: &str, style: &RepoStyle, r: Vec<Lint>)
    requires
        call_ensures(lint_subject, (subject, style), r),
        !exempt(subject@),
    ensures
        reports(lint_texts(r@), LintKind::MissingPrefix) <==> style.requires_prefix && token(
            subject@,
        ) is None,
        reports(lint_texts(r@), LintKind::PrefixCapitalization) <==> (token(subject@) matches Some(
            t,
        ) && style.prefix_casings.casing(unicode::lower(t)) is Some
            && style.prefix_casings.casing(unicode::lower(t)) != Some(t)),
        reports(lint_texts(r@), LintKind::Capitalization) <==> style.capitalized is Some
            && first_case(description(subject@)) is Some && style.capitalized != first_case(
            description(subject@),
        ),
        reports(lint_texts(r@), LintKind::TrailingPeriod) <==> style.no_trailing_period
            && lone_period(subject@),
        reports(lint_texts(r@), LintKind::TooLong) <==> subject@.len() > 72 && (style.long_cutoff
            matches Some(c) && subject@.len() > c),
{
    let s = subject@;
    lemma_findings(s, *style, LintKind::MissingPrefix);
    lemma_findings(s, *style, LintKind::PrefixCapitalization);
    lemma_findings(s, *style, LintKind::Capitalization);
    lemma_findings(s, *style, LintKind::TrailingPeriod);
    lemma_findings(s, *style, LintKind::TooLong);
    text::lemma_find_char(s, ':');
}

proof fn lemma_findings(s: Seq<char>, style: RepoStyle, k: LintKind)
    requires
        !exempt(s),
    ensures
        reports(drifts(s, style), k) <==> match k {
            LintKind::MissingPrefix => style.requires_prefix && after_prefix(s) is None,
            LintKind::PrefixCapitalization => miscased(s, style) is Some,
            LintKind::Capitalization => wrong_case(s, style),
            LintKind::TrailingPeriod => style.no_trailing_period && lone_period(s),
            LintKind::TooLong => too_long(s, style),
        },
{
    let a = flag(
        style.requires_prefix && after_prefix(s) is None,
        LintKind::MissingPrefix,
        "Most commits here start the summary with a “type:” prefix — this one doesn't."@,
    );
    let b = match miscased(s, style) {
        Some(c) => seq![
            LintText {
                kind: LintKind::PrefixCapitalization,
                message: casing_message(c, token(s)->0),
            },
        ],
        None => Seq::<LintText>::empty(),
    };
    let m = if style.capitalized == Some(true) {
        "Most commits here capitalize the summary — this one starts lowercase."@
    } else {
        "Most commits here start the summary lowercase — this one is capitalized."@
    };
    let c = flag(wrong_case(s, style), LintKind::Capitalization, m);
    let d = flag(
        style.no_trailing_period && lone_period(s),
        LintKind::TrailingPeriod,
        "Most commits here don't end the summary with a period."@,
    );
    let e = flag(
        too_long(s, style),
        LintKind::TooLong,
        "This summary runs much longer than most here — consider trimming it."@,
    );
    assert(drifts(s, style) == a + b + c + d + e);
    lemma_reports_sum(a, b, k);
    lemma_reports_sum(a + b, c, k);
    lemma_reports_sum(a + b + c, d, k);
    lemma_reports_sum(a + b + c + d, e, k);
    lemma_reports_flag(
        style.requires_prefix && after_prefix(s) is None,
        LintKind::MissingPrefix,
        "Most commits here start the summary with a “type:” prefix — this one doesn't."@,
        k,
    );
    if miscased(s, style) is Some && k == LintKind::PrefixCapitalization {
        assert(b[0].kind == k);
    }
    lemma_reports_flag(wrong_case(s, style), LintKind::Capitalization, m, k);
    lemma_reports_flag(
        style.no_trailing_period && lone_period(s),
        LintKind::TrailingPeriod,
        "Most commits here don't end the summary with a period."@,
        k,
    );
    lemma_reports_flag(
        too_long(s, style),
        LintKind::TooLong,
        "This summary runs much longer than most here — consider trimming it."@,
        k,
    );
}

/// Where only the final period is unusual, the fix takes it off, with the white space
/// around it, and nothing else; a run of periods stays.
pub proof fn law_the_fix_takes_the_period_off(
    body: Seq<char>,
    blanks: Seq<char>,
    style: RepoStyle,
)
    requires
        body.len() > 0,
        !white::is_white(body.last()),
        white::all_white(blanks),
        style.no_trailing_period,
        style.capitalized is None,
        style.prefix_casings.entries@.len() == 0,
        !exempt(body.push('.') + blanks),
    ensures
        body.last() != '.' ==> fixed(body.push('.') + blanks, style) == Some(body),
        body.last() == '.' ==> fixed(body.push('.') + blanks, style) is None,
{
    let t = body.push('.');
    let s = t + blanks;
    white::lemma_trim_end_takes_blanks(t, blanks);
    assert(white::trim_end(t) == t);
    assert(white::trim_end(s) == t);
    assert(t.drop_last() =~= body);
    assert(white::trim_end(body) == body);
    assert(t[t.len() - 2] == body.last());
}

/// Where only the case of the first letter is unusual, the fix turns that letter and
/// nothing else.
pub proof fn law_the_fix_turns_one_letter(s: Seq<char>, style: RepoStyle, up: bool)
    requires
        !exempt(s),
        description(s).len() > 0,
        up ==> unicode::ascii_lower(description(s)[0]),
        !up ==> unicode::ascii_upper(description(s)[0]),
        style.capitalized == Some(up),
        !style.no_trailing_period,
        style.prefix_casings.entries@.len() == 0,
    ensures
        ({
            let at = s.len() - description(s).len();
            fixed(s, style) == Some(
                s.update(
                    at,
                    if up {
                        unicode::ascii_to_upper(s[at])
                    } else {
                        unicode::ascii_to_lower(s[at])
                    },
                ),
            )
        }),
{
    text::lemma_find_char(s, ':');
    let d = description(s);
    let at = s.len() - d.len();
    assert(white::trim_start(d) == d);
    assert(at == description_at(s));
    assert(s[at] == d[0]);
    assert(wrong_case(s, style));
    let c = if up {
        unicode::ascii_to_upper(s[at])
    } else {
        unicode::ascii_to_lower(s[at])
    };
    assert(with_case(s, style) =~= s.update(at, c));
}

/// Where only the prefix is written unusually, the fix writes it as usual and keeps all
/// from the colon on.
pub proof fn law_the_fix_rewrites_the_prefix(
    s: Seq<char>,
    style: RepoStyle,
    t: Seq<char>,
    usual: Seq<char>,
)
    requires
        !exempt(s),
        token(s) == Some(t),
        style.prefix_casings.casing(unicode::lower(t)) == Some(usual),
        usual != t,
        style.capitalized is None,
        !style.no_trailing_period,
    ensures
        fixed(s, style) == Some(usual + s.skip(t.len() as int)),
{
    text::lemma_find_char(s, ':');
}

/// The finding on a prefix names the usual way of writing it, and then the subject's.
pub proof fn law_the_finding_names_both_ways(
    subject: &str,
    style: &RepoStyle,
    r: Vec<Lint>,
    t: Seq<char>,
    usual: Seq<char>,
    i: int,
)
    requires
        call_ensures(lint_subject, (subject, style), r),
        !exempt(subject@),
        token(subject@) == Some(t),
        style.prefix_casings.casing(unicode::lower(t)) == Some(usual),
        0 <= i < r@.len(),
        r@[i].kind == LintKind::PrefixCapitalization,
    ensures
        r@[i].message@ == "Most commits here write this prefix “"@ + usual + ":”, not “"@ + t
            + ":”."@,
{
    assert(lint_texts(r@)[i] == r@[i]@);
    let s = subject@;
    let a = flag(
        style.requires_prefix && after_prefix(s) is None,
        LintKind::MissingPrefix,
        "Most commits here start the summary with a “type:” prefix — this one doesn't."@,
    );
    let b = match miscased(s, *style) {
        Some(c) => seq![
            LintText {
                kind: LintKind::PrefixCapitalization,
                message: casing_message(c, token(s)->0),
            },
        ],
        None => Seq::<LintText>::empty(),
    };
    let m = if style.capitalized == Some(true) {
        "Most commits here capitalize the summary — this one starts lowercase."@
    } else {
        "Most commits here start the summary lowercase — this one is capitalized."@
    };
    let c = flag(wrong_case(s, *style), LintKind::Capitalization, m);
    let d = flag(
        style.no_trailing_period && lone_period(s),
        LintKind::TrailingPeriod,
        "Most commits here don't end the summary with a period."@,
    );
    let e = flag(
        too_long(s, *style),
        LintKind::TooLong,
        "This summary runs much longer than most here — consider trimming it."@,
    );
    let all = drifts(s, *style);
    assert(all == a + b + c + d + e);
    let (x, y, z, w) = (
        a.len() as int,
        (a + b).len() as int,
        (a + b + c).len() as int,
        (a + b + c + d).len() as int,
    );
    if i < x {
        assert(all[i] == a[i]);
    } else if i < y {
        assert(all[i] == b[i - x]);
    } else if i < z {
        assert(all[i] == c[i - y]);
    } else if i < w {
        assert(all[i] == d[i - z]);
    } else {
        assert(all[i] == e[i - w]);
    }
}

} // verus!
