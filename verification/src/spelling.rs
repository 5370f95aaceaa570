//! The preferences of the spell checker: whether it runs, and for which language.
use crate::text;
use crate::white;
use vstd::prelude::*;

verus! {

/// The language used where neither the locale nor the checker offers one.
pub const FALLBACK_LANGUAGE: &'static str = "en_US";

/// The preferences as they are kept between sessions.
#[derive(Clone, Debug, PartialEq, Eq)]
pub struct SpellSettings {
    pub enabled: bool,
    pub language: String,
}

/// What follows `key` in a line of the settings, without the white space around it;
/// `None` where the line begins otherwise.
pub open spec fn value_of(line: Seq<char>, key: Seq<char>) -> Option<Seq<char>> {
    let l = white::trim(line);
    if key.is_prefix_of(l) {
        Some(white::trim(l.skip(key.len() as int)))
    } else {
        None
    }
}

/// The state that the last `enabled=` line gives: on for `true`, off for all else.
pub open spec fn enabled_in(lines: Seq<Seq<char>>) -> Option<bool>
    decreases lines.len(),
{
    if lines.len() == 0 {
        None
    } else {
        match value_of(lines.last(), "enabled="@) {
            Some(v) => Some(v == "true"@),
            None => enabled_in(lines.drop_last()),
        }
    }
}

/// The language that the last `language=` line with a value gives.
pub open spec fn language_in(lines: Seq<Seq<char>>) -> Option<Seq<char>>
    decreases lines.len(),
{
    if lines.len() == 0 {
        None
    } else {
        match value_of(lines.last(), "language="@) {
            Some(v) => if v.len() > 0 {
                Some(v)
            } else {
                language_in(lines.drop_last())
            },
            None => language_in(lines.drop_last()),
        }
    }
}

/// The preferences that a settings text holds, if it holds both.
pub open spec fn settings_in(s: Seq<char>) -> Option<(bool, Seq<char>)> {
    match (enabled_in(text::ended_lines(s)), language_in(text::ended_lines(s))) {
        (Some(e), Some(l)) => Some((e, l)),
        _ => None,
    }
}

/// The word for a state.
pub open spec fn state_word(enabled: bool) -> Seq<char> {
    if enabled {
        "true"@
    } else {
        "false"@
    }
}

/// The settings text of the preferences.
pub open spec fn settings_text(enabled: bool, language: Seq<char>) -> Seq<char> {
    "enabled="@ + state_word(enabled) + "\nlanguage="@ + language + "\n"@
}

fn value_in(line: &Vec<char>, key: &str) -> (r: Option<Vec<char>>)
    ensures
        match r {
            Some(v) => value_of(line@, key@) == Some(v@),
            None => value_of(line@, key@) is None,
        },
{
    let l = white::trim_chars(line);
    if text::starts_with(&l, key) {
        let k: usize = text::chars_of(key).len();
        let n: usize = l.len();
        let rest = text::slice_of(&l, k, n);
        assert(rest@ =~= l@.skip(k as int));
        Some(white::trim_chars(&rest))
    } else {
        None
    }
}

impl SpellSettings {
    /// Reads the preferences; `None` where one of the two is missing.
    pub fn from_text(text: &str) -> (r: Option<Self>)
        ensures
            match r {
                Some(s) => settings_in(text@) == Some((s.enabled, s.language@)),
                None => settings_in(text@) is None,
            },
    {
        let lines = text::ended_lines_of(text);
        let ghost gl = text::deep(lines@);
        let mut enabled: Option<bool> = None;
        let mut language: Option<String> = None;
        let mut i: usize = 0;
        while i < lines.len()
            invariant
                i <= lines@.len(),
                gl == text::deep(lines@),
                enabled == enabled_in(gl.take(i as int)),
                text::opt_text(language) == language_in(gl.take(i as int)),
            decreases lines.len() - i,
        {
            assert(gl[i as int] == lines@[i as int]@);
            assert(gl.take(i + 1).drop_last() =~= gl.take(i as int));
            assert(gl.take(i + 1).last() == gl[i as int]);
            proof {
                lemma_keys_differ(gl[i as int]);
            }
            if let Some(v) = value_in(&lines[i], "enabled=") {
                let on = text::chars_of("true");
                enabled = Some(text::same_chars(&v, &on));
            } else if let Some(v) = value_in(&lines[i], "language=") {
                if v.len() > 0 {
                    language = Some(text::string_of(&v));
                }
            }
            i += 1;
        }
        assert(gl.take(i as int) =~= gl);
        match (enabled, language) {
            (Some(enabled), Some(language)) => Some(SpellSettings { enabled, language }),
            _ => None,
        }
    }

    /// The text that the preferences are kept in.
    pub fn to_text(&self) -> (r: String)
        ensures
            r@ == settings_text(self.enabled, self.language@),
    {
        let mut out = text::chars_of("enabled=");
        if self.enabled {
            text::push_text(&mut out, "true");
        } else {
            text::push_text(&mut out, "false");
        }
        text::push_text(&mut out, "\nlanguage=");
        text::push_text(&mut out, self.language.as_str());
        text::push_text(&mut out, "\n");
        text::string_of(&out)
    }
}

/// No line sets both preferences.
proof fn lemma_keys_differ(line: Seq<char>)
    ensures
        value_of(line, "enabled="@) is Some ==> value_of(line, "language="@) is None,
{
    reveal_strlit("enabled=");
    reveal_strlit("language=");
    let l = white::trim(line);
    if "enabled="@.is_prefix_of(l) && "language="@.is_prefix_of(l) {
        assert("enabled="@[0] == l[0]);
        assert("language="@[0] == l[0]);
    }
}

/// Preferences that were kept are read back, for every language tag that is not
/// blank, has no line break in it and no white space at its ends.
pub proof fn law_settings_round_trip(enabled: bool, language: Seq<char>)
    requires
        language.len() > 0,
        white::trimmed(language),
        text::free_of(language, '\n'),
    ensures
        settings_in(settings_text(enabled, language)) == Some((enabled, language)),
{
    reveal_strlit("enabled=");
    reveal_strlit("language=");
    reveal_strlit("true");
    reveal_strlit("false");
    reveal_strlit("\nlanguage=");
    reveal_strlit("\n");
    let a = "enabled="@ + state_word(enabled);
    let b = "language="@ + language;
    let ls = seq![a, b];
    let s = settings_text(enabled, language);
    let all = ls.push(Seq::<char>::empty());
    reveal_with_fuel(text::join_with, 4);
    assert(all.drop_last() =~= ls);
    assert(ls.drop_last() =~= seq![a]);
    assert(s =~= text::join_with(all, '\n'));
    assert(text::free_of(a, '\n')) by {
        if a.contains('\n') {
            let i = choose|i: int| 0 <= i < a.len() && a[i] == '\n';
            assert(a[i] != '\n');
        }
    }
    assert(text::free_of(b, '\n')) by {
        if b.contains('\n') {
            let i = choose|i: int| 0 <= i < b.len() && b[i] == '\n';
            if i >= 9 {
                assert(b[i] == language[i - 9]);
                assert(language.contains(language[i - 9]));
            }
        }
    }
    assert(white::is_white('\r'));
    assert(b.last() == language.last());
    assert(a.last() == 'e');
    assert forall|i: int| 0 <= i < ls.len() implies text::free_of(#[trigger] ls[i], '\n')
        && text::strip_cr(ls[i]) == ls[i] by {
        if i == 0 {
            assert(ls[i] == a);
        } else {
            assert(ls[i] == b);
        }
    }
    text::lemma_ended_lines_join(ls);
    white::lemma_trim_trimmed(a);
    white::lemma_trim_trimmed(b);
    white::lemma_trim_trimmed(language);
    white::lemma_trim_trimmed(state_word(enabled));
    assert("enabled="@.is_prefix_of(a));
    assert("language="@.is_prefix_of(b));
    assert(a.skip(8) =~= state_word(enabled));
    assert(b.skip(9) =~= language);
    assert("true"@ != "false"@) by {
        assert("true"@[0] != "false"@[0]);
    }
    assert(value_of(a, "enabled="@) == Some(state_word(enabled)));
    assert(value_of(b, "language="@) == Some(language));
    lemma_keys_differ(b);
    assert(ls.last() == b);
    assert(seq![a].last() == a);
    assert(enabled_in(seq![a]) == Some(enabled));
    assert(enabled_in(ls) == Some(enabled));
    assert(language_in(ls) == Some(language));
}

/// Whether a locale name can be a language: not blank and not one of the names of
/// the bare locale.
pub open spec fn is_language(name: Seq<char>) -> bool {
    name.len() > 0 && name != "C"@ && name != "POSIX"@
}

/// The first locale name that is a language with a dictionary.
pub open spec fn first_supported(names: Seq<Seq<char>>, supported: Seq<bool>, from: int) -> Option<
    Seq<char>,
>
    decreases names.len() - from,
{
    if from < 0 || from >= names.len() {
        None
    } else if is_language(names[from]) && supported[from] {
        Some(names[from])
    } else {
        first_supported(names, supported, from + 1)
    }
}

/// The language to check in: the first of the locale's names, which go from the
/// most to the least specific, that has a dictionary; else the checker's own
/// default; else the fallback.
pub fn choose_language(
    names: &[String],
    supported: &[bool],
    default_code: Option<String>,
) -> (r: String)
    requires
        supported@.len() == names@.len(),
    ensures
        r@ == match first_supported(text::texts(names@), supported@, 0) {
            Some(n) => n,
            None => match text::opt_text(default_code) {
                Some(d) => d,
                None => FALLBACK_LANGUAGE@,
            },
        },
{
    let ghost gn = text::texts(names@);
    let mut i: usize = 0;
    while i < names.len()
        invariant
            i <= names@.len(),
            supported@.len() == names@.len(),
            gn == text::texts(names@),
            first_supported(gn, supported@, 0) == first_supported(gn, supported@, i as int),
        decreases names.len() - i,
    {
        assert(gn[i as int] == names@[i as int]@);
        let name = names[i].as_str();
        let blank = text::chars_of(name).len() == 0;
        if !blank && !text::same_text(name, "C") && !text::same_text(name, "POSIX")
            && supported[i] {
            return names[i].clone();
        }
        i += 1;
    }
    match default_code {
        Some(d) => d,
        None => FALLBACK_LANGUAGE.to_string(),
    }
}

/// The language to keep: the checker's own, or where it has none the derived one.
pub fn language_to_keep(current: Option<String>, derived: String) -> (r: String)
    ensures
        r@ == match text::opt_text(current) {
            Some(c) => if c.len() > 0 {
                c
            } else {
                derived@
            },
            None => derived@,
        },
{
    match current {
        Some(c) => if text::chars_of(c.as_str()).len() > 0 {
            c
        } else {
            derived
        },
        None => derived,
    }
}

/// The language that is spelled is the first of the user's that is one and is
/// supported, and where there is none the default; `k` is its place.
pub proof fn law_the_first_supported_language_is_chosen(
    names: &[String],
    supported: &[bool],
    default_code: Option<String>,
    r: String,
    k: int,
)
    requires
        supported@.len() == names@.len(),
        call_ensures(choose_language, (names, supported, default_code), r),
        0 <= k <= names@.len(),
        forall|i: int|
            0 <= i < k ==> !(#[trigger] supported@[i] && names@[i]@.len() > 0 && names@[i]@
                != "C"@ && names@[i]@ != "POSIX"@),
        k < names@.len() ==> supported@[k] && names@[k]@.len() > 0 && names@[k]@ != "C"@
            && names@[k]@ != "POSIX"@,
    ensures
        k < names@.len() ==> r@ == names@[k]@,
        k == names@.len() ==> (default_code matches Some(d) ==> r@ == d@),
        k == names@.len() && default_code is None ==> r@ == FALLBACK_LANGUAGE@,
{
    lemma_first_supported(text::texts(names@), supported@, 0, k);
}

proof fn lemma_first_supported(names: Seq<Seq<char>>, supported: Seq<bool>, i: int, k: int)
    requires
        0 <= i <= k <= names.len(),
        forall|j: int|
            i <= j < k ==> !(#[trigger] supported[j] && names[j].len() > 0 && names[j] != "C"@
                && names[j] != "POSIX"@),
        k < names.len() ==> supported[k] && names[k].len() > 0 && names[k] != "C"@ && names[k]
            != "POSIX"@,
    ensures
        first_supported(names, supported, i) == if k < names.len() {
            Some(names[k])
        } else {
            None
        },
    decreases k - i,
{
    if i < k {
        assert(!(supported[i] && names[i].len() > 0 && names[i] != "C"@ && names[i] != "POSIX"@));
        lemma_first_supported(names, supported, i + 1, k);
    }
}

/// What a later line says of a setting counts, and one that says nothing of it, or
/// leaves the language blank, changes nothing.
pub proof fn law_the_last_line_counts(lines: Seq<Seq<char>>, line: Seq<char>, value: Seq<char>)
    requires
        white::trimmed(value),
    ensures
        line == "enabled="@ + value ==> enabled_in(lines.push(line)) == Some(value == "true"@)
            && language_in(lines.push(line)) == language_in(lines),
        line == "language="@ + value ==> enabled_in(lines.push(line)) == enabled_in(lines)
            && language_in(lines.push(line)) == if value.len() > 0 {
            Some(value)
        } else {
            language_in(lines)
        },
{
    reveal_strlit("enabled=");
    reveal_strlit("language=");
    let all = lines.push(line);
    assert(all.drop_last() =~= lines);
    if line == "enabled="@ + value {
        lemma_value_reads_back(line, "enabled="@, value);
        assert(white::trim(line)[0] == 'e');
        if "language="@.is_prefix_of(white::trim(line)) {
            assert(white::trim(line).subrange(0, 9)[0] == 'l');
        }
    }
    if line == "language="@ + value {
        lemma_value_reads_back(line, "language="@, value);
        assert(white::trim(line)[0] == 'l');
        if "enabled="@.is_prefix_of(white::trim(line)) {
            assert(white::trim(line).subrange(0, 8)[0] == 'e');
        }
    }
}

proof fn lemma_value_reads_back(line: Seq<char>, key: Seq<char>, value: Seq<char>)
    requires
        line == key + value,
        white::trimmed(value),
        key.len() > 0,
        !white::is_white(key[0]),
        !white::is_white(key.last()),
    ensures
        white::trim(line) == line,
        value_of(line, key) == Some(value),
{
    if value.len() > 0 {
        assert(line.last() == value.last());
    } else {
        assert(line.last() == key.last());
    }
    assert(line[0] == key[0]);
    white::lemma_trim_trimmed(line);
    assert(key =~= line.subrange(0, key.len() as int));
    assert(line.skip(key.len() as int) =~= value);
    white::lemma_trim_trimmed(value);
}

/// A language that is set is kept, and only an unset one is derived.
pub proof fn law_a_set_language_is_kept(current: Option<String>, derived: String, r: String)
    requires
        call_ensures(language_to_keep, (current, derived), r),
    ensures
        current is Some && current->0@.len() > 0 ==> r@ == current->0@,
        !(current is Some && current->0@.len() > 0) ==> r@ == derived@,
{
}

} // verus!
