//! The window geometry that is remembered between sessions, and its
//! `key=value` text form.
use crate::numbers;
use crate::text;
use crate::white;
use vstd::prelude::*;

verus! {

/// Persisted window geometry.
#[derive(Clone, Copy, Debug, PartialEq, Eq, Structural)]
pub struct WindowState {
    /// Window width while not maximized.
    pub width: i32,
    /// Window height while not maximized.
    pub height: i32,
    /// Whether the window was maximized on close.
    pub maximized: bool,
    /// Horizontal divider position: the width of the commit list.
    pub list_width: i32,
    /// Vertical divider position: the height of the message pane.
    pub message_height: i32,
}

/// The geometry of a first start.
pub open spec fn default_state() -> WindowState {
    WindowState {
        width: 1400,
        height: 900,
        maximized: false,
        list_width: 480,
        message_height: 200,
    }
}

impl Default for WindowState {
    fn default() -> (r: Self)
        ensures
            r == default_state(),
    {
        WindowState {
            width: 1400,
            height: 900,
            maximized: false,
            list_width: 480,
            message_height: 200,
        }
    }
}

/// The size that `value` names, if it is a positive number; else `old_value`.
pub open spec fn positive_or(old_value: i32, value: Seq<char>) -> i32 {
    match numbers::parse_integer(value, i32::MIN as int, i32::MAX as int) {
        Some(v) => if v > 0 {
            v as i32
        } else {
            old_value
        },
        None => old_value,
    }
}

/// What `value` says, if it is `true` or `false`; else `old_value`.
pub open spec fn flag_or(old_value: bool, value: Seq<char>) -> bool {
    if value == "true"@ {
        true
    } else if value == "false"@ {
        false
    } else {
        old_value
    }
}

/// The geometry after one more line of the file. A line overrides its field only
/// where it can be read.
pub open spec fn read_line(s: WindowState, l: Seq<char>) -> WindowState {
    match text::cut(l, '=') {
        None => s,
        Some((k, v)) => {
            let key = white::trim(k);
            let value = white::trim(v);
            if key == "width"@ {
                WindowState { width: positive_or(s.width, value), ..s }
            } else if key == "height"@ {
                WindowState { height: positive_or(s.height, value), ..s }
            } else if key == "maximized"@ {
                WindowState { maximized: flag_or(s.maximized, value), ..s }
            } else if key == "list_width"@ {
                WindowState { list_width: positive_or(s.list_width, value), ..s }
            } else if key == "message_height"@ {
                WindowState { message_height: positive_or(s.message_height, value), ..s }
            } else {
                s
            }
        },
    }
}

/// The geometry that the first `n` lines describe.
pub open spec fn read_lines(ls: Seq<Seq<char>>, n: int) -> WindowState
    decreases n,
{
    if n <= 0 {
        default_state()
    } else {
        read_line(read_lines(ls, n - 1), ls[n - 1])
    }
}

/// The geometry that the text of the file describes.
pub open spec fn state_of(s: Seq<char>) -> WindowState {
    let ls = text::ended_lines(s);
    read_lines(ls, ls.len() as int)
}

/// `n` in decimal, with a sign where it is negative.
pub open spec fn signed_decimal(n: int) -> Seq<char> {
    if n < 0 {
        "-"@ + numbers::decimal((-n) as nat)
    } else {
        numbers::decimal(n as nat)
    }
}

/// The lines of the file, in order.
pub open spec fn state_lines(s: WindowState) -> Seq<Seq<char>> {
    seq![
        "width="@ + signed_decimal(s.width as int),
        "height="@ + signed_decimal(s.height as int),
        "maximized="@ + if s.maximized {
            "true"@
        } else {
            "false"@
        },
        "list_width="@ + signed_decimal(s.list_width as int),
        "message_height="@ + signed_decimal(s.message_height as int),
        Seq::<char>::empty(),
    ]
}

/// The text of the file.
pub open spec fn state_text(s: WindowState) -> Seq<char> {
    text::join_with(state_lines(s), '\n')
}

/// Replaces `slot` by the number in `value` where that is positive.
pub fn set_positive(slot: &mut i32, value: &str)
    ensures
        *final(slot) == positive_or(*old(slot), value@),
{
    match numbers::parse_i32(&text::chars_of(value)) {
        Some(v) => {
            if v > 0 {
                *slot = v;
            }
        },
        None => {},
    }
}

fn write_signed(n: i32) -> (r: Vec<char>)
    ensures
        r@ == signed_decimal(n as int),
{
    if n < 0 {
        let mut v = text::chars_of("-");
        let m: u64 = (-(n as i64)) as u64;
        text::push_all(&mut v, &numbers::write_decimal(m));
        v
    } else {
        numbers::write_decimal(n as u64)
    }
}

fn key_value(key: &str, value: &Vec<char>) -> (r: Vec<char>)
    ensures
        r@ == key@ + value@,
{
    let mut v = text::chars_of(key);
    text::push_all(&mut v, value);
    v
}

impl WindowState {
    /// Reads the text of the file. Every field begins with its default. A line that
    /// names no field changes nothing, and one whose value cannot be read (a size that
    /// is no positive number, a flag that is neither `true` nor `false`) keeps what the
    /// field held so far.
    pub fn from_text(text: &str) -> (r: Self)
        ensures
            r == state_of(text@),
    {
        let mut s = WindowState::default();
        let ls = text::ended_lines_of(text);
        let ghost gl = text::ended_lines(text@);
        let width = text::chars_of("width");
        let height = text::chars_of("height");
        let maximized = text::chars_of("maximized");
        let list_width = text::chars_of("list_width");
        let message_height = text::chars_of("message_height");
        let yes = text::chars_of("true");
        let no = text::chars_of("false");
        let mut i: usize = 0;
        while i < ls.len()
            invariant
                i <= ls@.len(),
                gl == text::deep(ls@),
                width@ == "width"@,
                height@ == "height"@,
                maximized@ == "maximized"@,
                list_width@ == "list_width"@,
                message_height@ == "message_height"@,
                yes@ == "true"@,
                no@ == "false"@,
                s == read_lines(gl, i as int),
            decreases ls.len() - i,
        {
            assert(gl[i as int] == ls@[i as int]@);
            match text::cut_chars(&ls[i], '=') {
                None => {},
                Some((k, v)) => {
                    let key = white::trim_chars(&k);
                    let trimmed = white::trim_chars(&v);
                    let value = text::string_of(&trimmed);
                    if text::same_chars(&key, &width) {
                        set_positive(&mut s.width, value.as_str());
                    } else if text::same_chars(&key, &height) {
                        set_positive(&mut s.height, value.as_str());
                    } else if text::same_chars(&key, &maximized) {
                        if text::same_chars(&trimmed, &yes) {
                            s.maximized = true;
                        } else if text::same_chars(&trimmed, &no) {
                            s.maximized = false;
                        }
                    } else if text::same_chars(&key, &list_width) {
                        set_positive(&mut s.list_width, value.as_str());
                    } else if text::same_chars(&key, &message_height) {
                        set_positive(&mut s.message_height, value.as_str());
                    }
                },
            }
            i += 1;
        }
        s
    }

    /// The text of the file.
    pub fn to_text(&self) -> (r: String)
        ensures
            r@ == state_text(*self),
    {
        let mut ls: Vec<Vec<char>> = Vec::new();
        let flag = text::chars_of(
            if self.maximized {
                "true"
            } else {
                "false"
            },
        );
        ls.push(key_value("width=", &write_signed(self.width)));
        ls.push(key_value("height=", &write_signed(self.height)));
        ls.push(key_value("maximized=", &flag));
        ls.push(key_value("list_width=", &write_signed(self.list_width)));
        ls.push(key_value("message_height=", &write_signed(self.message_height)));
        ls.push(Vec::new());
        assert(text::deep(ls@) =~= state_lines(*self));
        text::string_of(&text::join_chars(&ls, '\n'))
    }
}

/// Whether every size of the geometry is positive.
pub open spec fn has_positive_sizes(s: WindowState) -> bool {
    s.width > 0 && s.height > 0 && s.list_width > 0 && s.message_height > 0
}

/// A size that a geometry holds once it was written and read: itself where it is
/// positive, else the default.
pub open spec fn size_or(size: i32, default: i32) -> i32 {
    if size > 0 {
        size
    } else {
        default
    }
}

proof fn lemma_size_text(n: int)
    requires
        i32::MIN <= n <= i32::MAX,
    ensures
        white::trim(signed_decimal(n)) == signed_decimal(n),
        forall|old_value: i32| #[trigger]
            positive_or(old_value, signed_decimal(n)) == size_or(n as i32, old_value),
        text::free_of(signed_decimal(n), '\n'),
        signed_decimal(n).len() > 0,
        signed_decimal(n).last() != '\r',
{
    reveal_strlit("-");
    let m = if n < 0 {
        -n
    } else {
        n
    };
    let d = numbers::decimal(m as nat);
    let t = signed_decimal(n);
    numbers::lemma_decimal_reads_back(m as nat);
    assert forall|j: int| 0 <= j < d.len() implies !white::is_white(d[j]) && d[j] != '\n' && d[j]
        != '\r' && d[j] != '+' && d[j] != '-' by {
        assert(numbers::is_digit(d[j]));
    }
    assert(t.last() == d.last());
    if n < 0 {
        assert(t[0] == '-');
        assert(t.skip(1) =~= d);
        assert forall|j: int| 0 <= j < t.len() implies t[j] != '\n' by {
            if j > 0 {
                assert(t[j] == d[j - 1]);
            }
        }
    }
    white::lemma_trim_trimmed(t);
}

proof fn lemma_field_line(key: Seq<char>, value: Seq<char>)
    requires
        key.len() > 0,
        forall|j: int|
            0 <= j < key.len() ==> !white::is_white(#[trigger] key[j]) && key[j] != '=' && key[j]
                != '\n',
        text::free_of(value, '\n'),
        white::trim(value) == value,
        value.len() > 0,
        value.last() != '\r',
    ensures
        text::cut(key.push('=') + value, '=') == Some((key, value)),
        white::trim(key) == key,
        text::free_of(key.push('=') + value, '\n'),
        text::strip_cr(key.push('=') + value) == key.push('=') + value,
{
    let l = key.push('=') + value;
    text::lemma_cut_at(key, '=', value);
    white::lemma_trim_trimmed(key);
    assert forall|j: int| 0 <= j < l.len() implies l[j] != '\n' by {
        if j > key.len() {
            assert(l[j] == value[j - key.len() - 1]);
            assert(value.contains(value[j - key.len() - 1]));
        }
    }
    assert(l.last() == value.last());
}

/// Geometry is read back as it was written, but for sizes that are not positive: in
/// their place come the defaults.
pub proof fn law_state_round_trip(s: WindowState)
    ensures
        state_of(state_text(s)) == (WindowState {
            width: size_or(s.width, default_state().width),
            height: size_or(s.height, default_state().height),
            maximized: s.maximized,
            list_width: size_or(s.list_width, default_state().list_width),
            message_height: size_or(s.message_height, default_state().message_height),
        }),
        has_positive_sizes(s) ==> state_of(state_text(s)) == s,
{
    reveal_strlit("width");
    reveal_strlit("height");
    reveal_strlit("maximized");
    reveal_strlit("list_width");
    reveal_strlit("message_height");
    reveal_strlit("width=");
    reveal_strlit("height=");
    reveal_strlit("maximized=");
    reveal_strlit("list_width=");
    reveal_strlit("message_height=");
    reveal_strlit("true");
    reveal_strlit("false");
    let flag = if s.maximized {
        "true"@
    } else {
        "false"@
    };
    lemma_size_text(s.width as int);
    lemma_size_text(s.height as int);
    lemma_size_text(s.list_width as int);
    lemma_size_text(s.message_height as int);
    assert(forall|j: int| 0 <= j < flag.len() ==> flag[j] != '\n');
    white::lemma_trim_trimmed(flag);
    assert("true"@.len() != "false"@.len());
    let l0 = "width"@.push('=') + signed_decimal(s.width as int);
    let l1 = "height"@.push('=') + signed_decimal(s.height as int);
    let l2 = "maximized"@.push('=') + flag;
    let l3 = "list_width"@.push('=') + signed_decimal(s.list_width as int);
    let l4 = "message_height"@.push('=') + signed_decimal(s.message_height as int);
    lemma_field_line("width"@, signed_decimal(s.width as int));
    lemma_field_line("height"@, signed_decimal(s.height as int));
    lemma_field_line("maximized"@, flag);
    lemma_field_line("list_width"@, signed_decimal(s.list_width as int));
    lemma_field_line("message_height"@, signed_decimal(s.message_height as int));
    let ls = seq![l0, l1, l2, l3, l4];
    assert(state_lines(s) =~= ls.push(Seq::<char>::empty())) by {
        assert("width="@ =~= "width"@.push('='));
        assert("height="@ =~= "height"@.push('='));
        assert("maximized="@ =~= "maximized"@.push('='));
        assert("list_width="@ =~= "list_width"@.push('='));
        assert("message_height="@ =~= "message_height"@.push('='));
    }
    text::lemma_ended_lines_join(ls);
    let d = default_state();
    assert("width"@.len() == 5 && "height"@.len() == 6 && "maximized"@.len() == 9
        && "list_width"@.len() == 10 && "message_height"@.len() == 14);
    assert(read_lines(ls, 0) == d);
    let r1 = WindowState { width: size_or(s.width, d.width), ..d };
    let r2 = WindowState { height: size_or(s.height, d.height), ..r1 };
    let r3 = WindowState { maximized: s.maximized, ..r2 };
    let r4 = WindowState { list_width: size_or(s.list_width, d.list_width), ..r3 };
    assert(read_lines(ls, 1) == r1);
    assert(read_lines(ls, 2) == r2);
    assert(read_lines(ls, 3) == r3);
    assert(read_lines(ls, 4) == r4);
    assert(read_lines(ls, 5) == (WindowState {
        message_height: size_or(s.message_height, d.message_height),
        ..r4
    }));
}

/// Whatever the file holds, the geometry read from it has positive sizes.
pub proof fn law_sizes_stay_positive(text: Seq<char>)
    ensures
        has_positive_sizes(state_of(text)),
{
    let ls = text::ended_lines(text);
    lemma_sizes_stay_positive(ls, ls.len() as int);
}

proof fn lemma_sizes_stay_positive(ls: Seq<Seq<char>>, n: int)
    ensures
        has_positive_sizes(read_lines(ls, n)),
    decreases n,
{
    if n > 0 {
        lemma_sizes_stay_positive(ls, n - 1);
    }
}

/// A line sets the one setting that it names, to the number or the flag that it holds,
/// and leaves the others.
pub proof fn law_a_line_sets_its_own_setting(s: WindowState, n: i32, flag: bool)
    requires
        n > 0,
    ensures
        read_line(s, "width"@.push('=') + signed_decimal(n as int)) == (WindowState {
            width: n,
            ..s
        }),
        read_line(s, "height"@.push('=') + signed_decimal(n as int)) == (WindowState {
            height: n,
            ..s
        }),
        read_line(s, "list_width"@.push('=') + signed_decimal(n as int)) == (WindowState {
            list_width: n,
            ..s
        }),
        read_line(s, "message_height"@.push('=') + signed_decimal(n as int)) == (WindowState {
            message_height: n,
            ..s
        }),
        read_line(
            s,
            "maximized"@.push('=') + if flag {
                "true"@
            } else {
                "false"@
            },
        ) == (WindowState { maximized: flag, ..s }),
{
    reveal_strlit("width");
    reveal_strlit("height");
    reveal_strlit("maximized");
    reveal_strlit("list_width");
    reveal_strlit("message_height");
    reveal_strlit("true");
    reveal_strlit("false");
    let v = signed_decimal(n as int);
    lemma_size_text(n as int);
    assert(positive_or(s.width, v) == n);
    assert(positive_or(s.height, v) == n);
    assert(positive_or(s.list_width, v) == n);
    assert(positive_or(s.message_height, v) == n);
    lemma_field_line("width"@, v);
    lemma_field_line("height"@, v);
    lemma_field_line("list_width"@, v);
    lemma_field_line("message_height"@, v);
    let f = if flag {
        "true"@
    } else {
        "false"@
    };
    white::lemma_trim_trimmed(f);
    lemma_field_line("maximized"@, f);
    lemma_names_apart();
}

proof fn lemma_names_apart()
    ensures
        "width"@.len() == 5,
        "height"@.len() == 6,
        "maximized"@.len() == 9,
        "list_width"@.len() == 10,
        "message_height"@.len() == 14,
        "true"@.len() == 4,
        "false"@.len() == 5,
{
    reveal_strlit("width");
    reveal_strlit("height");
    reveal_strlit("maximized");
    reveal_strlit("list_width");
    reveal_strlit("message_height");
    reveal_strlit("true");
    reveal_strlit("false");
}

/// A line without an equals sign sets nothing, and a size that is not positive is
/// passed over.
pub proof fn law_other_lines_set_nothing(s: WindowState, l: Seq<char>, n: i32)
    requires
        text::free_of(l, '='),
        n <= 0,
    ensures
        read_line(s, l) == s,
        read_line(s, "width"@.push('=') + signed_decimal(n as int)) == s,
{
    text::lemma_find_char(l, '=');
    if text::find_char(l, '=') is Some {
        assert(l.contains(l[text::find_char(l, '=')->0]));
    }
    reveal_strlit("width");
    lemma_size_text(n as int);
    assert(positive_or(s.width, signed_decimal(n as int)) == s.width);
    lemma_field_line("width"@, signed_decimal(n as int));
}

} // verus!
