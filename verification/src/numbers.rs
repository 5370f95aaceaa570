//! Decimal numbers in text: writing and reading them.
use crate::text;
use vstd::prelude::*;

verus! {

/// The decimal digit for `d`, which is below ten.
pub open spec fn digit(d: nat) -> char {
    (48 + d) as char
}

/// Whether `c` is an ASCII decimal digit.
pub open spec fn is_digit(c: char) -> bool {
    '0' <= c <= '9'
}

/// `n` in decimal, without leading zeros.
pub open spec fn decimal(n: nat) -> Seq<char>
    decreases n,
{
    if n < 10 {
        seq![digit(n)]
    } else {
        decimal(n / 10).push(digit(n % 10))
    }
}

/// Whether `s` holds nothing but decimal digits.
pub open spec fn all_digits(s: Seq<char>) -> bool {
    forall|i: int| 0 <= i < s.len() ==> is_digit(#[trigger] s[i])
}

/// The number that the digits of `s` write.
pub open spec fn digits_value(s: Seq<char>) -> nat
    decreases s.len(),
{
    if s.len() == 0 {
        0
    } else {
        (10 * digits_value(s.drop_last()) + (s.last() as int - 48)) as nat
    }
}

/// The number written by `s`: digits behind an optional `+`, no greater than `max`.
pub open spec fn parse_number(s: Seq<char>, max: nat) -> Option<nat> {
    let d = if s.len() > 0 && s[0] == '+' {
        s.skip(1)
    } else {
        s
    };
    if d.len() > 0 && all_digits(d) && digits_value(d) <= max {
        Some(digits_value(d))
    } else {
        None
    }
}

/// The integer written by `s`: digits behind an optional sign, within `min` and `max`.
pub open spec fn parse_integer(s: Seq<char>, min: int, max: int) -> Option<int> {
    let neg = s.len() > 0 && s[0] == '-';
    let d = if s.len() > 0 && (s[0] == '+' || s[0] == '-') {
        s.skip(1)
    } else {
        s
    };
    let v = if neg {
        -(digits_value(d) as int)
    } else {
        digits_value(d) as int
    };
    if d.len() > 0 && all_digits(d) && min <= v <= max {
        Some(v)
    } else {
        None
    }
}

/// Writes `n` in decimal.
pub fn write_decimal(n: u64) -> (r: Vec<char>)
    ensures
        r@ == decimal(n as nat),
    decreases n,
{
    let d: u8 = (n % 10) as u8;
    let c: char = (48u8 + d) as char;
    assert(c == digit((n % 10) as nat));
    if n < 10 {
        let mut v: Vec<char> = Vec::new();
        v.push(c);
        assert(v@ =~= decimal(n as nat));
        v
    } else {
        let mut v = write_decimal(n / 10);
        v.push(c);
        v
    }
}

proof fn lemma_digits_value_step(s: Seq<char>, i: int)
    requires
        0 <= i < s.len(),
    ensures
        digits_value(s.take(i + 1)) == (10 * digits_value(s.take(i)) + (s[i] as int - 48)) as nat,
{
    assert(s.take(i + 1).drop_last() =~= s.take(i));
}

/// More digits never make the number smaller.
proof fn lemma_digits_value_grows(s: Seq<char>, i: int)
    requires
        0 <= i <= s.len(),
        all_digits(s),
    ensures
        digits_value(s.take(i)) <= digits_value(s),
    decreases s.len() - i,
{
    if i < s.len() {
        lemma_digits_value_grows(s, i + 1);
        lemma_digits_value_step(s, i);
        assert(is_digit(s[i]));
    } else {
        assert(s.take(i) =~= s);
    }
}

/// The number written by the digits `v[from..]`, if there is a digit, nothing but
/// digits, and the number is no greater than `max`.
fn parse_digits(v: &Vec<char>, from: usize, max: u64) -> (r: Option<u64>)
    requires
        from <= v.len(),
        max <= 0xffff_ffff,
    ensures
        ({
            let d = v@.skip(from as int);
            if d.len() > 0 && all_digits(d) && digits_value(d) <= max {
                r == Some(digits_value(d) as u64)
            } else {
                r is None
            }
        }),
{
    let ghost d = v@.skip(from as int);
    if from == v.len() {
        return None;
    }
    let mut value: u64 = 0;
    let mut i: usize = from;
    assert(d.take(0) =~= Seq::<char>::empty());
    while i < v.len()
        invariant
            from <= i <= v.len(),
            max <= 0xffff_ffff,
            d == v@.skip(from as int),
            value <= max,
            value == digits_value(d.take(i - from)),
            forall|j: int| 0 <= j < i - from ==> is_digit(#[trigger] d[j]),
        decreases v.len() - i,
    {
        let c = v[i];
        assert(d[i - from] == c);
        if c < '0' || c > '9' {
            return None;
        }
        let k: u64 = (c as u32 - 48) as u64;
        proof {
            lemma_digits_value_step(d, i - from);
        }
        value = 10 * value + k;
        i += 1;
        if value > max {
            proof {
                if all_digits(d) {
                    lemma_digits_value_grows(d, i - from);
                }
            }
            return None;
        }
    }
    assert(d.take(i - from) =~= d);
    Some(value)
}

/// Reads an unsigned 32-bit number: digits behind an optional `+`.
pub fn parse_u32(v: &Vec<char>) -> (r: Option<u32>)
    ensures
        (match r {
            Some(n) => parse_number(v@, u32::MAX as nat) == Some(n as nat),
            None => parse_number(v@, u32::MAX as nat) is None,
        }),
{
    let from: usize = if v.len() > 0 && v[0] == '+' {
        1
    } else {
        0
    };
    assert(v@.skip(0) =~= v@);
    match parse_digits(v, from, 0xffff_ffff) {
        Some(n) => Some(n as u32),
        None => None,
    }
}

/// Reads a signed 32-bit number: digits behind an optional sign.
pub fn parse_i32(v: &Vec<char>) -> (r: Option<i32>)
    ensures
        (match r {
            Some(n) => parse_integer(v@, i32::MIN as int, i32::MAX as int) == Some(n as int),
            None => parse_integer(v@, i32::MIN as int, i32::MAX as int) is None,
        }),
{
    let neg = v.len() > 0 && v[0] == '-';
    let from: usize = if v.len() > 0 && (v[0] == '+' || v[0] == '-') {
        1
    } else {
        0
    };
    assert(v@.skip(0) =~= v@);
    let max: u64 = if neg {
        0x8000_0000
    } else {
        0x7fff_ffff
    };
    match parse_digits(v, from, max) {
        Some(n) => Some(
            if neg {
                (-(n as i64)) as i32
            } else {
                n as i32
            },
        ),
        None => None,
    }
}

/// What `decimal` writes is digits only, and reads back as the same number.
pub proof fn lemma_decimal_reads_back(n: nat)
    ensures
        decimal(n).len() > 0,
        all_digits(decimal(n)),
        digits_value(decimal(n)) == n,
    decreases n,
{
    if n < 10 {
        reveal_with_fuel(digits_value, 2);
    } else {
        lemma_decimal_reads_back(n / 10);
        assert(decimal(n).drop_last() =~= decimal(n / 10));
        assert forall|i: int| 0 <= i < decimal(n).len() implies is_digit(
            #[trigger] decimal(n)[i],
        ) by {
            if i < decimal(n / 10).len() {
                assert(decimal(n)[i] == decimal(n / 10)[i]);
            }
        }
    }
}

/// A written number within the bound is read back as itself.
pub proof fn lemma_parse_decimal(n: nat, max: nat)
    requires
        n <= max,
    ensures
        parse_number(decimal(n), max) == Some(n),
{
    lemma_decimal_reads_back(n);
    assert(is_digit(decimal(n)[0]));
}

/// `k` zeros.
pub open spec fn zeros(k: int) -> Seq<char> {
    Seq::new(
        if k > 0 {
            k as nat
        } else {
            0
        },
        |i: int| '0',
    )
}

/// `n` in decimal, with its sign if it is negative, brought to `width` characters
/// by zeros before the digits.
pub open spec fn padded(n: int, width: int) -> Seq<char> {
    if n < 0 {
        let d = decimal((-n) as nat);
        seq!['-'] + zeros(width - 1 - d.len()) + d
    } else {
        let d = decimal(n as nat);
        zeros(width - d.len()) + d
    }
}

/// `n` in at least `width` characters.
pub fn write_padded(n: i32, width: usize) -> (r: Vec<char>)
    ensures
        r@ == padded(n as int, width as int),
{
    let mut out: Vec<char> = Vec::new();
    let d: Vec<char>;
    if n < 0 {
        out.push('-');
        d = write_decimal((-(n as i64)) as u64);
    } else {
        d = write_decimal(n as u64);
    }
    let ghost head = out@;
    let mut left: usize = width;
    if left >= out.len() {
        left -= out.len();
    } else {
        left = 0;
    }
    if left >= d.len() {
        left -= d.len();
    } else {
        left = 0;
    }
    let ghost total = left;
    assert(zeros(0) =~= Seq::<char>::empty());
    assert(head + zeros(0) =~= head);
    while left > 0
        invariant
            left <= total,
            out@ == head + zeros(total - left),
        decreases left,
    {
        out.push('0');
        left -= 1;
        assert(out@ =~= head + zeros(total - left));
    }
    text::push_all(&mut out, &d);
    proof {
        let k = width as int - head.len() - d@.len();
        assert(zeros(total as int) =~= zeros(k));
        if n < 0 {
            assert(head =~= seq!['-']);
        } else {
            assert(out@ =~= zeros(k) + d@);
        }
    }
    out
}

/// Zeros before the digits do not change the number.
pub proof fn lemma_zeros_value(k: int, s: Seq<char>)
    requires
        all_digits(s),
    ensures
        all_digits(zeros(k) + s),
        digits_value(zeros(k) + s) == digits_value(s),
    decreases s.len(), k,
{
    let z = zeros(k) + s;
    assert forall|i: int| 0 <= i < z.len() implies is_digit(#[trigger] z[i]) by {
        if i >= zeros(k).len() {
            assert(z[i] == s[i - zeros(k).len()]);
        }
    }
    if s.len() > 0 {
        lemma_zeros_value(k, s.drop_last());
        assert(z.drop_last() =~= zeros(k) + s.drop_last());
    } else if k > 0 {
        lemma_zeros_value(k - 1, s);
        assert(z.drop_last() =~= zeros(k - 1) + s);
        assert(z.last() == '0');
    } else {
        assert(z =~= s);
    }
}

/// A padded number reads back.
pub proof fn lemma_parse_padded(n: int, width: int, min: int, max: int)
    requires
        0 <= n <= max,
        min <= 0,
    ensures
        parse_integer(padded(n, width), min, max) == Some(n),
        all_digits(padded(n, width)),
        padded(n, width).len() > 0,
{
    let d = decimal(n as nat);
    lemma_decimal_reads_back(n as nat);
    lemma_zeros_value(width - d.len(), d);
    let p = padded(n, width);
    assert(is_digit(p[0]));
}

/// The hexadecimal digit for `d`, which is below sixteen.
pub open spec fn hex_digit(d: int) -> char {
    if d < 10 {
        (48 + d) as char
    } else {
        (87 + d) as char
    }
}

/// The hexadecimal digit for `d`.
pub fn write_hex_digit(d: u8) -> (r: char)
    requires
        d < 16,
    ensures
        r == hex_digit(d as int),
{
    if d < 10 {
        (48u8 + d) as char
    } else {
        (87u8 + d) as char
    }
}

} // verus!
