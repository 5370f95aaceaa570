//! The gutter column: what each cell shows, and how wide the column must be.
use crate::diff_cues::GutterCue;
use crate::linenums::{DiffLineNo, NumColumn};
use crate::numbers;
use vstd::prelude::*;

verus! {

/// Horizontal padding around a cue glyph, in pixels.
pub const CUE_XPAD: i32 = 6;

/// Horizontal padding around a line number, in pixels.
pub const NUM_XPAD: i32 = 4;

/// What one gutter cell shows.
#[derive(Clone, Copy, Debug, PartialEq, Eq, Structural)]
pub enum CellContent {
    Blank,
    Number(u32),
    Cue,
}

/// The number that a column takes from a line.
pub open spec fn slot(column: NumColumn, n: DiffLineNo) -> Option<u32> {
    match column {
        NumColumn::Old => n.old,
        NumColumn::New => n.new,
    }
}

/// The number that `column` takes from a line.
pub fn column_number(column: NumColumn, n: DiffLineNo) -> (r: Option<u32>)
    ensures
        r == slot(column, n),
{
    match column {
        NumColumn::Old => n.old,
        NumColumn::New => n.new,
    }
}

/// A button shows where no number would stand, and in place of the number on the
/// line under the pointer.
pub open spec fn content(number: Option<u32>, has_cue: bool, hovered: bool) -> CellContent {
    if has_cue && (number is None || hovered) {
        CellContent::Cue
    } else {
        match number {
            Some(n) => CellContent::Number(n),
            None => CellContent::Blank,
        }
    }
}

/// The number at `line`, if the line has one.
pub open spec fn number_at(numbers: Seq<DiffLineNo>, column: NumColumn, line: int) -> Option<u32> {
    if 0 <= line < numbers.len() {
        slot(column, numbers[line])
    } else {
        None
    }
}

/// Whether `line` carries a button.
pub open spec fn active(cues: Seq<Option<GutterCue>>, line: int) -> bool {
    0 <= line < cues.len() && cues[line] is Some
}

/// Whether `line` carries a button that can be clicked.
pub fn is_active(cues: &[Option<GutterCue>], line: usize) -> (r: bool)
    ensures
        r == active(cues@, line as int),
{
    line < cues.len() && cues[line].is_some()
}

/// What the cell of `line` shows while the pointer is over line `hover`.
pub fn cell_content(
    numbers: &[DiffLineNo],
    cues: &[Option<GutterCue>],
    column: NumColumn,
    hover: Option<usize>,
    line: usize,
) -> (r: CellContent)
    ensures
        r == content(
            number_at(numbers@, column, line as int),
            active(cues@, line as int),
            hover == Some(line),
        ),
{
    let value: Option<u32> = if line < numbers.len() {
        column_number(column, numbers[line])
    } else {
        None
    };
    let hovered = match hover {
        Some(h) => h == line,
        None => false,
    };
    if is_active(cues, line) && (value.is_none() || hovered) {
        CellContent::Cue
    } else {
        match value {
            Some(n) => CellContent::Number(n),
            None => CellContent::Blank,
        }
    }
}

/// Whether `m` is the largest number in `column`, or 0 where it has none.
pub open spec fn is_widest(numbers: Seq<DiffLineNo>, column: NumColumn, m: u32) -> bool {
    &&& forall|i: int|
        0 <= i < numbers.len() ==> (slot(column, #[trigger] numbers[i]) matches Some(n) ==> n <= m)
    &&& m > 0 ==> exists|i: int|
        0 <= i < numbers.len() && slot(column, #[trigger] numbers[i]) == Some(m)
}

/// The largest number in `column`, or 0 where it has none.
pub fn widest_number(numbers: &[DiffLineNo], column: NumColumn) -> (r: u32)
    ensures
        is_widest(numbers@, column, r),
{
    let mut m: u32 = 0;
    let mut i: usize = 0;
    while i < numbers.len()
        invariant
            i <= numbers@.len(),
            is_widest(numbers@.take(i as int), column, m),
        decreases numbers.len() - i,
    {
        let ghost before = numbers@.take(i as int);
        let ghost after = numbers@.take(i + 1);
        assert(after =~= before.push(numbers@[i as int]));
        let ghost was = m;
        match column_number(column, numbers[i]) {
            Some(n) => {
                if n > m {
                    m = n;
                }
            },
            None => {},
        }
        i += 1;
        assert(is_widest(after, column, m)) by {
            assert forall|k: int| 0 <= k < after.len() implies (slot(
                column,
                #[trigger] after[k],
            ) matches Some(n) ==> n <= m) by {
                if k < before.len() {
                    assert(after[k] == before[k]);
                }
            }
            if m > 0 {
                if m == was {
                    let k = choose|k: int|
                        0 <= k < before.len() && slot(column, #[trigger] before[k]) == Some(m);
                    assert(after[k] == before[k]);
                } else {
                    assert(slot(column, after[i - 1]) == Some(m));
                }
            }
        }
    }
    assert(numbers@.take(i as int) =~= numbers@);
    m
}

/// Ten to the power `k`.
spec fn ten_to(k: nat) -> nat
    decreases k,
{
    if k == 0 {
        1
    } else {
        10 * ten_to((k - 1) as nat)
    }
}

proof fn lemma_decimal_len(n: nat, k: nat)
    requires
        k >= 1,
        n < ten_to(k),
    ensures
        1 <= numbers::decimal(n).len() <= k,
    decreases k,
{
    if n >= 10 {
        if k == 1 {
            reveal_with_fuel(ten_to, 2);
        } else {
            lemma_decimal_len(n / 10, (k - 1) as nat);
        }
    }
}

/// The width that line numbers up to `max` need: their digits and the padding,
/// nothing where there is no number.
pub open spec fn numbers_width(max: u32, digit_width: int) -> int {
    if max == 0 {
        0
    } else {
        numbers::decimal(max as nat).len() * digit_width + 2 * NUM_XPAD
    }
}

/// The width that glyphs up to `glyph_width` need, nothing where there is none.
pub open spec fn cues_width(glyph_width: int) -> int {
    if glyph_width == 0 {
        0
    } else {
        glyph_width + 2 * CUE_XPAD
    }
}

/// The width of a column whose largest number is `max` and whose widest glyph
/// measures `glyph_width` pixels.
pub fn column_width(max: u32, digit_width: i32, glyph_width: i32) -> (r: i32)
    requires
        0 <= digit_width,
        numbers_width(max, digit_width as int) <= i32::MAX,
        0 <= glyph_width,
        cues_width(glyph_width as int) <= i32::MAX,
    ensures
        r == if numbers_width(max, digit_width as int) >= cues_width(glyph_width as int) {
            numbers_width(max, digit_width as int)
        } else {
            cues_width(glyph_width as int)
        },
{
    let num_w: i32 = if max == 0 {
        0
    } else {
        proof {
            reveal_with_fuel(ten_to, 11);
            lemma_decimal_len(max as nat, 10);
        }
        let digits: i32 = numbers::write_decimal(max as u64).len() as i32;
        assert(0 <= digits * digit_width) by (nonlinear_arith)
            requires
                0 <= digits,
                0 <= digit_width,
        ;
        digits * digit_width + 2 * NUM_XPAD
    };
    let cue_w: i32 = if glyph_width == 0 {
        0
    } else {
        glyph_width + 2 * CUE_XPAD
    };
    if num_w >= cue_w {
        num_w
    } else {
        cue_w
    }
}

/// What a gutter cell shows: a button where the line has no number, and on a numbered
/// line only under the pointer; else the number of the column, if the line has one.
pub proof fn law_buttons_give_way_to_numbers(
    numbers: &[DiffLineNo],
    cues: &[Option<GutterCue>],
    column: NumColumn,
    hover: Option<usize>,
    line: usize,
    r: CellContent,
)
    requires
        call_ensures(cell_content, (numbers, cues, column, hover, line), r),
        line < numbers@.len(),
        line < cues@.len(),
    ensures
        ({
            let n = match column {
                NumColumn::Old => numbers@[line as int].old,
                NumColumn::New => numbers@[line as int].new,
            };
            let button = cues@[line as int] is Some;
            &&& n is None && button ==> r == CellContent::Cue
            &&& n is None && !button ==> r == CellContent::Blank
            &&& n is Some && button && hover == Some(line) ==> r == CellContent::Cue
            &&& n is Some && !(button && hover == Some(line)) ==> r == CellContent::Number(n->0)
        }),
{
}

/// A column is wide enough for its widest number and for its buttons, and no wider
/// than one of them needs.
pub proof fn law_a_column_fits_what_it_shows(
    max: u32,
    digit_width: i32,
    glyph_width: i32,
    r: i32,
)
    requires
        0 <= digit_width,
        numbers_width(max, digit_width as int) <= i32::MAX,
        0 <= glyph_width,
        cues_width(glyph_width as int) <= i32::MAX,
        call_ensures(column_width, (max, digit_width, glyph_width), r),
    ensures
        max > 0 ==> r >= numbers::decimal(max as nat).len() * digit_width + 2 * NUM_XPAD,
        glyph_width > 0 ==> r >= glyph_width + 2 * CUE_XPAD,
        max == 0 && glyph_width == 0 ==> r == 0,
        r == numbers::decimal(max as nat).len() * digit_width + 2 * NUM_XPAD || r == glyph_width + 2
            * CUE_XPAD || r == 0,
{
}

} // verus!
