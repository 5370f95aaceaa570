//! Text scaling of the whole window: the offered levels and the stylesheet that
//! applies one.
use crate::numbers;
use crate::text;
use vstd::prelude::*;

verus! {

/// The unscaled level.
pub const DEFAULT_PCT: u32 = 100;

/// The offered levels, in percent of the theme's own font size.
pub const LEVELS: [u32; 6] = [50, 75, 100, 125, 150, 200];

/// The labels of the levels, in the same order.
pub const LABELS: [&'static str; 6] = ["50%", "75%", "100%", "125%", "150%", "200%"];

/// The position of a level among the offered ones; that of the default for a
/// level that is not offered.
pub open spec fn position(pct: u32) -> u32 {
    if pct == 50 {
        0
    } else if pct == 75 {
        1
    } else if pct == 125 {
        3
    } else if pct == 150 {
        4
    } else if pct == 200 {
        5
    } else {
        2
    }
}

/// The level at a position; the default behind the end.
pub open spec fn level(idx: u32) -> u32 {
    if idx < 6 {
        LEVELS[idx as int]
    } else {
        DEFAULT_PCT
    }
}

/// The position of `pct` in the list of levels.
pub fn index_of(pct: u32) -> (r: u32)
    ensures
        r == position(pct),
{
    let mut i: usize = 0;
    while i < 6
        invariant
            i <= 6,
            forall|j: int| 0 <= j < i ==> LEVELS[j] != pct,
        decreases 6 - i,
    {
        if LEVELS[i] == pct {
            return i as u32;
        }
        i += 1;
    }
    assert(LEVELS[0] != pct && LEVELS[1] != pct && LEVELS[2] != pct && LEVELS[3] != pct && LEVELS[4]
        != pct && LEVELS[5] != pct);
    2
}

/// The level at position `idx`.
pub fn level_at(idx: u32) -> (r: u32)
    ensures
        r == level(idx),
{
    if idx < 6 {
        LEVELS[idx as usize]
    } else {
        DEFAULT_PCT
    }
}

/// The stylesheet of a level: none for the default.
pub open spec fn stylesheet(pct: u32) -> Seq<char> {
    if pct == DEFAULT_PCT {
        Seq::<char>::empty()
    } else {
        "window { font-size: "@ + numbers::decimal(pct as nat) + "%; }"@
    }
}

/// The stylesheet that scales the window's text to `pct` percent.
pub fn css(pct: u32) -> (r: String)
    ensures
        r@ == stylesheet(pct),
{
    if pct == DEFAULT_PCT {
        String::new()
    } else {
        let mut v = text::chars_of("window { font-size: ");
        text::push_all(&mut v, &numbers::write_decimal(pct as u64));
        text::push_text(&mut v, "%; }");
        text::string_of(&v)
    }
}

/// Whether the new font can be measured after so many frames: not before the
/// second one.
pub fn restyled(ticks: u32) -> (r: bool)
    ensures
        r == (ticks >= 2),
{
    ticks >= 2
}

/// An offered level is found again at its own position; any other level falls
/// back to the default.
pub proof fn law_levels_round_trip(pct: u32)
    ensures
        (exists|i: int| 0 <= i < 6 && LEVELS[i] == pct) ==> level(position(pct)) == pct,
        !(exists|i: int| 0 <= i < 6 && LEVELS[i] == pct) ==> level(position(pct)) == DEFAULT_PCT,
{
    assert(LEVELS[0] == 50 && LEVELS[1] == 75 && LEVELS[2] == 100 && LEVELS[3] == 125 && LEVELS[4]
        == 150 && LEVELS[5] == 200);
}

} // verus!
