//! Where a drag over the history list would land: in a gap between rows, or on a row.
//!
//! While a gap is open, a placeholder row stands in it and takes part in the list's
//! own counting of rows. Gaps and targets count the rows without it.
use vstd::prelude::*;

verus! {

/// The row under the pointer: its place in the list, and its extent in pixels.
#[derive(Clone, Copy, Debug, PartialEq, Eq, Structural)]
pub struct RowHit {
    pub index: usize,
    pub top: i32,
    pub height: u32,
}

/// Whether the pointer is in the lower half of a row.
pub open spec fn in_lower_half(hit: RowHit, y: i32) -> bool {
    y > hit.top + hit.height / 2
}

fn lower_half(hit: &RowHit, y: i32) -> (r: bool)
    ensures
        r == in_lower_half(*hit, y),
{
    y as i64 > hit.top as i64 + (hit.height / 2) as i64
}

/// The gap next to row `index`, on the side the pointer is at; none lies beyond the
/// last of `n` rows.
pub open spec fn gap_beside(index: int, lower: bool, n: int) -> int {
    let gap = if lower {
        index + 1
    } else {
        index
    };
    if gap > n {
        n
    } else {
        gap
    }
}

fn gap_next_to(index: usize, lower: bool, n: usize) -> (r: usize)
    ensures
        r == gap_beside(index as int, lower, n as int),
{
    if index >= n {
        n
    } else if lower {
        index + 1
    } else {
        index
    }
}

/// The gap under the pointer while no placeholder stands in the list.
pub open spec fn gap_under(hit: Option<RowHit>, y: i32, above: bool, n: int) -> int {
    match hit {
        Some(row) => gap_beside(row.index as int, in_lower_half(row, y), n),
        None => if above {
            0
        } else {
            n
        },
    }
}

/// The gap under the pointer: below a row whose lower half it is in, above one whose
/// upper half it is in, before the first row where it is `above` the list, and behind
/// the last of the `n` rows otherwise. No placeholder may stand in the list.
pub fn gap_at(hit: Option<RowHit>, y: i32, above: bool, n: usize) -> (r: usize)
    ensures
        r == gap_under(hit, y, above, n as int),
        r <= n,
{
    match hit {
        Some(row) => gap_next_to(row.index, lower_half(&row, y), n),
        None => if above {
            0
        } else {
            n
        },
    }
}

/// The place of a row in the list while a placeholder stands in the gap `open`.
pub open spec fn with_placeholder(row: int, open: Option<usize>) -> int {
    match open {
        Some(g) => if row >= g {
            row + 1
        } else {
            row
        },
        None => row,
    }
}

/// The row at a place of the list that is not the placeholder's.
pub open spec fn past_placeholder(index: int, open: Option<usize>) -> int {
    match open {
        Some(g) => if index > g {
            index - 1
        } else {
            index
        },
        None => index,
    }
}

fn row_past_placeholder(index: usize, open: Option<usize>) -> (r: usize)
    ensures
        r == past_placeholder(index as int, open),
{
    match open {
        Some(g) => if index > g {
            index - 1
        } else {
            index
        },
        None => index,
    }
}

/// The placeholder hides no row and shifts none: a row is found again from its place
/// in the list, which is never that of the placeholder.
pub proof fn law_placeholder_is_transparent(row: int, open: Option<usize>)
    requires
        row >= 0,
    ensures
        past_placeholder(with_placeholder(row, open), open) == row,
        open matches Some(g) ==> with_placeholder(row, open) != g,
{
}

/// The gap that a hover opens while the gap `open` is; `None` where nothing changes.
pub open spec fn hovered_gap(
    hit: Option<RowHit>,
    y: i32,
    above: bool,
    n: int,
    open: Option<usize>,
) -> Option<int> {
    let gap = match hit {
        Some(row) => gap_beside(
            past_placeholder(row.index as int, open),
            in_lower_half(row, y),
            n,
        ),
        None => if above {
            0
        } else {
            n
        },
    };
    let on_placeholder = hit matches Some(row) && open == Some(row.index);
    if on_placeholder || (open matches Some(g) && g == gap) {
        None
    } else {
        Some(gap)
    }
}

/// The gap that a hover opens; `None` where the open gap stays as it is.
pub fn hover_gap(
    hit: Option<RowHit>,
    y: i32,
    above: bool,
    n: usize,
    open: Option<usize>,
) -> (r: Option<usize>)
    ensures
        match r {
            Some(g) => hovered_gap(hit, y, above, n as int, open) == Some(g as int) && g <= n,
            None => hovered_gap(hit, y, above, n as int, open) is None,
        },
{
    let gap: usize = match hit {
        Some(row) => {
            if let Some(g) = open {
                if g == row.index {
                    return None;
                }
            }
            gap_next_to(row_past_placeholder(row.index, open), lower_half(&row, y), n)
        },
        None => if above {
            0
        } else {
            n
        },
    };
    if let Some(g) = open {
        if g == gap {
            return None;
        }
    }
    Some(gap)
}

/// What a hover over the list points at.
#[derive(Clone, Copy, Debug, PartialEq, Eq, Structural)]
pub enum Zone {
    /// The placeholder: all stays as it is.
    Unchanged,
    /// Nothing: neither a gap nor a target.
    Nothing,
    /// A gap between rows.
    Gap,
    /// The middle of a row, by its place without the placeholder.
    Target(usize),
}

/// Whether the pointer is in the upper or lower quarter of a row.
pub open spec fn near_edge(hit: RowHit, y: i32) -> bool {
    let h = if hit.height > 1 {
        hit.height as int
    } else {
        1
    };
    let at = y - hit.top;
    at < h / 4 || at >= h - h / 4
}

/// What a hover points at. A commit from another window goes between rows only; an
/// uncommitted entry goes onto rows only; any other drag goes between rows near the
/// edges of a row and onto it in the middle.
pub open spec fn zone_of(
    hit: Option<RowHit>,
    y: i32,
    foreign: bool,
    uncommitted: bool,
    open: Option<usize>,
) -> Zone {
    if foreign {
        Zone::Gap
    } else {
        match hit {
            None => if uncommitted {
                Zone::Nothing
            } else {
                Zone::Gap
            },
            Some(row) => if open == Some(row.index) {
                Zone::Unchanged
            } else if uncommitted {
                Zone::Target(row.index)
            } else if near_edge(row, y) {
                Zone::Gap
            } else {
                Zone::Target(past_placeholder(row.index as int, open) as usize)
            },
        }
    }
}

/// What a hover points at.
pub fn zone(
    hit: Option<RowHit>,
    y: i32,
    foreign: bool,
    uncommitted: bool,
    open: Option<usize>,
) -> (r: Zone)
    ensures
        r == zone_of(hit, y, foreign, uncommitted, open),
{
    if foreign {
        return Zone::Gap;
    }
    match hit {
        None => if uncommitted {
            Zone::Nothing
        } else {
            Zone::Gap
        },
        Some(row) => {
            if let Some(g) = open {
                if g == row.index {
                    return Zone::Unchanged;
                }
            }
            if uncommitted {
                return Zone::Target(row.index);
            }
            let h: u32 = if row.height > 1 {
                row.height
            } else {
                1
            };
            let at: i64 = y as i64 - row.top as i64;
            let quarter: i64 = (h / 4) as i64;
            if at < quarter || at >= h as i64 - quarter {
                Zone::Gap
            } else {
                Zone::Target(row_past_placeholder(row.index, open))
            }
        },
    }
}

/// An uncommitted entry never goes between rows, and a commit from another window
/// never onto one.
pub proof fn law_zones_fit_the_drag(
    hit: Option<RowHit>,
    y: i32,
    foreign: bool,
    uncommitted: bool,
    open: Option<usize>,
)
    ensures
        foreign ==> !(zone_of(hit, y, foreign, uncommitted, open) is Target),
        !foreign && uncommitted ==> !(zone_of(hit, y, foreign, uncommitted, open) is Gap),
{
}

/// The row at which a chooser for a gap is anchored: the row below the gap, or where
/// that does not show the row above it.
pub open spec fn anchor(visible: Seq<bool>, gap: int) -> Option<int> {
    if 0 <= gap < visible.len() && visible[gap] {
        Some(gap)
    } else if 0 < gap <= visible.len() && visible[gap - 1] {
        Some(gap - 1)
    } else {
        None
    }
}

/// The row at which a chooser for a gap is anchored.
pub fn popover_anchor_row(visible: &[bool], gap: usize) -> (r: Option<usize>)
    ensures
        match r {
            Some(i) => anchor(visible@, gap as int) == Some(i as int),
            None => anchor(visible@, gap as int) is None,
        },
{
    if gap < visible.len() && visible[gap] {
        Some(gap)
    } else if gap > 0 && gap - 1 < visible.len() && visible[gap - 1] {
        Some(gap - 1)
    } else {
        None
    }
}

/// The height at which a chooser points at a gap: the upper edge of the row below
/// it, or the lower edge of the row above it.
pub fn gap_edge(at_top: bool, top: i32, height: u32) -> (r: i32)
    requires
        at_top || i32::MIN <= top + height - 1 <= i32::MAX,
    ensures
        r == if at_top {
            top as int
        } else {
            top + height - 1
        },
{
    if at_top {
        top
    } else {
        (top as i64 + height as i64 - 1) as i32
    }
}

/// Where a drag over a row points: the middle half of the row is the row itself, the
/// rest of it a gap beside it; away from the rows it is a gap.
pub proof fn law_the_middle_of_a_row_is_the_row(
    row: RowHit,
    y: i32,
    open: Option<usize>,
    r: Zone,
)
    requires
        call_ensures(zone, (Some(row), y, false, false, open), r),
        open != Some(row.index),
        row.height >= 1,
    ensures
        row.top + row.height / 4 <= y < row.top + row.height - row.height / 4 ==> (
        r matches Zone::Target(t) && (open is None || row.index < open->0 ==> t == row.index) && (
        open is Some && row.index > open->0 ==> t == row.index - 1)),
        y < row.top + row.height / 4 || y >= row.top + row.height - row.height / 4 ==> r is Gap,
{
}

/// The gap under the pointer is the one above a row in its upper half and the one
/// below it in its lower half; away from the rows it is the first or the last gap.
pub proof fn law_the_nearer_gap_is_taken(
    hit: Option<RowHit>,
    y: i32,
    above: bool,
    n: usize,
    r: usize,
)
    requires
        call_ensures(gap_at, (hit, y, above, n), r),
    ensures
        r <= n,
        hit is None ==> r == if above {
            0
        } else {
            n
        },
        hit matches Some(row) ==> row.index < n ==> (y <= row.top + row.height / 2 ==> r
            == row.index) && (y > row.top + row.height / 2 ==> r == row.index + 1),
{
}

/// With no gap open, a hover opens the nearer gap; with one open, the row that stands
/// for it changes nothing, and the rows behind count as if it were not there. A gap
/// that is open already is not opened again.
pub proof fn law_a_hover_opens_the_nearer_gap(
    row: RowHit,
    y: i32,
    above: bool,
    n: usize,
    open: Option<usize>,
    r: Option<usize>,
    plain: usize,
    seen: RowHit,
)
    requires
        call_ensures(hover_gap, (Some(row), y, above, n, open), r),
        seen.top == row.top,
        seen.height == row.height,
        seen.index == if open is Some && row.index > open->0 {
            row.index - 1
        } else {
            row.index as int
        },
        call_ensures(gap_at, (Some(seen), y, above, n), plain),
    ensures
        open == Some(row.index) ==> r is None,
        r is Some ==> r == Some(plain),
        r is None ==> open == Some(row.index) || open == Some(plain),
        open is None ==> r is Some,
{
}

/// A popover points at a row that can be seen, beside its gap.
pub proof fn law_a_popover_points_beside_its_gap(visible: &[bool], gap: usize, r: Option<usize>)
    requires
        call_ensures(popover_anchor_row, (visible, gap), r),
    ensures
        r matches Some(i) ==> i < visible@.len() && visible@[i as int] && (i == gap || i + 1
            == gap),
        gap < visible@.len() && visible@[gap as int] ==> r == Some(gap),
        0 < gap <= visible@.len() && visible@[gap - 1] ==> r is Some,
{
}

} // verus!
