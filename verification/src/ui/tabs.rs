//! Where each tab title lands in the tab bar, so a click can be mapped
//! back to the tab under it. Mirrors the tab widget's own layout: one cell
//! of padding on each side of a title, ` | ` between titles, titles cut off
//! at the bar's right edge.
use vstd::prelude::*;
use crate::ui::Area;

verus! {

/// Padding on each side of a tab title, in cells.
pub const PADDING_WIDTH: u16 = 1;
/// The width of the divider ` | ` between two titles, in cells.
pub const DIVIDER_WIDTH: u16 = 3;

/// A tab title's cells in the last drawn frame, and which tab it is.
#[derive(Debug, Clone, Copy, PartialEq, Eq, Structural)]
pub struct TabHit {
    pub area: Area,
    pub index: usize,
}

/// The hits of the titles from `index` on, whose widths (in characters) are
/// `widths`, laid out from column `x` up to column `right` on row `y`.
pub open spec fn hits_from(widths: Seq<nat>, index: nat, x: int, right: int, y: u16) -> Seq<TabHit>
    decreases widths.len() - index,
{
    if index >= widths.len() || x >= right || x + PADDING_WIDTH >= right {
        Seq::empty()
    } else {
        let start = x + PADDING_WIDTH;
        let width = if widths[index as int] < right - start { widths[index as int] as int } else { right - start };
        let hit = TabHit { area: Area { x: start as u16, y, width: width as u16, height: 1 }, index: index as usize };
        let end = start + width;
        if end >= right {
            seq![hit]
        } else {
            seq![hit] + hits_from(widths, index + 1, end + PADDING_WIDTH + DIVIDER_WIDTH, right, y)
        }
    }
}

/// The screen area of each visible tab title in the bar whose inner
/// (border-less) area is `inner`, for titles of `widths` characters.
pub fn tab_hits(inner: Area, widths: &Vec<usize>) -> (r: Vec<TabHit>)
    requires
        inner.x + inner.width + PADDING_WIDTH + DIVIDER_WIDTH <= u16::MAX,
        widths.len() < usize::MAX,
    ensures
        r@ == hits_from(widths@.map_values(|w: usize| w as nat), 0, inner.x as int, inner.x + inner.width, inner.y),
{
    let ghost ws = widths@.map_values(|w: usize| w as nat);
    let right: u16 = inner.x + inner.width;
    let mut x: u16 = inner.x;
    let mut hits: Vec<TabHit> = Vec::new();
    let mut index: usize = 0;
    while index < widths.len()
        invariant_except_break
            ws == widths@.map_values(|w: usize| w as nat),
            right == inner.x + inner.width,
            right + PADDING_WIDTH + DIVIDER_WIDTH <= u16::MAX,
            index <= widths.len(),
            x <= right + PADDING_WIDTH + DIVIDER_WIDTH,
            hits@ + hits_from(ws, index as nat, x as int, right as int, inner.y)
                == hits_from(ws, 0, inner.x as int, right as int, inner.y),
        ensures
            hits@ == hits_from(ws, 0, inner.x as int, right as int, inner.y),
        decreases widths.len() - index,
    {
        assert(index < widths.len());
        if x >= right {
            assert(hits@ + Seq::<TabHit>::empty() =~= hits@);
            break;
        }
        if x + PADDING_WIDTH >= right {
            assert(hits@ + Seq::<TabHit>::empty() =~= hits@);
            break;
        }
        x = x + PADDING_WIDTH;
        let start = x;
        let room: u16 = right - x;
        let w: u16 = if widths[index] < room as usize { widths[index] as u16 } else { room };
        x = x + w;
        let hit = TabHit { area: Area { x: start, y: inner.y, width: w, height: 1 }, index };
        let ghost before = hits@;
        hits.push(hit);
        if x >= right {
            assert(hits@ =~= before + seq![hit]);
            break;
        }
        x = x + PADDING_WIDTH + DIVIDER_WIDTH;
        index = index + 1;
        assert(hits@ =~= before + seq![hit]);
    }
    hits
}

} // verus!
