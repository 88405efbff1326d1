//! The integer side of the history chart popup: its placement, how many
//! axis ticks fit, and which palette colour each plotted line gets.
use vstd::prelude::*;
use crate::ui::Area;
use crate::text::str_eq;
use crate::ui::cards::{sat_add_u16, sat_sub};

verus! {

/// How many line colours the chart palette has.
pub const PALETTE_LEN: usize = 11;

/// The first position in `ids` holding `id`, if any.
pub open spec fn first_index_of(ids: Seq<Seq<char>>, id: Seq<char>) -> Option<int>
    decreases ids.len(),
{
    if ids.len() == 0 {
        None
    } else if ids[0] == id {
        Some(0)
    } else {
        match first_index_of(ids.drop_first(), id) {
            Some(i) => Some(i + 1),
            None => None,
        }
    }
}

pub open spec fn ids_view(ids: Seq<String>) -> Seq<Seq<char>> {
    ids.map_values(|s: String| s@)
}

proof fn lemma_first_index_found(ids: Seq<Seq<char>>, id: Seq<char>, i: int)
    requires
        0 <= i < ids.len(),
        ids[i] == id,
        forall|k: int| 0 <= k < i ==> ids[k] != id,
    ensures
        first_index_of(ids, id) == Some(i),
    decreases i,
{
    if i > 0 {
        lemma_first_index_found(ids.drop_first(), id, i - 1);
    }
}

/// The palette slot of `entity_id`'s chart line: its position in the
/// card's graphed entity list `group` (the first one when it is not
/// listed), cycling through the palette. Colours thus follow a line's
/// position in the card, not what it measures or which row opened the chart.
pub fn palette_index(group: &Vec<String>, entity_id: &str) -> (r: usize)
    ensures
        r == (match first_index_of(ids_view(group@), entity_id@) {
            Some(i) => i,
            None => 0,
        }) % (PALETTE_LEN as int),
{
    let ghost ids = ids_view(group@);
    let mut i: usize = 0;
    while i < group.len()
        invariant
            i <= group.len(),
            ids == ids_view(group@),
            forall|k: int| 0 <= k < i ==> ids[k] != entity_id@,
        decreases group.len() - i,
    {
        if str_eq(group[i].as_str(), entity_id) {
            proof {
                lemma_first_index_found(ids, entity_id@, i as int);
            }
            return i % PALETTE_LEN;
        }
        i = i + 1;
    }
    proof {
        lemma_first_index_absent(ids, entity_id@);
    }
    0
}

proof fn lemma_first_index_absent(ids: Seq<Seq<char>>, id: Seq<char>)
    requires
        forall|k: int| 0 <= k < ids.len() ==> ids[k] != id,
    ensures
        first_index_of(ids, id) is None,
    decreases ids.len(),
{
    if ids.len() > 0 {
        lemma_first_index_absent(ids.drop_first(), id);
    }
}

/// A rectangle of `width_pct`% x `height_pct`% of `area`, centred in it
/// (a rectangle wider or taller than `area` starts at its left or top edge).
pub fn centered_percent(area: Area, width_pct: u16, height_pct: u16) -> (r: Area)
    requires
        area.width * width_pct <= u16::MAX,
        area.height * height_pct <= u16::MAX,
        area.x + area.width <= u16::MAX,
        area.y + area.height <= u16::MAX,
    ensures
        r.width == area.width * width_pct / 100,
        r.height == area.height * height_pct / 100,
        r.x == area.x + (if area.width >= r.width { area.width - r.width } else { 0 }) / 2,
        r.y == area.y + (if area.height >= r.height { area.height - r.height } else { 0 }) / 2,
{
    let w: u16 = area.width * width_pct / 100;
    let h: u16 = area.height * height_pct / 100;
    let spare_w: u16 = if area.width >= w { area.width - w } else { 0 };
    let spare_h: u16 = if area.height >= h { area.height - h } else { 0 };
    Area {
        x: area.x + spare_w / 2,
        y: area.y + spare_h / 2,
        width: w,
        height: h,
    }
}

/// `v` clamped into `[lo, hi]`.
pub open spec fn clamp_int(v: int, lo: int, hi: int) -> int {
    if v < lo { lo } else if v > hi { hi } else { v }
}

/// How many time labels fit under a chart `width` cells wide: one per 12
/// cells, between 2 and 8.
pub fn x_tick_count(width: u16) -> (r: usize)
    ensures
        r == clamp_int(width as int / 12, 2, 8),
{
    let n = width / 12;
    (if n < 2 { 2 } else if n > 8 { 8 } else { n }) as usize
}

/// How many value labels fit beside a chart `height` cells tall: one per 4
/// cells, between 2 and 6.
pub fn y_tick_count(height: u16) -> (r: usize)
    ensures
        r == clamp_int(height as int / 4, 2, 6),
{
    let n = height / 4;
    (if n < 2 { 2 } else if n > 6 { 6 } else { n }) as usize
}

/// The chart's plotting rows inside the bordered `chart` area: its top row
/// and how many rows it spans, leaving the bottom two inner rows to the
/// time axis line and its labels (as the chart widget lays itself out).
pub open spec fn graph_rows(chart: Area) -> (int, int) {
    let top = sat_add_u16(chart.y as int, 1);
    let bottom = sat_add_u16(top, sat_sub(chart.height as int, 2));
    let y0 = sat_sub(bottom, 1);
    let y1 = if y0 > top { y0 - 1 } else { y0 };
    let y2 = if y1 > top { y1 - 1 } else { y1 };
    (top, sat_add_u16(sat_sub(y2, top), 1))
}

/// The row of value tick `i` of `n` on a plot starting at row `top` and
/// `height` rows tall: the first at the bottom, the last at the top, the
/// others spread evenly (rounded down) in between.
pub open spec fn tick_row(top: int, height: int, i: int, n: int) -> int {
    let dy = if n > 1 { i * sat_sub(height, 1) / (n - 1) } else { 0 };
    top + sat_sub(sat_sub(height, 1), dy)
}

/// The value ticks among the first `k` that land inside `area`, with their rows.
pub open spec fn ticks_upto(chart: Area, area: Area, n: int, k: int) -> Seq<(usize, u16)>
    decreases k,
{
    if k <= 0 {
        Seq::empty()
    } else {
        let before = ticks_upto(chart, area, n, k - 1);
        let (top, height) = graph_rows(chart);
        let row = tick_row(top, height, k - 1, n);
        if area.y <= row < sat_add_u16(area.y as int, area.height as int) {
            before.push(((k - 1) as usize, row as u16))
        } else {
            before
        }
    }
}

/// The rows of the secondary value axis's `n` tick labels, drawn in the
/// strip right of the chart area `chart` inside the popup `area`: at the
/// rows the chart puts its own ticks, those that fall inside the popup;
/// none when the strip has no room.
pub open spec fn gutter_ticks(chart: Area, area: Area, n: int) -> Seq<(usize, u16)> {
    if sat_sub(sat_add_u16(area.x as int, area.width as int), sat_add_u16(chart.x as int, chart.width as int)) == 0 {
        Seq::empty()
    } else {
        ticks_upto(chart, area, n, n)
    }
}

/// The plot's top row and height in rows (`graph_rows`).
fn plot_rows(chart: Area) -> (r: (u16, u16))
    ensures
        graph_rows(chart) == (r.0 as int, r.1 as int),
        r.1 >= 1,
        r.0 as int + r.1 - 1 <= u16::MAX,
{
    let top: u16 = if chart.y < u16::MAX { chart.y + 1 } else { u16::MAX };
    let inner_h: u16 = if chart.height > 2 { chart.height - 2 } else { 0 };
    let bottom: u16 = if top as u32 + inner_h as u32 <= u16::MAX as u32 { top + inner_h } else { u16::MAX };
    let mut y: u16 = if bottom > 0 { bottom - 1 } else { 0 };
    if y > top {
        y = y - 1;
    }
    if y > top {
        y = y - 1;
    }
    let span: u16 = if y > top { y - top } else { 0 };
    let height: u16 = if span < u16::MAX { span + 1 } else { u16::MAX };
    (top, height)
}

/// Whether `n` value ticks can be spread over the plot of `chart` in cell
/// arithmetic (what `gutter_tick_rows` needs).
pub fn graph_rows_fit(chart: Area, n: usize) -> (r: bool)
    ensures
        r == (n <= u16::MAX && (n > 1 ==> (n - 1) * (graph_rows(chart).1 - 1) <= u16::MAX)),
{
    let (_, height) = plot_rows(chart);
    if n > u16::MAX as usize {
        return false;
    }
    if n <= 1 {
        return true;
    }
    let a: u64 = (n - 1) as u64;
    let b: u64 = (height - 1) as u64;
    assert(a * b <= 0xffff * 0xffff) by (nonlinear_arith)
        requires
            a <= 0xffff,
            b <= 0xffff,
    ;
    a * b <= u16::MAX as u64
}

/// Each drawn secondary tick label's index and row (see `gutter_ticks`).
pub fn gutter_tick_rows(chart: Area, area: Area, n: usize) -> (r: Vec<(usize, u16)>)
    requires
        n <= u16::MAX,
        n > 1 ==> (n - 1) * (graph_rows(chart).1 - 1) <= u16::MAX,
    ensures
        r@ == gutter_ticks(chart, area, n as int),
{
    let (top, height) = plot_rows(chart);
    let right: u16 = if area.x as u32 + area.width as u32 <= u16::MAX as u32 { area.x + area.width } else { u16::MAX };
    let chart_right: u16 = if chart.x as u32 + chart.width as u32 <= u16::MAX as u32 { chart.x + chart.width } else { u16::MAX };
    let mut r: Vec<(usize, u16)> = Vec::new();
    if right <= chart_right {
        return r;
    }
    let area_bottom: u16 = if area.y as u32 + area.height as u32 <= u16::MAX as u32 { area.y + area.height } else { u16::MAX };
    let mut i: usize = 0;
    while i < n
        invariant
            i <= n,
            n <= u16::MAX,
            n > 1 ==> (n - 1) * (height - 1) <= u16::MAX,
            graph_rows(chart) == (top as int, height as int),
            height >= 1,
            top as int + height - 1 <= u16::MAX,
            area_bottom == sat_add_u16(area.y as int, area.height as int),
            r@ == ticks_upto(chart, area, n as int, i as int),
        decreases n - i,
    {
        let dy: u16 = if n > 1 {
            assert(i * (height - 1) <= (n - 1) * (height - 1)) by (nonlinear_arith)
                requires
                    i < n,
                    height >= 1,
            ;
            (i as u16) * (height - 1) / ((n as u16) - 1)
        } else {
            0
        };
        let from_bottom: u16 = if height - 1 > dy { height - 1 - dy } else { 0 };
        let row: u16 = top + from_bottom;
        assert(row as int == tick_row(top as int, height as int, i as int, n as int));
        if area.y <= row && row < area_bottom {
            r.push((i, row));
        }
        i = i + 1;
    }
    r
}

} // verus!
