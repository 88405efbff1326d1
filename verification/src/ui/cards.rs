//! The card grid: how many panels fit side by side, how tall each grid
//! row is, which panel row the flat selection falls on, how many rows a
//! panel shows, and the cells each shown row occupies.
use vstd::prelude::*;
use crate::app::entity::Entity;
use crate::text::{chars_of, push_char, string_from_chars, str_eq};
use crate::ui::Area;
use crate::ui::detail::clamp_int;

verus! {

/// The panel width the grid aims for, in cells.
pub const TARGET_CARD_WIDTH: u16 = 34;
/// The most panels side by side.
pub const MAX_COLUMNS: usize = 4;
/// The lowest and highest a grid row is drawn, borders included.
pub const MIN_CARD_HEIGHT: u16 = 3;
pub const MAX_CARD_HEIGHT: u16 = 12;

/// How many panels go side by side in a grid `width` cells wide holding
/// `n_cards` panels: one per 34 cells (at least one), at most 4, and never
/// more than there are panels.
pub open spec fn spec_columns_for(width: int, n_cards: int) -> int {
    let fit = if width / (TARGET_CARD_WIDTH as int) < 1 { 1 } else { width / (TARGET_CARD_WIDTH as int) };
    let capped = if fit > MAX_COLUMNS { MAX_COLUMNS as int } else { fit };
    if capped > n_cards { n_cards } else { capped }
}

pub fn columns_for(width: u16, n_cards: usize) -> (r: usize)
    ensures
        r == spec_columns_for(width as int, n_cards as int),
{
    let fit = width / TARGET_CARD_WIDTH;
    let fit: usize = if fit < 1 { 1 } else { fit as usize };
    let capped = if fit > MAX_COLUMNS { MAX_COLUMNS } else { fit };
    if capped > n_cards { n_cards } else { capped }
}

/// The (panel, row) that flat position `flat` falls on, when the panels
/// hold `lens` rows each, in order.
pub open spec fn cell_of(lens: Seq<usize>, flat: int) -> Option<(int, int)>
    decreases lens.len(),
{
    if lens.len() == 0 {
        None
    } else if flat < lens[0] {
        Some((0, flat))
    } else {
        match cell_of(lens.drop_first(), flat - lens[0]) {
            Some((c, r)) => Some((c + 1, r)),
            None => None,
        }
    }
}

/// `cell` moved `k` panels along.
pub open spec fn shifted(cell: Option<(int, int)>, k: int) -> Option<(int, int)> {
    match cell {
        Some((c, r)) => Some((c + k, r)),
        None => None,
    }
}

/// Maps the flat selection index onto (panel, row within the panel), so
/// the highlight lands on the right row of the right panel. `None` when
/// the index lies past every panel's rows.
pub fn selected_cell(lens: &Vec<usize>, flat: usize) -> (r: Option<(usize, usize)>)
    ensures
        match r {
            Some((c, row)) => cell_of(lens@, flat as int) == Some((c as int, row as int)),
            None => cell_of(lens@, flat as int) is None,
        },
{
    let mut running: usize = 0;
    let mut i: usize = 0;
    assert(lens@.skip(0) =~= lens@);
    while i < lens.len()
        invariant
            i <= lens.len(),
            running <= flat,
            cell_of(lens@, flat as int) == shifted(cell_of(lens@.skip(i as int), flat - running), i as int),
        decreases lens.len() - i,
    {
        assert(lens@.skip(i as int).drop_first() =~= lens@.skip(i + 1));
        if flat - running < lens[i] {
            return Some((i, flat - running));
        }
        running = running + lens[i];
        i = i + 1;
    }
    None
}

/// The largest of `lens[start..end]` (0 for none).
pub open spec fn max_in(lens: Seq<usize>, start: int, end: int) -> int
    decreases end - start,
{
    if end <= start {
        0
    } else {
        let rest = max_in(lens, start, end - 1);
        if lens[end - 1] > rest { lens[end - 1] as int } else { rest }
    }
}

/// The height of each grid row when the panels, holding `lens` rows each,
/// are laid out `columns` to a grid row: the tallest panel's rows plus its
/// two borders, kept between 3 and 12.
pub open spec fn grid_row_heights(lens: Seq<usize>, columns: int) -> Seq<int> {
    Seq::new(
        ((lens.len() + columns - 1) / columns) as nat,
        |k: int| clamp_int(max_in(lens, k * columns, if (k + 1) * columns < lens.len() { (k + 1) * columns } else { lens.len() as int }) + 2,
            MIN_CARD_HEIGHT as int, MAX_CARD_HEIGHT as int),
    )
}

proof fn lemma_ceil_div(len: int, c: int, k: int)
    by (nonlinear_arith)
    requires
        c >= 1,
        len >= 0,
        k >= 0,
    ensures
        k * c < len ==> k < (len + c - 1) / c,
        (k == 0 && len == 0) ==> (len + c - 1) / c == 0,
        (k >= 1 && (k - 1) * c < len && len <= k * c) ==> k == (len + c - 1) / c,
{
}

pub fn row_heights(lens: &Vec<usize>, columns: usize) -> (r: Vec<u16>)
    requires
        columns >= 1,
        lens.len() + columns <= usize::MAX,
    ensures
        r@.len() == grid_row_heights(lens@, columns as int).len(),
        forall|k: int| 0 <= k < r@.len() ==> r@[k] as int == #[trigger] grid_row_heights(lens@, columns as int)[k],
{
    let ghost want = grid_row_heights(lens@, columns as int);
    let mut r: Vec<u16> = Vec::new();
    let mut start: usize = 0;
    let mut k: usize = 0;
    proof {
        lemma_ceil_div(lens.len() as int, columns as int, 0);
    }
    while start < lens.len()
        invariant
            columns >= 1,
            lens.len() + columns <= usize::MAX,
            want == grid_row_heights(lens@, columns as int),
            start < lens.len() ==> start == k * columns,
            start <= lens.len(),
            r@.len() == k,
            start < lens.len() ==> k < want.len(),
            start >= lens.len() ==> k == want.len(),
            forall|j: int| 0 <= j < k ==> r@[j] as int == #[trigger] want[j],
        decreases lens.len() - start,
    {
        let end: usize = if start + columns < lens.len() { start + columns } else { lens.len() };
        let mut m: usize = 0;
        let mut i: usize = start;
        while i < end
            invariant
                start <= i <= end <= lens.len(),
                m == max_in(lens@, start as int, i as int),
            decreases end - i,
        {
            if lens[i] > m {
                m = lens[i];
            }
            i = i + 1;
        }
        let h: u16 = if m >= 10 { MAX_CARD_HEIGHT } else if m + 2 < 3 { MIN_CARD_HEIGHT } else { (m + 2) as u16 };
        proof {
            assert((k + 1) * columns == start + columns) by (nonlinear_arith)
                requires start == k * columns;
            assert(want[k as int] == clamp_int(m + 2, 3, 12));
        }
        r.push(h);
        proof {
            lemma_ceil_div(lens.len() as int, columns as int, k + 1);
            assert(k * columns < lens.len());
        }
        start = end;
        k = k + 1;
    }
    r
}

/// `a - b`, or 0 when `b` exceeds `a`.
pub open spec fn sat_sub(a: int, b: int) -> int {
    if a > b { a - b } else { 0 }
}

/// How a panel `height` x `width` cells large shows `n` rows.
#[derive(Debug, Clone, Copy, PartialEq, Eq, Structural)]
pub struct PanelRows {
    /// The entity rows drawn.
    pub visible_count: usize,
    /// The rows left out, summed up in a last `+N more` line (0 when none).
    pub hidden: usize,
    /// The width of the name column; the state text gets the rest.
    pub name_width: usize,
}

/// The rows inside a panel's borders.
pub open spec fn panel_capacity(height: int) -> int {
    sat_sub(height, 2)
}

/// A panel is cut short when it has rows to draw into but fewer than it
/// has entities.
pub open spec fn panel_truncated(height: int, n: int) -> bool {
    panel_capacity(height) > 0 && n > panel_capacity(height)
}

/// The name column: about 55% of the inner width, at least 10 cells, and
/// leaving 4 cells for the state when there is room.
pub open spec fn spec_name_width(width: int) -> int {
    let inner = sat_sub(width, 2);
    let upper = if sat_sub(inner, 4) > 10 { sat_sub(inner, 4) } else { 10 };
    clamp_int(inner * 55 / 100, 10, upper)
}

/// How a panel of `height` x `width` cells lays out `n` entity rows: when
/// they do not all fit, the last row inside the borders says how many more
/// there are.
pub fn panel_rows(height: u16, width: u16, n: usize) -> (r: PanelRows)
    ensures
        r.visible_count == (if panel_truncated(height as int, n as int) { panel_capacity(height as int) - 1 } else { n as int }),
        r.hidden == (if panel_truncated(height as int, n as int) { n - r.visible_count } else { 0 }),
        r.name_width == spec_name_width(width as int),
{
    let capacity: usize = if height > 2 { (height - 2) as usize } else { 0 };
    let truncated = capacity > 0 && n > capacity;
    let visible_count: usize = if truncated { capacity - 1 } else { n };
    let hidden: usize = if truncated { n - visible_count } else { 0 };
    let inner: usize = if width > 2 { (width - 2) as usize } else { 0 };
    let upper: usize = if inner > 4 && inner - 4 > 10 { inner - 4 } else { 10 };
    let wanted: usize = inner * 55 / 100;
    let name_width = if wanted < 10 { 10 } else if wanted > upper { upper } else { wanted };
    PanelRows { visible_count, hidden, name_width }
}

/// `s` cut to at most `max` characters, its last kept character replaced by
/// an ellipsis when anything was cut.
pub open spec fn truncated_text(s: Seq<char>, max: int) -> Seq<char> {
    if s.len() <= max {
        s
    } else {
        s.take(sat_sub(max, 1)).push('\u{2026}')
    }
}

/// `s` shortened to fit `max` characters (see `truncated_text`).
pub fn truncate(s: &str, max: usize) -> (r: String)
    ensures
        r@ == truncated_text(s@, max as int),
{
    let cs = chars_of(s);
    if cs.len() <= max {
        return String::from_str(s);
    }
    let keep: usize = if max > 0 { max - 1 } else { 0 };
    let mut kept: Vec<char> = Vec::new();
    let mut i: usize = 0;
    while i < keep
        invariant
            keep < cs.len(),
            i <= keep,
            kept@ == cs@.take(i as int),
        decreases keep - i,
    {
        kept.push(cs[i]);
        i = i + 1;
        assert(kept@ =~= cs@.take(i as int));
    }
    let mut r = string_from_chars(&kept);
    push_char(&mut r, '\u{2026}');
    r
}

/// How an entity's row is coloured.
#[derive(Debug, Clone, Copy, PartialEq, Eq, Structural)]
pub enum RowTone {
    /// `unavailable` or `unknown`: dimmed.
    Unavailable,
    /// On or active.
    On,
    /// Anything else.
    Normal,
}

/// The colour class of an entity's row: unavailable/unknown dims it, a
/// light or switch that is on (or any entity whose state is `on`) shows it
/// as active.
pub fn row_tone(entity: &Entity) -> (r: RowTone)
    ensures
        r == (if entity.state@ == "unavailable"@ || entity.state@ == "unknown"@ {
            RowTone::Unavailable
        } else if entity.state@ == "on"@ {
            RowTone::On
        } else {
            RowTone::Normal
        }),
{
    if entity.is_unavailable() {
        return RowTone::Unavailable;
    }
    let light_on = match entity.as_light() {
        Some(l) => l.is_on(),
        None => false,
    };
    let switch_on = match entity.as_switch() {
        Some(sw) => sw.is_on(),
        None => false,
    };
    if light_on || switch_on || str_eq(entity.state.as_str(), "on") {
        RowTone::On
    } else {
        RowTone::Normal
    }
}

/// An entity row's cells in the last drawn frame, and which (panel, row)
/// of the grid it shows: lets a click be mapped back to a selection.
#[derive(Debug, Clone, Copy, PartialEq, Eq, Structural)]
pub struct RowHit {
    pub area: Area,
    pub card: usize,
    pub row: usize,
}

/// `a + b`, or `u16::MAX` when that does not fit.
pub open spec fn sat_add_u16(a: int, b: int) -> int {
    if a + b <= u16::MAX { a + b } else { u16::MAX as int }
}

/// The rows drawn in panel `card` at `area` when it shows `visible_count`
/// entity rows: inside the borders, one line each from the top, as many as
/// fit.
pub open spec fn spec_row_hits(area: Area, card: usize, visible_count: int) -> Seq<RowHit> {
    let inner_h = sat_sub(area.height as int, 2);
    let n = if visible_count < inner_h { visible_count } else { inner_h };
    Seq::new(n as nat, |i: int| RowHit {
        area: Area {
            x: sat_add_u16(area.x as int, 1) as u16,
            y: (sat_add_u16(area.y as int, 1) + i) as u16,
            width: sat_sub(area.width as int, 2) as u16,
            height: 1,
        },
        card,
        row: i as usize,
    })
}

pub fn row_hits(area: Area, card: usize, visible_count: usize) -> (r: Vec<RowHit>)
    requires
        area.y + area.height <= u16::MAX,
    ensures
        r@ == spec_row_hits(area, card, visible_count as int),
{
    let inner_h: usize = if area.height > 2 { (area.height - 2) as usize } else { 0 };
    let n: usize = if visible_count < inner_h { visible_count } else { inner_h };
    let x: u16 = if area.x < u16::MAX { area.x + 1 } else { u16::MAX };
    let y0: u16 = if area.y < u16::MAX { area.y + 1 } else { u16::MAX };
    let width: u16 = if area.width > 2 { area.width - 2 } else { 0 };
    let mut r: Vec<RowHit> = Vec::new();
    let mut i: usize = 0;
    while i < n
        invariant
            i <= n,
            n <= inner_h,
            inner_h == sat_sub(area.height as int, 2),
            area.y + area.height <= u16::MAX,
            y0 == sat_add_u16(area.y as int, 1),
            x == sat_add_u16(area.x as int, 1),
            width == sat_sub(area.width as int, 2),
            r@ == spec_row_hits(area, card, visible_count as int).take(i as int),
            n == (if visible_count < inner_h { visible_count as int } else { inner_h as int }),
        decreases n - i,
    {
        let hit = RowHit { area: Area { x, y: y0 + i as u16, width, height: 1 }, card, row: i };
        r.push(hit);
        i = i + 1;
        assert(r@ =~= spec_row_hits(area, card, visible_count as int).take(i as int));
    }
    assert(r@ =~= spec_row_hits(area, card, visible_count as int));
    r
}

} // verus!
