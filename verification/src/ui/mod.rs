//! The screen layout arithmetic the terminal UI draws by: the card grid,
//! the clickable tab and row areas, the centred overlays, the chart's line
//! colours. The drawing itself happens around the library.
use vstd::prelude::*;
use crate::app::state::AppState;

pub mod cards;
pub mod detail;
pub mod help;
pub mod tabs;

verus! {

/// A rectangle of terminal cells.
#[derive(Debug, Clone, Copy, PartialEq, Eq, Structural)]
pub struct Area {
    pub x: u16,
    pub y: u16,
    pub width: u16,
    pub height: u16,
}

impl Area {
    /// The cell at column `col`, row `row` lies inside the rectangle.
    pub open spec fn spec_contains(self, col: int, row: int) -> bool {
        self.x <= col < self.x + self.width && self.y <= row < self.y + self.height
    }

    /// Whether the cell at column `col`, row `row` lies inside.
    pub fn contains(&self, col: u16, row: u16) -> (r: bool)
        ensures
            r == self.spec_contains(col as int, row as int),
    {
        let x = self.x as u32;
        let y = self.y as u32;
        x <= col as u32 && (col as u32) < x + self.width as u32 && y <= row as u32 && (row as u32) < y + self.height as u32
    }
}

/// What the status bar at the bottom shows.
#[derive(Debug, PartialEq, Eq)]
pub enum StatusLine {
    /// The search query being typed (drawn after a `/`).
    Query(String),
    /// A transient status message.
    Message(String),
    /// The keybinding reminder.
    Help,
}

/// The status bar: the query while a search is typed, else the status
/// message if one is shown, else the keybinding reminder.
pub fn status_line(app: &AppState) -> (r: StatusLine)
    ensures
        app@.filter matches Some(f) ==> (f.editing ==> (r matches StatusLine::Query(q) && q@ == f.query)),
        !(app@.filter matches Some(f) && f.editing) ==> match app@.status {
            Some((m, _)) => r matches StatusLine::Message(t) && t@ == m,
            None => r is Help,
        },
{
    if app.is_filter_editing() {
        let q = match app.filter_query() {
            Some(q) => String::from_str(q),
            None => String::new(),
        };
        return StatusLine::Query(q);
    }
    match app.status_message() {
        Some(m) => StatusLine::Message(String::from_str(m)),
        None => StatusLine::Help,
    }
}

/// What is drawn over the main screen.
#[derive(Debug, PartialEq, Eq)]
pub enum Overlay {
    /// The history chart of this entity.
    Detail(String),
    /// The keybindings.
    Help,
    Nothing,
}

/// The chart popup when one is open, else the keybindings when asked for.
pub fn overlay(app: &AppState) -> (r: Overlay)
    ensures
        match app@.detail_entity {
            Some(id) => r matches Overlay::Detail(d) && d@ == id,
            None => if app@.show_help { r is Help } else { r is Nothing },
        },
{
    match app.detail_entity() {
        Some(id) => Overlay::Detail(String::from_str(id)),
        None => if app.help_shown() { Overlay::Help } else { Overlay::Nothing },
    }
}

} // verus!
