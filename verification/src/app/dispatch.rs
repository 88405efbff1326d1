//! What a key press does to the application state, whatever is on screen:
//! an overlay swallows the key and closes, a search being typed takes it as
//! an edit, otherwise it is a navigation or control action. The event loop
//! performs what comes back (quit, redraw, send a service call).
use vstd::prelude::*;
use crate::app::action::{binding, filter_binding, Action, FilterAction, KeyEvent, KeyEventKind};
use crate::app::state::{Adjustment, AppModel, AppState};
use crate::ha::client::Command;
use crate::ui::cards::RowHit;
use crate::ui::tabs::TabHit;
use crate::app::state::age;

verus! {

/// What the event loop does after a key.
pub enum KeyOutcome {
    /// Leave the application.
    Quit,
    /// Nothing visible changed; no redraw.
    Idle,
    /// Redraw.
    Redraw,
    /// Send this service call, and redraw.
    Send(Command),
    /// Step this climate entity's target temperature by half a degree in
    /// `direction` from `target` (computed by the caller), and redraw.
    Climate { entity_id: String, target: Option<String>, direction: i64 },
}

/// The action a key event asks for (only presses act).
pub open spec fn key_action(key: KeyEvent) -> Option<Action> {
    if key.kind == KeyEventKind::Press { binding(key.code) } else { None }
}

/// The search edit a key event asks for (only presses act).
pub open spec fn key_filter_action(key: KeyEvent) -> Option<FilterAction> {
    if key.kind == KeyEventKind::Press { filter_binding(key.code) } else { None }
}

/// The arithmetic of the navigation actions stays in range (as it does for
/// any real selection).
pub open spec fn can_navigate(m: AppModel, columns: usize) -> bool {
    &&& m.filter matches Some(f) ==> f.selected < usize::MAX
    &&& m.row < usize::MAX
    &&& m.card + columns <= usize::MAX
    &&& m.group < usize::MAX
    &&& m.group + m.tabs().len() <= usize::MAX
}

impl AppState {
    /// Whether the navigation arithmetic stays in range for `columns`
    /// panels per grid row (`can_navigate`), so the event loop can check it
    /// before handing a key or a mouse event over.
    pub fn can_navigate_with(&self, columns: usize) -> (r: bool)
        ensures
            r == can_navigate(self@, columns),
    {
        let names = self.group_names();
        let tab_count = names.len();
        assert(crate::config::strings_view(names@).len() == names@.len());
        assert(tab_count == self@.tabs().len());
        let (_, row_or_result) = self.selected_position();
        let (group, card, row) = self.selection();
        let filter_ok = !self.is_filtering() || row_or_result < usize::MAX;
        filter_ok && row < usize::MAX && card <= usize::MAX - columns && group < usize::MAX && group <= usize::MAX
            - tab_count
    }
}

impl AppModel {
    /// The outcome of an adjustment for the event loop.
    pub open spec fn adjust_outcome(self, direction: i64, now: u64, after: AppModel, r: KeyOutcome) -> bool {
        exists|adj: Option<Adjustment>| {
            &&& #[trigger] self.adjusted(direction, now, after, adj)
            &&& match adj {
                Some(Adjustment::Light(c)) => r == KeyOutcome::Send(c),
                Some(Adjustment::Climate { entity_id, target }) => r == (KeyOutcome::Climate { entity_id, target, direction }),
                None => r is Idle,
            }
        }
    }

    /// `after` and `r` are what key `key` does at time `now`, with
    /// `columns` panels per grid row on screen.
    pub open spec fn key_handled(self, key: KeyEvent, columns: usize, now: u64, after: AppModel, r: KeyOutcome) -> bool {
        if self.show_help {
            after == (AppModel { show_help: false, ..self }) && r is Redraw
        } else if self.detail_entity is Some {
            after == self.detail_closed() && r is Redraw
        } else if self.filter matches Some(f) && f.editing {
            match key_filter_action(key) {
                Some(FilterAction::Push(c)) => after == self.char_pushed(c) && r is Redraw,
                Some(FilterAction::Backspace) => after == self.backspaced() && r is Redraw,
                Some(FilterAction::Confirm) => after == self.filter_confirmed() && r is Redraw,
                Some(FilterAction::Cancel) => after == self.filter_cancelled() && r is Redraw,
                None => after == self && r is Idle,
            }
        } else {
            match key_action(key) {
                Some(Action::Quit) => after == self && r is Quit,
                Some(Action::MoveUp) => after == self.moved_up(columns) && r is Redraw,
                Some(Action::MoveDown) => after == self.moved_down(columns) && r is Redraw,
                Some(Action::MoveLeft) => after == self.moved_left(columns) && r is Redraw,
                Some(Action::MoveRight) => after == self.moved_right(columns) && r is Redraw,
                Some(Action::NextGroup) => after == self.tab_stepped(true, now) && r is Redraw,
                Some(Action::PrevGroup) => after == self.tab_stepped(false, now) && r is Redraw,
                Some(Action::StartFilter) => after == self.filter_started() && r is Redraw,
                Some(Action::ClearFilter) => if self.filter is Some {
                    after == self.filter_cancelled() && r is Redraw
                } else {
                    after == self && r is Idle
                },
                Some(Action::ShowHelp) => after == (AppModel { show_help: !self.show_help, ..self }) && r is Redraw,
                Some(Action::Toggle) => exists|act: (bool, Option<Command>)| {
                    &&& #[trigger] self.activated(now, after, act)
                    &&& match act.1 {
                        Some(c) => r == KeyOutcome::Send(c),
                        None => if act.0 { r is Redraw } else { r is Idle },
                    }
                },
                Some(Action::Increase) => self.adjust_outcome(1i64, now, after, r),
                Some(Action::Decrease) => self.adjust_outcome(-1i64, now, after, r),
                None => after == self && r is Idle,
            }
        }
    }
}

impl AppState {
    /// Handles key `key` at time `now` (see `key_handled`).
    pub fn handle_key_at(&mut self, key: KeyEvent, columns: usize, now: u64) -> (r: KeyOutcome)
        requires
            can_navigate(old(self)@, columns),
        ensures
            old(self)@.key_handled(key, columns, now, final(self)@, r),
    {
        if self.help_shown() {
            self.close_help();
            return KeyOutcome::Redraw;
        }
        if self.detail_entity().is_some() {
            self.close_detail();
            return KeyOutcome::Redraw;
        }
        if self.is_filter_editing() {
            return match FilterAction::from_key(key) {
                Some(FilterAction::Push(c)) => {
                    self.filter_push_char(c);
                    KeyOutcome::Redraw
                },
                Some(FilterAction::Backspace) => {
                    self.filter_backspace();
                    KeyOutcome::Redraw
                },
                Some(FilterAction::Confirm) => {
                    self.confirm_filter();
                    KeyOutcome::Redraw
                },
                Some(FilterAction::Cancel) => {
                    self.cancel_filter();
                    KeyOutcome::Redraw
                },
                None => KeyOutcome::Idle,
            };
        }
        match Action::from_key(key) {
            Some(Action::Quit) => KeyOutcome::Quit,
            Some(Action::MoveUp) => {
                self.move_up(columns);
                KeyOutcome::Redraw
            },
            Some(Action::MoveDown) => {
                self.move_down(columns);
                KeyOutcome::Redraw
            },
            Some(Action::MoveLeft) => {
                self.move_left(columns);
                KeyOutcome::Redraw
            },
            Some(Action::MoveRight) => {
                self.move_right(columns);
                KeyOutcome::Redraw
            },
            Some(Action::NextGroup) => {
                self.step_group(true, now);
                KeyOutcome::Redraw
            },
            Some(Action::PrevGroup) => {
                self.step_group(false, now);
                KeyOutcome::Redraw
            },
            Some(Action::StartFilter) => {
                self.start_filter();
                KeyOutcome::Redraw
            },
            Some(Action::ClearFilter) => {
                if self.is_filtering() {
                    self.cancel_filter();
                    KeyOutcome::Redraw
                } else {
                    KeyOutcome::Idle
                }
            },
            Some(Action::ShowHelp) => {
                self.toggle_help();
                KeyOutcome::Redraw
            },
            Some(Action::Toggle) => {
                let act = self.activate_selected_at(now);
                let (did, cmd) = act;
                match cmd {
                    Some(c) => KeyOutcome::Send(c),
                    None => if did { KeyOutcome::Redraw } else { KeyOutcome::Idle },
                }
            },
            Some(Action::Increase) => self.adjust_outcome_at(1, now),
            Some(Action::Decrease) => self.adjust_outcome_at(-1, now),
            None => KeyOutcome::Idle,
        }
    }

    fn adjust_outcome_at(&mut self, direction: i64, now: u64) -> (r: KeyOutcome)
        requires
            direction == 1 || direction == -1,
        ensures
            old(self)@.adjust_outcome(direction, now, final(self)@, r),
    {
        let adj = self.adjust_selected_at(direction, now);
        match adj {
            Some(Adjustment::Light(c)) => KeyOutcome::Send(c),
            Some(Adjustment::Climate { entity_id, target }) => KeyOutcome::Climate { entity_id, target, direction },
            None => KeyOutcome::Idle,
        }
    }
}

impl AppState {
    /// Handles key `key` now (see `key_handled`).
    pub fn handle_key(&mut self, key: KeyEvent, columns: usize) -> (r: KeyOutcome)
        requires
            can_navigate(old(self)@, columns),
        ensures
            exists|now: u64| old(self)@.stamps_at_most(now) && #[trigger] old(self)@.key_handled(key, columns, now, final(self)@, r),
    {
        let now = self.elapsed_ns();
        self.handle_key_at(key, columns, now)
    }
}

/// Two left clicks on the same row within this long count as a double-click.
pub const DOUBLE_CLICK_NS: u64 = 400_000_000;

/// The kinds of mouse event the client reacts to.
#[derive(Debug, Clone, Copy, PartialEq, Eq, Structural)]
pub enum MouseKind {
    /// The left button went down.
    LeftDown,
    ScrollUp,
    ScrollDown,
    /// Anything else (moves, drags, releases, other buttons).
    Other,
}

/// One mouse event at a terminal cell.
#[derive(Debug, Clone, Copy, PartialEq, Eq, Structural)]
pub struct MouseEvent {
    pub kind: MouseKind,
    pub column: u16,
    pub row: u16,
}

/// The first tab title under the cell, if any.
pub open spec fn tab_under(tabs: Seq<TabHit>, col: u16, row: u16) -> Option<TabHit>
    decreases tabs.len(),
{
    if tabs.len() == 0 {
        None
    } else if tabs[0].area.spec_contains(col as int, row as int) {
        Some(tabs[0])
    } else {
        tab_under(tabs.drop_first(), col, row)
    }
}

/// The first entity row under the cell, if any.
pub open spec fn row_under(rows: Seq<RowHit>, col: u16, row: u16) -> Option<RowHit>
    decreases rows.len(),
{
    if rows.len() == 0 {
        None
    } else if rows[0].area.spec_contains(col as int, row as int) {
        Some(rows[0])
    } else {
        row_under(rows.drop_first(), col, row)
    }
}

/// The last click on a row: when, and which (panel, row).
pub type LastClick = Option<(u64, usize, usize)>;

impl AppModel {
    /// `after`, `r` and `click` are what mouse event `ev` does at time
    /// `now`, given the tab and row areas of the last drawn frame and the
    /// last click on a row. Only a left press or a scroll acts: either
    /// closes an open overlay; a scroll moves the selection; a click on a
    /// tab switches to it, a click on a row selects it, and a second click
    /// on the same row within the double-click window activates it.
    pub open spec fn mouse_handled(
        self,
        ev: MouseEvent,
        tabs: Seq<TabHit>,
        rows: Seq<RowHit>,
        last: LastClick,
        columns: usize,
        now: u64,
        after: AppModel,
        r: KeyOutcome,
        click: LastClick,
    ) -> bool {
        if ev.kind == MouseKind::Other {
            after == self && r is Idle && click == last
        } else if self.show_help {
            after == (AppModel { show_help: false, ..self }) && r is Redraw && click == last
        } else if self.detail_entity is Some {
            after == self.detail_closed() && r is Redraw && click == last
        } else if self.filter matches Some(f) && f.editing {
            after == self && r is Idle && click == last
        } else if ev.kind == MouseKind::ScrollUp {
            after == self.moved_up(columns) && r is Redraw && click == last
        } else if ev.kind == MouseKind::ScrollDown {
            after == self.moved_down(columns) && r is Redraw && click == last
        } else {
            match tab_under(tabs, ev.column, ev.row) {
                Some(t) => after == self.tab_switched(t.index, now) && r is Redraw && click == last,
                None => match row_under(rows, ev.column, ev.row) {
                    Some(h) => {
                        let picked = self.selected_at(h.card, h.row);
                        let double = last matches Some((at, c, rw)) && c == h.card && rw == h.row && age(now, at) < DOUBLE_CLICK_NS;
                        if double {
                            &&& click is None
                            &&& exists|act: (bool, Option<Command>)| {
                                &&& #[trigger] picked.activated(now, after, act)
                                &&& match act.1 {
                                    Some(c) => r == KeyOutcome::Send(c),
                                    None => if act.0 { r is Redraw } else { r is Idle },
                                }
                            }
                        } else {
                            after == picked && r is Redraw && click == Some((now, h.card, h.row))
                        }
                    },
                    None => after == self && r is Idle && click == last,
                },
            }
        }
    }
}

fn find_tab(tabs: &Vec<TabHit>, col: u16, row: u16) -> (r: Option<TabHit>)
    ensures
        r == tab_under(tabs@, col, row),
{
    let mut i: usize = 0;
    assert(tabs@.skip(0) =~= tabs@);
    while i < tabs.len()
        invariant
            i <= tabs.len(),
            tab_under(tabs@, col, row) == tab_under(tabs@.skip(i as int), col, row),
        decreases tabs.len() - i,
    {
        assert(tabs@.skip(i as int).drop_first() =~= tabs@.skip(i + 1));
        if tabs[i].area.contains(col, row) {
            return Some(tabs[i]);
        }
        i = i + 1;
    }
    None
}

fn find_row(rows: &Vec<RowHit>, col: u16, row: u16) -> (r: Option<RowHit>)
    ensures
        r == row_under(rows@, col, row),
{
    let mut i: usize = 0;
    assert(rows@.skip(0) =~= rows@);
    while i < rows.len()
        invariant
            i <= rows.len(),
            row_under(rows@, col, row) == row_under(rows@.skip(i as int), col, row),
        decreases rows.len() - i,
    {
        assert(rows@.skip(i as int).drop_first() =~= rows@.skip(i + 1));
        if rows[i].area.contains(col, row) {
            return Some(rows[i]);
        }
        i = i + 1;
    }
    None
}

impl AppState {
    /// Handles mouse event `ev` at time `now` (see `mouse_handled`); hands
    /// back the outcome and the click to remember for double-clicks.
    pub fn handle_mouse_at(
        &mut self,
        ev: MouseEvent,
        tabs: &Vec<TabHit>,
        rows: &Vec<RowHit>,
        last: LastClick,
        columns: usize,
        now: u64,
    ) -> (r: (KeyOutcome, LastClick))
        requires
            can_navigate(old(self)@, columns),
        ensures
            old(self)@.mouse_handled(ev, tabs@, rows@, last, columns, now, final(self)@, r.0, r.1),
    {
        if ev.kind == MouseKind::Other {
            return (KeyOutcome::Idle, last);
        }
        if self.help_shown() {
            self.close_help();
            return (KeyOutcome::Redraw, last);
        }
        if self.detail_entity().is_some() {
            self.close_detail();
            return (KeyOutcome::Redraw, last);
        }
        if self.is_filter_editing() {
            return (KeyOutcome::Idle, last);
        }
        if ev.kind == MouseKind::ScrollUp {
            self.move_up(columns);
            return (KeyOutcome::Redraw, last);
        }
        if ev.kind == MouseKind::ScrollDown {
            self.move_down(columns);
            return (KeyOutcome::Redraw, last);
        }
        match find_tab(tabs, ev.column, ev.row) {
            Some(t) => {
                self.select_group_at(t.index, now);
                return (KeyOutcome::Redraw, last);
            },
            None => {},
        }
        match find_row(rows, ev.column, ev.row) {
            Some(h) => {
                self.select(h.card, h.row);
                let double = match last {
                    Some((at, c, rw)) => c == h.card && rw == h.row && (if now >= at { now - at } else { 0 }) < DOUBLE_CLICK_NS,
                    None => false,
                };
                if double {
                    let act = self.activate_selected_at(now);
                        let (did, cmd) = act;
                    let outcome = match cmd {
                        Some(c) => KeyOutcome::Send(c),
                        None => if did { KeyOutcome::Redraw } else { KeyOutcome::Idle },
                    };
                    (outcome, None)
                } else {
                    (KeyOutcome::Redraw, Some((now, h.card, h.row)))
                }
            },
            None => (KeyOutcome::Idle, last),
        }
    }

    /// Handles mouse event `ev` now (see `handle_mouse_at`).
    pub fn handle_mouse(
        &mut self,
        ev: MouseEvent,
        tabs: &Vec<TabHit>,
        rows: &Vec<RowHit>,
        last: LastClick,
        columns: usize,
    ) -> (r: (KeyOutcome, LastClick))
        requires
            can_navigate(old(self)@, columns),
        ensures
            exists|now: u64| old(self)@.stamps_at_most(now) && #[trigger] old(self)@.mouse_handled(ev, tabs@, rows@, last, columns, now, final(self)@, r.0, r.1),
    {
        let now = self.elapsed_ns();
        self.handle_mouse_at(ev, tabs, rows, last, columns, now)
    }
}

/// Keyboard and mouse activation agree: a double-click on the row that is
/// already selected does exactly what Enter does.
pub proof fn lemma_double_click_activates_like_enter(
    m: AppModel,
    ev: MouseEvent,
    tabs: Seq<TabHit>,
    rows: Seq<RowHit>,
    last: LastClick,
    columns: usize,
    now: u64,
    after: AppModel,
    r: KeyOutcome,
    click: LastClick,
)
    requires
        ev.kind == MouseKind::LeftDown,
        m.filter is Some ==> !m.filter.unwrap().editing,
        tab_under(tabs, ev.column, ev.row) is None,
        row_under(rows, ev.column, ev.row) is Some,
        m.selected_at(row_under(rows, ev.column, ev.row).unwrap().card, row_under(rows, ev.column, ev.row).unwrap().row) == m,
        last is Some,
        last.unwrap().1 == row_under(rows, ev.column, ev.row).unwrap().card,
        last.unwrap().2 == row_under(rows, ev.column, ev.row).unwrap().row,
        age(now, last.unwrap().0) < DOUBLE_CLICK_NS,
        m.mouse_handled(ev, tabs, rows, last, columns, now, after, r, click),
    ensures
        m.key_handled(KeyEvent { code: crate::app::action::KeyCode::Enter, kind: KeyEventKind::Press }, columns, now, after, r),
{
    let enter = KeyEvent { code: crate::app::action::KeyCode::Enter, kind: KeyEventKind::Press };
    assert(key_action(enter) == Some(Action::Toggle));
}

/// A left click on a row other than the last clicked one (in the same panel
/// or not), or with no click remembered, never activates anything: it only
/// selects that row and is remembered as the last click, at `now`.
pub proof fn lemma_click_on_another_row_only_selects(
    m: AppModel,
    ev: MouseEvent,
    tabs: Seq<TabHit>,
    rows: Seq<RowHit>,
    last: LastClick,
    columns: usize,
    now: u64,
    after: AppModel,
    r: KeyOutcome,
    click: LastClick,
)
    requires
        ev.kind == MouseKind::LeftDown,
        !m.show_help,
        m.detail_entity is None,
        m.filter is Some ==> !m.filter.unwrap().editing,
        tab_under(tabs, ev.column, ev.row) is None,
        row_under(rows, ev.column, ev.row) is Some,
        last is Some ==> (last.unwrap().1 != row_under(rows, ev.column, ev.row).unwrap().card
            || last.unwrap().2 != row_under(rows, ev.column, ev.row).unwrap().row),
        m.mouse_handled(ev, tabs, rows, last, columns, now, after, r, click),
    ensures
        after == m.selected_at(row_under(rows, ev.column, ev.row).unwrap().card, row_under(rows, ev.column, ev.row).unwrap().row),
        r is Redraw,
        click == Some((now, row_under(rows, ev.column, ev.row).unwrap().card, row_under(rows, ev.column, ev.row).unwrap().row)),
{
}

} // verus!
