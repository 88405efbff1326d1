//! User-input intents, decoupled from the terminal's raw key events so the
//! event loop does not need to know the keybindings.
use vstd::prelude::*;

verus! {

/// What the user asked for.
#[derive(Debug, Clone, Copy, PartialEq, Eq, Structural)]
pub enum Action {
    Quit,
    MoveUp,
    MoveDown,
    /// `h`/Left: the panel on the left.
    MoveLeft,
    /// `l`/Right: the panel on the right.
    MoveRight,
    NextGroup,
    PrevGroup,
    /// Enter/Space on a light or switch row: call its `toggle` service.
    Toggle,
    /// `+`: light -> brightness up a step, climate -> target temp up a step.
    Increase,
    /// `-`: light -> brightness down a step, climate -> target temp down a step.
    Decrease,
    /// `/`: start typing a search.
    StartFilter,
    /// Esc: drop the active search.
    ClearFilter,
    /// `?`: show or hide the keybindings.
    ShowHelp,
}

/// What a key does while a search query is being typed.
#[derive(Debug, Clone, Copy, PartialEq, Eq, Structural)]
pub enum FilterAction {
    /// A typed character, appended to the query.
    Push(char),
    Backspace,
    /// Enter: keep the filter and go back to navigating.
    Confirm,
    /// Esc: clear the filter.
    Cancel,
}

/// The key of a key event, as far as the bindings tell keys apart.
#[derive(Debug, Clone, Copy, PartialEq, Eq, Structural)]
pub enum KeyCode {
    Char(char),
    Up,
    Down,
    Left,
    Right,
    Tab,
    BackTab,
    Enter,
    Esc,
    Backspace,
    /// A function key, by number.
    F(u8),
    /// Any other key.
    Other,
}

/// Whether the key went down, auto-repeated, or went up.
#[derive(Debug, Clone, Copy, PartialEq, Eq, Structural)]
pub enum KeyEventKind {
    Press,
    Repeat,
    Release,
}

/// One key event from the terminal.
#[derive(Debug, Clone, Copy, PartialEq, Eq, Structural)]
pub struct KeyEvent {
    pub code: KeyCode,
    pub kind: KeyEventKind,
}

/// The binding of a pressed key, if it has one.
pub open spec fn binding(code: KeyCode) -> Option<Action> {
    match code {
        KeyCode::Char(c) => if c == 'q' {
            Some(Action::Quit)
        } else if c == 'k' {
            Some(Action::MoveUp)
        } else if c == 'j' {
            Some(Action::MoveDown)
        } else if c == 'h' {
            Some(Action::MoveLeft)
        } else if c == 'l' {
            Some(Action::MoveRight)
        } else if c == ' ' {
            Some(Action::Toggle)
        } else if c == '+' || c == '=' {
            Some(Action::Increase)
        } else if c == '-' {
            Some(Action::Decrease)
        } else if c == '/' {
            Some(Action::StartFilter)
        } else if c == '?' {
            Some(Action::ShowHelp)
        } else {
            None
        },
        KeyCode::Up => Some(Action::MoveUp),
        KeyCode::Down => Some(Action::MoveDown),
        KeyCode::Left => Some(Action::MoveLeft),
        KeyCode::Right => Some(Action::MoveRight),
        KeyCode::Tab => Some(Action::NextGroup),
        KeyCode::BackTab => Some(Action::PrevGroup),
        KeyCode::Enter => Some(Action::Toggle),
        KeyCode::Esc => Some(Action::ClearFilter),
        _ => None,
    }
}

/// What a pressed key does while a search is being typed.
pub open spec fn filter_binding(code: KeyCode) -> Option<FilterAction> {
    match code {
        KeyCode::Char(c) => Some(FilterAction::Push(c)),
        KeyCode::Backspace => Some(FilterAction::Backspace),
        KeyCode::Enter => Some(FilterAction::Confirm),
        KeyCode::Esc => Some(FilterAction::Cancel),
        _ => None,
    }
}

impl KeyEvent {
    /// A key press of `code`.
    pub fn press(code: KeyCode) -> (r: KeyEvent)
        ensures
            r == (KeyEvent { code, kind: KeyEventKind::Press }),
    {
        KeyEvent { code, kind: KeyEventKind::Press }
    }
}

impl Action {
    /// The action a key event asks for. Some terminals report both press and
    /// release; only a press acts, so nothing fires twice.
    pub fn from_key(key: KeyEvent) -> (r: Option<Action>)
        ensures
            r == (if key.kind == KeyEventKind::Press { binding(key.code) } else { None }),
    {
        match key.kind {
            KeyEventKind::Press => {},
            _ => return None,
        }
        match key.code {
            KeyCode::Char(c) => {
                if c == 'q' {
                    Some(Action::Quit)
                } else if c == 'k' {
                    Some(Action::MoveUp)
                } else if c == 'j' {
                    Some(Action::MoveDown)
                } else if c == 'h' {
                    Some(Action::MoveLeft)
                } else if c == 'l' {
                    Some(Action::MoveRight)
                } else if c == ' ' {
                    Some(Action::Toggle)
                } else if c == '+' || c == '=' {
                    Some(Action::Increase)
                } else if c == '-' {
                    Some(Action::Decrease)
                } else if c == '/' {
                    Some(Action::StartFilter)
                } else if c == '?' {
                    Some(Action::ShowHelp)
                } else {
                    None
                }
            },
            KeyCode::Up => Some(Action::MoveUp),
            KeyCode::Down => Some(Action::MoveDown),
            KeyCode::Left => Some(Action::MoveLeft),
            KeyCode::Right => Some(Action::MoveRight),
            KeyCode::Tab => Some(Action::NextGroup),
            KeyCode::BackTab => Some(Action::PrevGroup),
            KeyCode::Enter => Some(Action::Toggle),
            KeyCode::Esc => Some(Action::ClearFilter),
            _ => None,
        }
    }
}

impl FilterAction {
    /// The edit a key event makes to the search being typed; only presses act.
    pub fn from_key(key: KeyEvent) -> (r: Option<FilterAction>)
        ensures
            r == (if key.kind == KeyEventKind::Press { filter_binding(key.code) } else { None }),
    {
        match key.kind {
            KeyEventKind::Press => {},
            _ => return None,
        }
        match key.code {
            KeyCode::Char(c) => Some(FilterAction::Push(c)),
            KeyCode::Backspace => Some(FilterAction::Backspace),
            KeyCode::Enter => Some(FilterAction::Confirm),
            KeyCode::Esc => Some(FilterAction::Cancel),
            _ => None,
        }
    }
}

/// F2 switches mouse capture on and off, whatever else is on screen.
pub fn is_mouse_toggle(key: KeyEvent) -> (r: bool)
    ensures
        r == (key.kind == KeyEventKind::Press && key.code == KeyCode::F(2)),
{
    match key.kind {
        KeyEventKind::Press => match key.code {
            KeyCode::F(n) => n == 2,
            _ => false,
        },
        _ => false,
    }
}

/// Before the first snapshot arrives only quitting works: whether key
/// event `key` quits then.
pub fn quits_while_connecting(key: KeyEvent) -> (r: bool)
    ensures
        r == (key.kind == KeyEventKind::Press && binding(key.code) == Some(Action::Quit)),
{
    match Action::from_key(key) {
        Some(Action::Quit) => true,
        _ => false,
    }
}

/// The status line announcing the mouse mode that F2 just switched to.
pub fn mouse_mode_status(enabled: bool) -> (r: String)
    ensures
        r@ == (if enabled {
            "Mouse mode on (F2 to turn off for terminal text selection/copy)"@
        } else {
            "Mouse mode off - terminal text selection/copy enabled (F2 to turn back on)"@
        }),
{
    if enabled {
        String::from_str("Mouse mode on (F2 to turn off for terminal text selection/copy)")
    } else {
        String::from_str("Mouse mode off - terminal text selection/copy enabled (F2 to turn back on)")
    }
}

} // verus!
