//! Key events and the routing of incoming events.

use vstd::prelude::*;
use crate::text::{decimal, push_decimal, push_str, string_of};

verus! {

/// The key that was pressed, without its modifiers.
#[derive(Clone, Copy, Debug, PartialEq, Eq, PartialOrd, Ord, Hash, Structural)]
pub enum KeyCode {
    Char(char),
    Escape,
    Backspace,
    Left,
    Right,
    Up,
    Down,
    Home,
    End,
    PageUp,
    PageDown,
    BackTab,
    Delete,
    Insert,
    F(u8),
    Null,
}

/// The modifier keys held while a key was pressed.
#[derive(Clone, Copy, Debug, PartialEq, Eq, PartialOrd, Ord, Hash, Structural)]
pub struct Modifiers {
    pub ctrl: bool,
    pub alt: bool,
    pub shift: bool,
}

/// One key press: a key and the modifiers held with it.
///
/// Two key events are equal exactly when their fields are.
#[derive(Clone, Copy, Debug, PartialEq, Eq, PartialOrd, Ord, Hash, Structural)]
pub struct KeyEvent {
    pub code: KeyCode,
    pub modifiers: Modifiers,
}

impl KeyCode {
    /// How the key is written.
    pub open spec fn spec_label(self) -> Seq<char> {
        match self {
            KeyCode::Char(c) => seq![c],
            KeyCode::Escape => "escape"@,
            KeyCode::Backspace => "backspace"@,
            KeyCode::Left => "arrow_left"@,
            KeyCode::Right => "arrow_right"@,
            KeyCode::Up => "arrow_up"@,
            KeyCode::Down => "arrow_down"@,
            KeyCode::Home => "home"@,
            KeyCode::End => "end"@,
            KeyCode::PageUp => "page_up"@,
            KeyCode::PageDown => "page_down"@,
            KeyCode::BackTab => "backtab"@,
            KeyCode::Delete => "delete"@,
            KeyCode::Insert => "insert"@,
            KeyCode::F(n) => "f"@ + decimal(n as nat),
            KeyCode::Null => "null"@,
        }
    }

    /// Appends to `out` how the key is written.
    pub fn push_label(&self, out: &mut Vec<char>)
        ensures
            final(out)@ == old(out)@ + self.spec_label(),
    {
        match self {
            KeyCode::Char(c) => {
                out.push(*c);
                assert(out@ =~= old(out)@ + seq![*c]);
            },
            KeyCode::Escape => push_str(out, "escape"),
            KeyCode::Backspace => push_str(out, "backspace"),
            KeyCode::Left => push_str(out, "arrow_left"),
            KeyCode::Right => push_str(out, "arrow_right"),
            KeyCode::Up => push_str(out, "arrow_up"),
            KeyCode::Down => push_str(out, "arrow_down"),
            KeyCode::Home => push_str(out, "home"),
            KeyCode::End => push_str(out, "end"),
            KeyCode::PageUp => push_str(out, "page_up"),
            KeyCode::PageDown => push_str(out, "page_down"),
            KeyCode::BackTab => push_str(out, "backtab"),
            KeyCode::Delete => push_str(out, "delete"),
            KeyCode::Insert => push_str(out, "insert"),
            KeyCode::F(n) => {
                push_str(out, "f");
                push_decimal(out, *n);
                assert(out@ =~= old(out)@ + ("f"@ + decimal(*n as nat)));
            },
            KeyCode::Null => push_str(out, "null"),
        }
    }
}

impl Modifiers {
    /// How the modifiers are written before a key.
    pub open spec fn spec_label(self) -> Seq<char> {
        (if self.ctrl {
            "ctrl+"@
        } else {
            ""@
        }) + (if self.alt {
            "alt+"@
        } else {
            ""@
        }) + (if self.shift {
            "shift+"@
        } else {
            ""@
        })
    }

    /// Appends to `out` how the modifiers are written before a key.
    pub fn push_label(&self, out: &mut Vec<char>)
        ensures
            final(out)@ == old(out)@ + self.spec_label(),
    {
        push_str(out, if self.ctrl { "ctrl+" } else { "" });
        push_str(out, if self.alt { "alt+" } else { "" });
        push_str(out, if self.shift { "shift+" } else { "" });
        assert(out@ =~= old(out)@ + self.spec_label());
    }

    /// No modifier held.
    pub open spec fn spec_none() -> Modifiers {
        Modifiers { ctrl: false, alt: false, shift: false }
    }

    #[verifier::when_used_as_spec(spec_none)]
    pub fn none() -> (m: Modifiers)
        ensures
            m == Modifiers::spec_none(),
    {
        Modifiers { ctrl: false, alt: false, shift: false }
    }
}

impl KeyEvent {
    /// How the key event is written: the modifiers, then the key.
    pub open spec fn spec_label(self) -> Seq<char> {
        self.modifiers.spec_label() + self.code.spec_label()
    }

    /// Appends to `out` how the key event is written.
    pub fn push_label(&self, out: &mut Vec<char>)
        ensures
            final(out)@ == old(out)@ + self.spec_label(),
    {
        self.modifiers.push_label(out);
        self.code.push_label(out);
        assert(out@ =~= old(out)@ + self.spec_label());
    }

    /// How the key event is written.
    pub fn label(&self) -> (text: String)
        ensures
            text@ == self.spec_label(),
    {
        let mut out: Vec<char> = Vec::new();
        self.push_label(&mut out);
        assert(out@ =~= self.spec_label());
        string_of(&out)
    }

    /// The key `code` pressed alone.
    pub open spec fn spec_plain(code: KeyCode) -> KeyEvent {
        KeyEvent { code, modifiers: Modifiers::spec_none() }
    }

    #[verifier::when_used_as_spec(spec_plain)]
    pub fn plain(code: KeyCode) -> (k: KeyEvent)
        ensures
            k == KeyEvent::spec_plain(code),
    {
        KeyEvent { code, modifiers: Modifiers::none() }
    }

    /// The character key `c` pressed alone.
    pub open spec fn spec_char(c: char) -> KeyEvent {
        KeyEvent::spec_plain(KeyCode::Char(c))
    }

    #[verifier::when_used_as_spec(spec_char)]
    pub fn char(c: char) -> (k: KeyEvent)
        ensures
            k == KeyEvent::spec_char(c),
    {
        KeyEvent::plain(KeyCode::Char(c))
    }
}

/// What a background task or a timer reports to the application.
#[derive(Clone, Copy, Debug, PartialEq, Eq, Hash, Structural)]
pub enum Notification {
    TaskProgress,
    TaskFinished,
    TimerFired,
}

/// An event from the shared input source.
#[derive(Clone, Copy, Debug, PartialEq, Eq, Hash, Structural)]
pub enum AppEvent {
    /// A key from the terminal: it drives whichever key interaction is under
    /// way.
    Terminal(KeyEvent),
    /// Input from the terminal that no key event stands for, such as the
    /// mouse or bytes that could not be read. Nothing can be bound to it.
    Unsupported,
    /// An event of the application itself: it is handed on and leaves a key
    /// interaction as it is.
    Application(Notification),
}

impl AppEvent {
    /// The event comes from the terminal.
    pub open spec fn spec_is_interactive(self) -> bool {
        !(self is Application)
    }

    /// Whether the event comes from the terminal and belongs to the key
    /// interaction under way, or is one of the application itself.
    #[verifier::when_used_as_spec(spec_is_interactive)]
    pub fn is_interactive(self) -> (interactive: bool)
        ensures
            interactive == self.spec_is_interactive(),
    {
        match self {
            AppEvent::Application(_) => false,
            _ => true,
        }
    }

    /// The key of a terminal event.
    pub open spec fn spec_key(self) -> Option<KeyEvent> {
        match self {
            AppEvent::Terminal(key) => Some(key),
            AppEvent::Unsupported => None,
            AppEvent::Application(_) => None,
        }
    }

    /// The key of a terminal event; `None` for any other event.
    #[verifier::when_used_as_spec(spec_key)]
    pub fn key(self) -> (key: Option<KeyEvent>)
        ensures
            key == self.spec_key(),
    {
        match self {
            AppEvent::Terminal(key) => Some(key),
            AppEvent::Unsupported => None,
            AppEvent::Application(_) => None,
        }
    }
}

/// The events from the terminal among `events`, in their order.
pub open spec fn interactive(events: Seq<AppEvent>) -> Seq<AppEvent>
    decreases events.len(),
{
    if events.len() == 0 {
        Seq::empty()
    } else if events[0].spec_is_interactive() {
        seq![events[0]] + interactive(events.skip(1))
    } else {
        interactive(events.skip(1))
    }
}

} // verus!
