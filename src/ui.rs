//! What the display backend draws and the input events it reports.

use crate::text::same_text;
use vstd::prelude::*;

verus! {

/// An input event.
#[derive(Clone, Copy, Debug, PartialEq, Eq, Structural)]
pub enum Event {
    NormalChar(char),
    SpecialChar(EscapeSeq),
}

/// An arrow key.
#[derive(Clone, Debug, Copy, PartialEq, Eq, Structural)]
pub enum EscapeSeq {
    LeftArrow,
    RightArrow,
    UpArrow,
    DownArrow,
}

/// The editor's input mode.
#[derive(Clone, Debug, Copy, PartialEq, Eq, Structural)]
pub enum Mode {
    Insert,
}

/// A terminal colour.
#[derive(Clone, Debug, Copy, PartialEq, Eq, Structural, PartialOrd, Ord, Hash)]
pub enum Colour {
    White,
    Black,
    Red,
    Green,
    Yellow,
    Blue,
    Magenta,
    Cyan,
    Reset,
}

/// A name that is no colour's.
#[derive(Debug)]
pub struct IsNotColour(pub String);

/// The colour that `s` names.
pub open spec fn colour_named(s: Seq<char>) -> Option<Colour> {
    if s == "white"@ {
        Some(Colour::White)
    } else if s == "black"@ {
        Some(Colour::Black)
    } else if s == "red"@ {
        Some(Colour::Red)
    } else if s == "yellow"@ {
        Some(Colour::Yellow)
    } else if s == "green"@ {
        Some(Colour::Green)
    } else if s == "blue"@ {
        Some(Colour::Blue)
    } else if s == "cyan"@ {
        Some(Colour::Cyan)
    } else if s == "magenta"@ {
        Some(Colour::Magenta)
    } else if s == "reset"@ {
        Some(Colour::Reset)
    } else {
        None
    }
}

impl Colour {
    /// The colour named `s`, or the name back as the error.
    pub fn parse(s: &str) -> (r: Result<Colour, IsNotColour>)
        ensures
            match colour_named(s@) {
                Some(c) => r == Ok::<Colour, IsNotColour>(c),
                None => r matches Err(e) && e.0@ == s@,
            },
    {
        if same_text(s, "white") {
            Ok(Colour::White)
        } else if same_text(s, "black") {
            Ok(Colour::Black)
        } else if same_text(s, "red") {
            Ok(Colour::Red)
        } else if same_text(s, "yellow") {
            Ok(Colour::Yellow)
        } else if same_text(s, "green") {
            Ok(Colour::Green)
        } else if same_text(s, "blue") {
            Ok(Colour::Blue)
        } else if same_text(s, "cyan") {
            Ok(Colour::Cyan)
        } else if same_text(s, "magenta") {
            Ok(Colour::Magenta)
        } else if same_text(s, "reset") {
            Ok(Colour::Reset)
        } else {
            Err(IsNotColour(s.to_owned()))
        }
    }
}

impl std::str::FromStr for Colour {
    type Err = IsNotColour;

    fn from_str(s: &str) -> Result<Colour, IsNotColour> {
        Colour::parse(s)
    }
}

/// What the editor does on an event in its main pane.
#[derive(Clone, Copy, Debug, PartialEq, Eq, Structural)]
pub enum Action {
    MoveUpDown(isize),
    MoveLeftRight(isize),
    /// Ask for text in the prompt and type it.
    TypeFromPrompt,
    /// Quit, asking first when the buffer has unsaved changes.
    Quit,
    Save,
    Backspace,
    Insert(char),
}

/// What the editor does on an event while the prompt is open.
#[derive(Clone, Copy, Debug, PartialEq, Eq, Structural)]
pub enum PromptAction {
    Ignore,
    MoveLeftRight(isize),
    Backspace,
    /// Hand back what was typed.
    Take,
    Insert(char),
}

/// The action for `e` in the main pane: arrows move, Ctrl-A types text read
/// from the prompt, Ctrl-Q quits, Ctrl-S saves, DEL deletes backwards, and
/// any other character is typed.
pub open spec fn action_spec(e: Event) -> Action {
    match e {
        Event::SpecialChar(EscapeSeq::DownArrow) => Action::MoveUpDown(1isize),
        Event::SpecialChar(EscapeSeq::UpArrow) => Action::MoveUpDown(-1isize),
        Event::SpecialChar(EscapeSeq::LeftArrow) => Action::MoveLeftRight(-1isize),
        Event::SpecialChar(EscapeSeq::RightArrow) => Action::MoveLeftRight(1isize),
        Event::NormalChar(c) => if c == '\x01' {
            Action::TypeFromPrompt
        } else if c == '\x11' {
            Action::Quit
        } else if c == '\x13' {
            Action::Save
        } else if c == '\x7f' {
            Action::Backspace
        } else {
            Action::Insert(c)
        },
    }
}

/// The action for `e` in the prompt: up and down are ignored, left and right
/// move, DEL deletes backwards, carriage return ends the input, and any
/// other character is typed.
pub open spec fn prompt_action_spec(e: Event) -> PromptAction {
    match e {
        Event::SpecialChar(EscapeSeq::DownArrow) => PromptAction::Ignore,
        Event::SpecialChar(EscapeSeq::UpArrow) => PromptAction::Ignore,
        Event::SpecialChar(EscapeSeq::LeftArrow) => PromptAction::MoveLeftRight(-1isize),
        Event::SpecialChar(EscapeSeq::RightArrow) => PromptAction::MoveLeftRight(1isize),
        Event::NormalChar(c) => if c == '\x7f' {
            PromptAction::Backspace
        } else if c == '\r' {
            PromptAction::Take
        } else {
            PromptAction::Insert(c)
        },
    }
}

impl Event {
    /// The action for this event in the main pane.
    pub fn action(&self) -> (r: Action)
        ensures
            r == action_spec(*self),
    {
        match self {
            Event::SpecialChar(EscapeSeq::DownArrow) => Action::MoveUpDown(1),
            Event::SpecialChar(EscapeSeq::UpArrow) => Action::MoveUpDown(-1),
            Event::SpecialChar(EscapeSeq::LeftArrow) => Action::MoveLeftRight(-1),
            Event::SpecialChar(EscapeSeq::RightArrow) => Action::MoveLeftRight(1),
            Event::NormalChar(c) => {
                let c = *c;
                if c == '\x01' {
                    Action::TypeFromPrompt
                } else if c == '\x11' {
                    Action::Quit
                } else if c == '\x13' {
                    Action::Save
                } else if c == '\x7f' {
                    Action::Backspace
                } else {
                    Action::Insert(c)
                }
            },
        }
    }

    /// The action for this event while the prompt is open.
    pub fn prompt_action(&self) -> (r: PromptAction)
        ensures
            r == prompt_action_spec(*self),
    {
        match self {
            Event::SpecialChar(EscapeSeq::DownArrow) => PromptAction::Ignore,
            Event::SpecialChar(EscapeSeq::UpArrow) => PromptAction::Ignore,
            Event::SpecialChar(EscapeSeq::LeftArrow) => PromptAction::MoveLeftRight(-1),
            Event::SpecialChar(EscapeSeq::RightArrow) => PromptAction::MoveLeftRight(1),
            Event::NormalChar(c) => {
                let c = *c;
                if c == '\x7f' {
                    PromptAction::Backspace
                } else if c == '\r' {
                    PromptAction::Take
                } else {
                    PromptAction::Insert(c)
                }
            },
        }
    }
}

} // verus!
