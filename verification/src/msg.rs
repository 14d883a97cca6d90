//! Structured messages for an external display or log sink.
//!
//! These are passive value types: the scheduler in [`crate::update`] only
//! transports them inside [`crate::update::Effect`] values and never looks at
//! their contents.

use vstd::prelude::*;
use vstd::string::StringExecFns;

verus! {

/// A message destined for the player or a log, made of styled [`Text`] runs.
#[derive(Clone, Debug)]
pub struct Message {
    pub kind: Kind,
    pub importance: Importance,
    pub hidden: bool,
    pub contents: Vec<Text>,
}

/// What sort of message this is.
#[derive(Copy, Clone, Debug)]
pub enum Kind {
    Display,
    Debug,
    Warning,
    Error,
}

/// How prominently a message should be shown.
#[derive(Copy, Clone, Debug)]
pub enum Importance {
    Hidden,
    Verbose,
    Low,
    Normal,
    High,
    VeryHigh,
}

/// A run of text with uniform styling.
#[derive(Clone, Debug)]
pub struct Text {
    pub bold: bool,
    pub italic: bool,
    pub color: Color,
    pub background_color: Color,
    pub text: String,
}

/// A named color, or an arbitrary RGB value.
#[derive(Copy, Clone, Debug)]
pub enum Color {
    Default,
    White,
    Gray,
    Black,
    Red,
    Orange,
    Yellow,
    Green,
    Pink,
    Blue,
    Rgb(u8, u8, u8),
}

impl Message {
    /// A "normal" message: intended for displaying to the user, of normal
    /// importance, and not hidden.
    pub fn normal(contents: Vec<Text>) -> (m: Message)
        ensures
            m.kind is Display,
            m.importance is Normal,
            !m.hidden,
            m.contents == contents,
    {
        Message { kind: Kind::Display, importance: Importance::Normal, hidden: false, contents }
    }
}

impl Text {
    /// Unstyled text in the default colors.
    pub fn normal(text: &str) -> (t: Text)
        ensures
            !t.bold,
            !t.italic,
            t.color is Default,
            t.background_color is Default,
            t.text@ == text@,
    {
        Text {
            bold: false,
            italic: false,
            color: Color::Default,
            background_color: Color::Default,
            text: String::from_str(text),
        }
    }

    /// Bold text in the default colors.
    pub fn bold(text: &str) -> (t: Text)
        ensures
            t.bold,
            !t.italic,
            t.color is Default,
            t.background_color is Default,
            t.text@ == text@,
    {
        Text {
            bold: true,
            italic: false,
            color: Color::Default,
            background_color: Color::Default,
            text: String::from_str(text),
        }
    }

    /// Italic text in the default colors.
    pub fn italic(text: &str) -> (t: Text)
        ensures
            !t.bold,
            t.italic,
            t.color is Default,
            t.background_color is Default,
            t.text@ == text@,
    {
        Text {
            bold: false,
            italic: true,
            color: Color::Default,
            background_color: Color::Default,
            text: String::from_str(text),
        }
    }
}

} // verus!
