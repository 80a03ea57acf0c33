//! A hotkey daemon for X11: configuration parsing, key sequence matching and
//! the grab state machine that drives a display connection.

use crate::text::{append_decimal, decimal};
use vstd::prelude::*;

pub mod cfgfile;
pub mod daemon;
pub mod grabs;
pub mod keyseq;
pub mod text;
pub mod x11;

verus! {

/// The fatal conditions of the daemon.
#[derive(Debug)]
pub enum AhkdError {
    /// The program was invoked incorrectly; carries the program name.
    UsageError(String),
    /// The connection to the display failed or reported an error.
    X11Error(String),
    /// The configuration holds no command, so there is nothing to listen for.
    NoKeysError,
    /// Another client holds the keyboard.
    KeyboardGrabError,
    /// A configured key has no keycode on the current keyboard; carries the keysym.
    UnknownKeysym(u32),
}

/// An error of the daemon as mathematical data.
pub enum AhkdErrorView {
    UsageError(Seq<char>),
    X11Error(Seq<char>),
    NoKeysError,
    KeyboardGrabError,
    UnknownKeysym(u32),
}

impl View for AhkdError {
    type V = AhkdErrorView;

    open spec fn view(&self) -> AhkdErrorView {
        match self {
            AhkdError::UsageError(name) => AhkdErrorView::UsageError(name@),
            AhkdError::X11Error(msg) => AhkdErrorView::X11Error(msg@),
            AhkdError::NoKeysError => AhkdErrorView::NoKeysError,
            AhkdError::KeyboardGrabError => AhkdErrorView::KeyboardGrabError,
            AhkdError::UnknownKeysym(keysym) => AhkdErrorView::UnknownKeysym(*keysym),
        }
    }
}

impl AhkdErrorView {
    /// The message that tells the user of the error.
    pub open spec fn message(self) -> Seq<char> {
        match self {
            AhkdErrorView::UsageError(name) => "Usage: "@ + name + " <file>"@,
            AhkdErrorView::X11Error(msg) => "X11 error: "@ + msg,
            AhkdErrorView::NoKeysError =>
                "Nothing to do\nAt least one command is required in the configuration file."@,
            AhkdErrorView::KeyboardGrabError => "Unable to grab keyboard"@,
            AhkdErrorView::UnknownKeysym(keysym) => "No key of this keyboard produces keysym "@
                + decimal(keysym as nat),
        }
    }
}

impl AhkdError {
    /// The message that tells the user of the error.
    pub fn to_string(&self) -> (r: String)
        ensures
            r@ == self@.message(),
    {
        match self {
            AhkdError::UsageError(name) => {
                let mut out = "Usage: ".to_owned();
                out.append(name.as_str());
                out.append(" <file>");
                out
            },
            AhkdError::X11Error(msg) => {
                let mut out = "X11 error: ".to_owned();
                out.append(msg.as_str());
                out
            },
            AhkdError::NoKeysError => {
                "Nothing to do\nAt least one command is required in the configuration file.".to_owned()
            },
            AhkdError::KeyboardGrabError => "Unable to grab keyboard".to_owned(),
            AhkdError::UnknownKeysym(keysym) => {
                let mut out = "No key of this keyboard produces keysym ".to_owned();
                append_decimal(&mut out, *keysym as usize);
                out
            },
        }
    }
}

} // verus!
