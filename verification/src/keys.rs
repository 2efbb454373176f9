//! Keys from the terminal as the session's key names: `enter`, `ctrl+d`,
//! single characters, and `gg` made of two `g` presses.
use vstd::prelude::*;
use crate::text::{push_char, string_of_char};
use vstd::string::StringExecFns;
use vstd::string::StrSliceExecFns;

verus! {

/// Which key was pressed.
#[derive(Debug, Clone, Copy, PartialEq, Eq, Structural)]
pub enum KeyCode {
    Backspace,
    Enter,
    Tab,
    Esc,
    Left,
    Right,
    Home,
    End,
    Char(char),
    /// A key without a name here.
    Other,
}

/// A key event: the key, whether it was pressed (not repeated or
/// released), and whether Control was held.
#[derive(Debug, Clone, Copy, PartialEq, Eq, Structural)]
pub struct KeyInput {
    pub code: KeyCode,
    pub press: bool,
    pub control: bool,
}

/// Whether the live view goes on or ends.
#[derive(Debug, Clone, Copy, PartialEq, Eq, Structural)]
pub enum LiveTuiControl {
    Continue,
    Exit,
}

/// The live view ends on a press of Control-C and on nothing else; `event`
/// is the terminal event as a key, none when it was no key.
pub fn live_tui_control_for_event(event: &Option<KeyInput>) -> (r: LiveTuiControl)
    ensures
        r == (if event matches Some(k) && k.press && k.code == KeyCode::Char('c') && k.control {
            LiveTuiControl::Exit
        } else {
            LiveTuiControl::Continue
        }),
{
    match event {
        Some(k) => {
            if k.press && k.code == KeyCode::Char('c') && k.control {
                LiveTuiControl::Exit
            } else {
                LiveTuiControl::Continue
            }
        },
        None => LiveTuiControl::Continue,
    }
}

/// `c` with `A`..`Z` made `a`..`z`, other characters unchanged.
pub open spec fn ascii_lower(c: char) -> char {
    if 'A' <= c && c <= 'Z' {
        ((c as u32) + 32) as char
    } else {
        c
    }
}

/// `c` with `A`..`Z` made `a`..`z`, other characters unchanged.
fn to_ascii_lowercase(c: char) -> (r: char)
    ensures
        r == ascii_lower(c),
{
    if 'A' <= c && c <= 'Z' {
        let code: u8 = ((c as u32) + 32) as u8;
        code as char
    } else {
        c
    }
}

/// The name of a key press: `backspace`, `enter`, `tab`, `esc`, `left`,
/// `right`, `home`, `end`, the character itself, or `ctrl+` and the
/// character in lower case; none for releases, repeats, other keys and
/// events that are no key.
pub open spec fn key_name(event: Option<KeyInput>) -> Option<Seq<char>> {
    match event {
        Some(k) => if !k.press {
            None
        } else {
            match k.code {
                KeyCode::Backspace => Some("backspace"@),
                KeyCode::Enter => Some("enter"@),
                KeyCode::Tab => Some("tab"@),
                KeyCode::Esc => Some("esc"@),
                KeyCode::Left => Some("left"@),
                KeyCode::Right => Some("right"@),
                KeyCode::Home => Some("home"@),
                KeyCode::End => Some("end"@),
                KeyCode::Char(c) => if k.control {
                    Some("ctrl+"@ + seq![ascii_lower(c)])
                } else {
                    Some(seq![c])
                },
                KeyCode::Other => None,
            }
        },
        None => None,
    }
}

fn literal(s: &str) -> (r: Option<String>)
    ensures
        r matches Some(t) && t@ == s@,
{
    Some(s.to_string())
}

/// The name of the key in `event`.
pub fn key_token_from_event(event: &Option<KeyInput>) -> (r: Option<String>)
    ensures
        match r {
            Some(t) => key_name(*event) == Some(t@),
            None => key_name(*event) is None,
        },
{
    let k = match event {
        Some(k) => k,
        None => return None,
    };
    if !k.press {
        return None;
    }
    match k.code {
        KeyCode::Backspace => literal("backspace"),
        KeyCode::Enter => literal("enter"),
        KeyCode::Tab => literal("tab"),
        KeyCode::Esc => literal("esc"),
        KeyCode::Left => literal("left"),
        KeyCode::Right => literal("right"),
        KeyCode::Home => literal("home"),
        KeyCode::End => literal("end"),
        KeyCode::Char(c) => {
            if k.control {
                let mut s = "ctrl+".to_string();
                push_char(&mut s, to_ascii_lowercase(c));
                Some(s)
            } else {
                Some(string_of_char(c))
            }
        },
        KeyCode::Other => None,
    }
}

/// Turns key presses into the names the session takes, joining two `g`
/// presses into `gg`.
#[derive(Debug)]
pub struct LiveKeyBuffer {
    pending_g: bool,
}

/// What the buffer hands on for the key name `t`, and whether a `g` then
/// waits: without compound names every name goes on at once; a waiting `g`
/// and another `g` make `gg`; a waiting `g` and another name give that
/// name; a `g` alone waits.
pub open spec fn buffered(pending: bool, t: Seq<char>, allow_compound_tokens: bool) -> (Option<Seq<char>>, bool) {
    if !allow_compound_tokens {
        (Some(t), false)
    } else if pending {
        (Some(if t == "g"@ { "gg"@ } else { t }), false)
    } else if t == "g"@ {
        (None, true)
    } else {
        (Some(t), false)
    }
}

impl LiveKeyBuffer {
    /// Whether a `g` waits for a second one.
    pub closed spec fn pending(&self) -> bool {
        self.pending_g
    }

    /// A buffer with nothing waiting.
    pub fn new() -> (r: LiveKeyBuffer)
        ensures
            !r.pending(),
    {
        LiveKeyBuffer { pending_g: false }
    }

    /// The name to hand on for `event`, if any; compound names such as `gg`
    /// are made only when `allow_compound_tokens`.
    pub fn token_for_event(&mut self, event: &Option<KeyInput>, allow_compound_tokens: bool) -> (r:
        Option<String>)
        ensures
            match key_name(*event) {
                Some(t) => {
                    let (out, waits) = buffered(old(self).pending(), t, allow_compound_tokens);
                    &&& final(self).pending() == waits
                    &&& match r {
                        Some(s) => out == Some(s@),
                        None => out is None,
                    }
                },
                None => r is None && final(self).pending() == old(self).pending(),
            },
    {
        let token = match key_token_from_event(event) {
            Some(t) => t,
            None => return None,
        };
        if !allow_compound_tokens {
            self.pending_g = false;
            return Some(token);
        }
        proof {
            reveal_strlit("g");
            reveal_strlit("gg");
        }
        let is_g = token.as_str().unicode_len() == 1 && token.as_str().get_char(0) == 'g';
        assert(is_g == (token@ == "g"@)) by {
            if token@.len() == 1 && token@[0] == 'g' {
                assert(token@ =~= "g"@);
            }
        }
        if self.pending_g {
            self.pending_g = false;
            if is_g {
                literal("gg")
            } else {
                Some(token)
            }
        } else if is_g {
            self.pending_g = true;
            None
        } else {
            Some(token)
        }
    }
}

} // verus!
