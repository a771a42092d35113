//! What the keys do.

use vstd::prelude::*;

use crate::float::F32;
use crate::protocol::GameEvent;
use crate::text::{byte_len, byte_length, same_text};

use super::app::{App, Bubble, CURSOR_STEP};

verus! {

/// A name takes no further characters once it has this many bytes.
pub const MAX_NAME_BYTES: usize = 16;

/// The keys that mean something, and all others.
#[derive(Debug, Clone, Copy)]
pub enum KeyCode {
    Esc,
    Enter,
    Backspace,
    Up,
    Down,
    Left,
    Right,
    Char(char),
    Other,
}

/// Something that happened to a key.
#[derive(Debug, Clone, Copy)]
pub struct KeyEvent {
    /// Whether the key went down, rather than up or on repeating.
    pub press: bool,
    pub code: KeyCode,
}

/// What is to be done after a key or a message.
#[derive(Debug)]
pub struct Reply {
    /// Whether the game ends.
    pub quit: bool,
    /// What the server is told.
    pub send: Option<GameEvent>,
}

/// The step that a key stands for.
pub open spec fn step_of(code: KeyCode) -> Option<(F32, F32)> {
    let zero = F32 { bits: 0 };
    let step = F32 { bits: CURSOR_STEP };
    match code {
        KeyCode::Up => Some((zero, step.negative())),
        KeyCode::Down => Some((zero, step)),
        KeyCode::Left => Some((step.negative(), zero)),
        KeyCode::Right => Some((step, zero)),
        _ => None,
    }
}

/// Whether a key can be handled: a step must be one that can be carried out.
pub open spec fn key_fits(app: App, key: KeyEvent) -> bool {
    key.press && !app.show_map_overview ==> (step_of(key.code) matches Some(d) ==> app.can_step(
        d.0,
        d.1,
    ))
}

/// The report of the own position, once the server has given out an id.
pub open spec fn move_report(app: App) -> Option<GameEvent> {
    match app.my_id {
        Some(id) => Some(GameEvent::MoveEvent { id, position: app.cursor }),
        None => None,
    }
}

/// A text without its last character.
pub open spec fn shortened(s: Seq<char>) -> Seq<char> {
    if s.len() == 0 {
        s
    } else {
        s.drop_last()
    }
}

/// Whether `after` differs from `before` at most in what is typed.
pub open spec fn only_input_differs(before: App, after: App) -> bool {
    after == (App { input: after.input, ..before })
}

/// Whether a key does this to the client, and has this reply.
pub open spec fn key_handled(before: App, key: KeyEvent, now: u64, after: App, reply: Reply) -> bool {
    let silent = Reply { quit: false, send: None };
    if !key.press {
        after == before && reply == silent
    } else if before.show_map_overview {
        after == (App { show_map_overview: false, ..before }) && reply == silent
    } else {
        match key.code {
            KeyCode::Esc => after == before && reply == (Reply { quit: true, send: None }),
            KeyCode::Char('q') => after == before && reply == (Reply { quit: true, send: None }),
            KeyCode::Char(c) => {
                &&& after.input@ == before.input@.push(c)
                &&& only_input_differs(before, after)
                &&& reply == silent
            },
            KeyCode::Backspace => {
                &&& after.input@ == shortened(before.input@)
                &&& only_input_differs(before, after)
                &&& reply == silent
            },
            KeyCode::Enter => if before.input@.len() == 0 {
                after == before && reply == silent
            } else {
                &&& after.input@.len() == 0
                &&& if before.input@ == "/map"@ {
                    &&& after == (App { input: after.input, show_map_overview: true, ..before })
                    &&& reply == silent
                } else {
                    let text = before.input;
                    &&& after.bubbles@ == before.bubbles@.push(
                        Bubble { position: before.cursor, text, received_at: now },
                    )
                    &&& after == (App { input: after.input, bubbles: after.bubbles, ..before })
                    &&& reply == (Reply {
                        quit: false,
                        send: Some(GameEvent::SayEvent { position: None, text }),
                    })
                }
            },
            KeyCode::Other => after == before && reply == silent,
            _ => {
                let (dx, dy) = step_of(key.code)->0;
                if before.blocked(before.step_target(dx, dy)) {
                    after == before && reply == silent
                } else {
                    &&& before.sailed(after, dx, dy)
                    &&& reply == (Reply { quit: false, send: move_report(after) })
                }
            },
        }
    }
}

/// The step that a key stands for.
fn key_step(code: KeyCode) -> (r: Option<(F32, F32)>)
    ensures
        r == step_of(code),
{
    let zero: F32 = F32 { bits: 0 };
    let step: F32 = F32 { bits: CURSOR_STEP };
    match code {
        KeyCode::Up => Some((zero, step.neg())),
        KeyCode::Down => Some((zero, step)),
        KeyCode::Left => Some((step.neg(), zero)),
        KeyCode::Right => Some((step, zero)),
        _ => None,
    }
}

/// Whether a key can be handled.
pub fn can_handle_key(app: &App, key: KeyEvent) -> (r: bool)
    ensures
        r == key_fits(*app, key),
{
    if !key.press || app.show_map_overview {
        return true;
    }
    match key_step(key.code) {
        Some((dx, dy)) => app.can_move(dx, dy),
        None => true,
    }
}

/// The report of the own position.
fn send_move(app: &App) -> (r: Option<GameEvent>)
    ensures
        r == move_report(*app),
{
    match app.my_id {
        Some(id) => Some(GameEvent::MoveEvent { id, position: app.cursor }),
        None => None,
    }
}

/// Carries out what a key stands for during the game.
pub fn handle_key(app: &mut App, key: KeyEvent, now: u64) -> (reply: Reply)
    requires
        key_fits(*old(app), key),
    ensures
        key_handled(*old(app), key, now, *final(app), reply),
{
    if !key.press {
        return Reply { quit: false, send: None };
    }
    if app.show_map_overview {
        app.show_map_overview = false;
        return Reply { quit: false, send: None };
    }
    if let Some((dx, dy)) = key_step(key.code) {
        let send: Option<GameEvent> = if app.move_cursor(dx, dy) {
            send_move(app)
        } else {
            None
        };
        return Reply { quit: false, send };
    }
    match key.code {
        KeyCode::Esc => {
            return Reply { quit: true, send: None };
        },
        KeyCode::Char('q') => {
            return Reply { quit: true, send: None };
        },
        KeyCode::Char(c) => {
            app.input.push(c);
        },
        KeyCode::Backspace => {
            app.input.pop();
        },
        KeyCode::Enter => {
            if !app.input.as_str().is_empty() {
                let mut text: String = String::new();
                core::mem::swap(&mut text, &mut app.input);
                if same_text(text.as_str(), "/map") {
                    app.show_map_overview = true;
                } else {
                    app.push_bubble(app.cursor, text.clone(), now);
                    return Reply {
                        quit: false,
                        send: Some(GameEvent::SayEvent { position: None, text }),
                    };
                }
            }
        },
        _ => {},
    }
    Reply { quit: false, send: None }
}

/// Takes a key into the name that is being typed, and says whether the name is complete.
pub fn prompt_name(name: &mut String, key: KeyEvent) -> (done: bool)
    ensures
        done == (key.press && key.code == KeyCode::Enter && old(name)@.len() > 0),
        final(name)@ == if !key.press {
            old(name)@
        } else {
            match key.code {
                KeyCode::Backspace => shortened(old(name)@),
                KeyCode::Char(c) => if byte_len(old(name)@) < MAX_NAME_BYTES {
                    old(name)@.push(c)
                } else {
                    old(name)@
                },
                _ => old(name)@,
            }
        },
{
    if !key.press {
        return false;
    }
    match key.code {
        KeyCode::Enter => !name.as_str().is_empty(),
        KeyCode::Backspace => {
            name.pop();
            false
        },
        KeyCode::Char(c) => {
            if byte_length(name.as_str()) < MAX_NAME_BYTES {
                name.push(c);
            }
            false
        },
        _ => false,
    }
}

/// Whether a key leaves the screen that says that client and server do not fit.
pub fn show_incompatible_screen(key: KeyEvent) -> (leave: bool)
    ensures
        leave == (key.press && (key.code == KeyCode::Esc || key.code == KeyCode::Enter || key.code
            == KeyCode::Char('q'))),
{
    if !key.press {
        return false;
    }
    match key.code {
        KeyCode::Esc => true,
        KeyCode::Enter => true,
        KeyCode::Char(c) => c == 'q',
        _ => false,
    }
}

} // verus!
