//! What comes of what the player types.

use vstd::prelude::*;

use crate::protocol::GameEvent;

use super::app::App;
use super::input::{key_handled, KeyCode, KeyEvent, Reply};

verus! {

/// Whether characters are typed one after the other, each of them as a key that is pressed.
pub open spec fn typed(states: Seq<App>, text: Seq<char>, now: u64, replies: Seq<Reply>) -> bool {
    &&& states.len() == text.len() + 1
    &&& replies.len() == text.len()
    &&& forall|i: int|
        0 <= i < text.len() ==> key_handled(
            #[trigger] states[i],
            KeyEvent { code: KeyCode::Char(text[i]), press: true },
            now,
            states[i + 1],
            replies[i],
        )
}

/// What is typed is what is there: the characters in their order, after what was there before, with
/// nobody told and nothing else changed. Only `q` cannot be typed.
pub proof fn lemma_typed_is_there(
    states: Seq<App>,
    text: Seq<char>,
    now: u64,
    replies: Seq<Reply>,
    n: int,
)
    requires
        typed(states, text, now, replies),
        !states[0].show_map_overview,
        forall|i: int| 0 <= i < text.len() ==> text[i] != 'q',
        0 <= n <= text.len(),
    ensures
        states[n].input@ == states[0].input@ + text.take(n),
        states[n] == (App { input: states[n].input, ..states[0] }),
        n > 0 ==> replies[n - 1].send is None && !replies[n - 1].quit,
    decreases n,
{
    if n > 0 {
        lemma_typed_is_there(states, text, now, replies, n - 1);
        let i = n - 1;
        assert(states[i + 1].input@ == states[i].input@.push(text[i]));
        assert(states[0].input@ + text.take(n) =~= (states[0].input@ + text.take(i)).push(text[i]));
    } else {
        assert(states[0].input@ + text.take(0) =~= states[0].input@);
    }
}

/// Taking back undoes what was typed last, and does nothing where there is nothing.
pub proof fn lemma_typing_is_taken_back(
    before: App,
    c: char,
    now: u64,
    between: App,
    later: u64,
    after: App,
    replies: (Reply, Reply),
)
    requires
        !before.show_map_overview,
        c != 'q',
        key_handled(
            before,
            KeyEvent { code: KeyCode::Char(c), press: true },
            now,
            between,
            replies.0,
        ),
        key_handled(
            between,
            KeyEvent { code: KeyCode::Backspace, press: true },
            later,
            after,
            replies.1,
        ),
    ensures
        after.input@ == before.input@,
        after == (App { input: after.input, ..before }),
        replies.1.send is None && !replies.1.quit,
{
    assert(before.input@.push(c).drop_last() =~= before.input@);
}

/// Nothing can be taken back where nothing is there.
pub proof fn lemma_nothing_to_take_back(before: App, now: u64, after: App, reply: Reply)
    requires
        !before.show_map_overview,
        before.input@.len() == 0,
        key_handled(
            before,
            KeyEvent { code: KeyCode::Backspace, press: true },
            now,
            after,
            reply,
        ),
    ensures
        after.input@.len() == 0,
        after == (App { input: after.input, ..before }),
{
}

/// What was typed is said once it is entered: to the others, letter for letter, and at the own boat.
/// Nothing is said where nothing was typed, and `/map` opens the overview in place of being said.
/// Then the line is empty again.
pub proof fn lemma_entering_says(before: App, now: u64, after: App, reply: Reply)
    requires
        !before.show_map_overview,
        key_handled(before, KeyEvent { code: KeyCode::Enter, press: true }, now, after, reply),
    ensures
        after.input@.len() == 0,
        !reply.quit,
        after.cursor == before.cursor,
        after.remote_boats == before.remote_boats,
        ({
            let text = before.input@;
            let command = text == seq!['/', 'm', 'a', 'p'];
            &&& reply.send is Some <==> text.len() > 0 && !command
            &&& reply.send is Some ==> (reply.send->0 matches GameEvent::SayEvent {
                position,
                text: said,
            } && position is None && said@ == text)
            &&& after.show_map_overview <==> command
            &&& reply.send is Some ==> {
                &&& after.bubbles@.len() == before.bubbles@.len() + 1
                &&& after.bubbles@.take(before.bubbles@.len() as int) == before.bubbles@
                &&& after.bubbles@.last().text@ == text
                &&& after.bubbles@.last().position == before.cursor
                &&& after.bubbles@.last().received_at == now
            }
            &&& reply.send is None ==> after.bubbles == before.bubbles
        }),
{
    reveal_strlit("/map");
    assert("/map"@ =~= seq!['/', 'm', 'a', 'p']);
    if reply.send is Some {
        assert(after.bubbles@.take(before.bubbles@.len() as int) =~= before.bubbles@);
    }
}

/// While the overview is open, any key closes it and does nothing else; a key that is let go does
/// nothing at all. The game ends by `q` and by escape, and by no other key.
pub proof fn lemma_which_keys_count(before: App, key: KeyEvent, now: u64, after: App, reply: Reply)
    requires
        key_handled(before, key, now, after, reply),
    ensures
        !key.press ==> after == before && reply.send is None && !reply.quit,
        key.press && before.show_map_overview ==> {
            &&& after == (App { show_map_overview: false, ..before })
            &&& reply.send is None && !reply.quit
        },
        reply.quit <==> key.press && !before.show_map_overview && (key.code is Esc || key.code
            == KeyCode::Char('q')),
        reply.quit ==> after == before && reply.send is None,
        key.code is Other && !before.show_map_overview ==> after == before && reply.send is None,
{
}

} // verus!
