//! What sets the plain game apart from the full one.

use vstd::prelude::*;

use crate::protocol::GameEvent;
use crate::server::handler::Action;
use crate::transport::{meaning, Incoming, Received};

use super::server::{is_plain, strict_meaning};

verus! {

/// Whether an event tells of something that only the full game has.
pub open spec fn only_in_full_game(event: GameEvent) -> bool {
    event is ServerVersionEvent || event is OverviewMapEvent || event is AnchorPointsEvent
}

/// What is done in the plain game: everything that the full game would do, in the same order, but
/// that nothing is counted and that no client is told of versions, overviews and anchor points.
pub proof fn lemma_what_is_left_out(all: Seq<Action>, done: Seq<Action>, action: Action)
    requires
        done == all.filter(|a: Action| is_plain(a)),
    ensures
        done.contains(action) <==> all.contains(action) && match action {
            Action::Send(event) => !only_in_full_game(event),
            Action::Broadcast(envelope) => true,
            Action::CloseFull => true,
            Action::Count(metric, n) => false,
            Action::CountDeparture => false,
        },
        done.len() <= all.len(),
    decreases all.len(),
{
    reveal(Seq::filter);
    let keep = |a: Action| is_plain(a);
    if all.len() > 0 {
        let (init, last) = (all.drop_last(), all.last());
        let part = init.filter(keep);
        lemma_what_is_left_out(init, part, action);
        assert(all =~= init.push(last));
        if init.contains(action) {
            let k = choose|k: int| 0 <= k < init.len() && init[k] == action;
            assert(all[k] == action);
        }
        if all.contains(action) && !init.contains(action) {
            let k = choose|k: int| 0 <= k < all.len() && all[k] == action;
            if k < init.len() {
                assert(init[k] == action);
            }
            assert(action == last);
        }
        assert(all[all.len() - 1] == last);
        if keep(last) {
            assert(done == part.push(last));
            assert(done[part.len() as int] == last);
            if part.contains(action) {
                let k = choose|k: int| 0 <= k < part.len() && part[k] == action;
                assert(done[k] == action);
            }
            if done.contains(action) && action != last {
                let k = choose|k: int| 0 <= k < done.len() && done[k] == action;
                assert(part[k] == action);
            }
        } else {
            assert(done == part);
        }
    }
}

/// The plain game differs from the full one in a single point in how it reads: a binary frame that
/// does not decode is passed over there, and ends the connection here.
pub proof fn lemma_stricter_reading(incoming: Incoming)
    ensures
        incoming != Incoming::Binary(None) ==> strict_meaning(incoming) == meaning(incoming),
        strict_meaning(Incoming::Binary(None)) is Failed,
        meaning(Incoming::Binary(None)) is Skipped,
        incoming matches Incoming::Binary(Some(event)) ==> strict_meaning(incoming)
            == Received::Event(event),
{
}

} // verus!
