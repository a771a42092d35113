//! What holds of the server whatever the clients do.

use vstd::prelude::*;

use crate::float::F32;
use crate::protocol::{GameEvent, Position};
use crate::tiles::MapGrid;

use super::handler::{
    input_fits, stepped, Action, BoatEntry, Client, Envelope, Input, Metric, Phase, World,
};
use super::spawn::{distance, first_free, lemma_spawn_is_free, Offset, MIN_SEPARATION};

verus! {

/// Whether every boat is on open water.
pub open spec fn afloat(map: MapGrid, boats: Map<u64, BoatEntry>) -> bool {
    forall|id: u64| #[trigger] boats.contains_key(id) ==> map.passable(boats[id].position)
}

/// Whether the boat of a client is on the map just when it should be: not before it was put to
/// water, as long as the client is around, and not after that.
pub open spec fn berthed(client: Client, boats: Map<u64, BoatEntry>) -> bool {
    match client.phase {
        Phase::Registering => !boats.contains_key(client.id),
        Phase::Spawning { name } => !boats.contains_key(client.id),
        Phase::Done { failed } => !boats.contains_key(client.id),
        _ => boats.contains_key(client.id),
    }
}

/// Whether an envelope speaks for its sender alone.
pub open spec fn speaks_for(envelope: Envelope, id: u64) -> bool {
    &&& envelope.sender_id == id
    &&& match envelope.event {
        GameEvent::SayEvent { position, text } => true,
        GameEvent::MoveEvent { id: who, position } => who == id,
        GameEvent::NameEvent { id: who, name } => who == id,
        GameEvent::ByeEvent { id: who } => who == id,
        _ => false,
    }
}

/// A sailing client is told what others have to tell, and never hears its own words again.
pub proof fn lemma_no_echo(
    client: Client,
    boats: Map<u64, BoatEntry>,
    world: World,
    envelope: Envelope,
    after_client: Client,
    after: Map<u64, BoatEntry>,
    actions: Seq<Action>,
)
    requires
        stepped(client, boats, world, Input::Relayed(envelope), after_client, after, actions),
    ensures
        envelope.sender_id == client.id ==> actions.len() == 0,
        client.phase is Sailing && envelope.sender_id != client.id ==> actions == seq![
            Action::Send(envelope.event),
        ],
        after_client == client,
        after == boats,
{
}

/// Whatever a client sends, what all others hear from it carries its own id, and they hear nothing
/// but chat, valid moves, its name and its farewell.
pub proof fn lemma_clients_speak_for_themselves(
    client: Client,
    boats: Map<u64, BoatEntry>,
    world: World,
    input: Input,
    after_client: Client,
    after: Map<u64, BoatEntry>,
    actions: Seq<Action>,
    i: int,
)
    requires
        stepped(client, boats, world, input, after_client, after, actions),
        0 <= i < actions.len(),
    ensures
        after_client.id == client.id,
        actions[i] matches Action::Broadcast(envelope) ==> speaks_for(envelope, client.id),
{
}

/// No client moves, adds or removes the boat of another.
pub proof fn lemma_other_boats_untouched(
    client: Client,
    boats: Map<u64, BoatEntry>,
    world: World,
    input: Input,
    after_client: Client,
    after: Map<u64, BoatEntry>,
    actions: Seq<Action>,
    id: u64,
)
    requires
        stepped(client, boats, world, input, after_client, after, actions),
        id != client.id,
    ensures
        after.contains_key(id) <==> boats.contains_key(id),
        boats.contains_key(id) ==> after[id] == boats[id],
{
}

/// Boats are only ever on open water: none is put to water elsewhere and none is moved elsewhere.
pub proof fn lemma_boats_stay_afloat(
    client: Client,
    boats: Map<u64, BoatEntry>,
    world: World,
    input: Input,
    after_client: Client,
    after: Map<u64, BoatEntry>,
    actions: Seq<Action>,
)
    requires
        stepped(client, boats, world, input, after_client, after, actions),
        afloat(world.map, boats),
    ensures
        afloat(world.map, after),
{
    if let (Phase::Spawning { name }, Input::Drawn(draws)) = (client.phase, input) {
        lemma_spawn_is_free(boats, world.map, draws@);
    }
}

/// A new boat keeps its distance from all boats that are there.
pub proof fn lemma_new_boats_keep_distance(
    client: Client,
    boats: Map<u64, BoatEntry>,
    world: World,
    input: Input,
    after_client: Client,
    after: Map<u64, BoatEntry>,
    actions: Seq<Action>,
    id: u64,
)
    requires
        stepped(client, boats, world, input, after_client, after, actions),
        !boats.contains_key(client.id),
        after.contains_key(client.id),
        boats.contains_key(id),
    ensures
        !distance(boats[id].position, after[client.id].position).below(
            F32 { bits: MIN_SEPARATION },
        ),
{
    if let (Phase::Spawning { name }, Input::Drawn(draws)) = (client.phase, input) {
        lemma_spawn_is_free(boats, world.map, draws@);
    }
}

/// A move onto anything but open water changes nothing and is told to nobody.
pub proof fn lemma_refused_move(
    client: Client,
    boats: Map<u64, BoatEntry>,
    world: World,
    id: u64,
    position: Position,
    after_client: Client,
    after: Map<u64, BoatEntry>,
    actions: Seq<Action>,
)
    requires
        stepped(
            client,
            boats,
            world,
            Input::Received(Some(GameEvent::MoveEvent { id, position })),
            after_client,
            after,
            actions,
        ),
        client.phase is Sailing,
        !world.map.passable(position),
    ensures
        after_client == client,
        after == boats,
        actions == seq![Action::Count(Metric::InvalidMoves, 1)],
{
}

/// What a client says is heard from where its boat is, whatever place the client claims.
pub proof fn lemma_words_come_from_the_boat(
    client: Client,
    boats: Map<u64, BoatEntry>,
    world: World,
    claimed: Option<Position>,
    text: String,
    after_client: Client,
    after: Map<u64, BoatEntry>,
    actions: Seq<Action>,
)
    requires
        stepped(
            client,
            boats,
            world,
            Input::Received(Some(GameEvent::SayEvent { position: claimed, text })),
            after_client,
            after,
            actions,
        ),
        client.phase is Sailing,
        berthed(client, boats),
    ensures
        actions.contains(
            Action::Broadcast(
                Envelope {
                    sender_id: client.id,
                    event: GameEvent::SayEvent {
                        position: Some(boats[client.id].position),
                        text,
                    },
                },
            ),
        ),
{
    assert(actions[1] == Action::Broadcast(
        Envelope {
            sender_id: client.id,
            event: GameEvent::SayEvent { position: Some(boats[client.id].position), text },
        },
    ));
}

/// A client has a boat on the map from when it was put to water until the client leaves.
pub proof fn lemma_boats_of_clients(
    client: Client,
    boats: Map<u64, BoatEntry>,
    world: World,
    input: Input,
    after_client: Client,
    after: Map<u64, BoatEntry>,
    actions: Seq<Action>,
)
    requires
        stepped(client, boats, world, input, after_client, after, actions),
        berthed(client, boats),
    ensures
        berthed(after_client, after),
{
}

/// Whether a client has a boat.
pub open spec fn has_boat(client: Client) -> bool {
    client.phase is Welcoming || client.phase is Introducing || client.phase is Sailing
}

/// When a client with a boat leaves, in whatever way, its boat is gone, no other boat is touched,
/// and the others are told once.
pub proof fn lemma_departure(
    client: Client,
    boats: Map<u64, BoatEntry>,
    world: World,
    input: Input,
    after_client: Client,
    after: Map<u64, BoatEntry>,
    actions: Seq<Action>,
)
    requires
        stepped(client, boats, world, input, after_client, after, actions),
        has_boat(client),
        after_client.phase is Done,
    ensures
        after == boats.remove(client.id),
        actions == seq![
            Action::CountDeparture,
            Action::Broadcast(
                Envelope {
                    sender_id: client.id,
                    event: GameEvent::ByeEvent { id: client.id },
                },
            ),
        ],
{
}

/// A connection ends where the client closes it, where it fails, where nobody has anything to tell
/// any more and where the world is full; and it counts as failed just where it failed.
pub proof fn lemma_how_it_ends(
    client: Client,
    boats: Map<u64, BoatEntry>,
    world: World,
    input: Input,
    after_client: Client,
    after: Map<u64, BoatEntry>,
    actions: Seq<Action>,
)
    requires
        stepped(client, boats, world, input, after_client, after, actions),
        !(client.phase is Done),
        after_client.phase is Done,
    ensures
        after_client.phase == (Phase::Done { failed: input is Failed }),
        match input {
            Input::Received(event) => event is None,
            Input::Failed => true,
            Input::ChannelClosed => true,
            Input::Drawn(draws) => first_free(boats, world.map, draws@) is None,
            _ => false,
        },
{
}

/// A failure ends every connection that talks to a client.
pub proof fn lemma_failure_ends(
    client: Client,
    boats: Map<u64, BoatEntry>,
    world: World,
    after_client: Client,
    after: Map<u64, BoatEntry>,
    actions: Seq<Action>,
)
    requires
        stepped(client, boats, world, Input::Failed, after_client, after, actions),
        !(client.phase is Spawning),
    ensures
        after_client.phase is Done,
{
}

/// How many connections less some actions count.
pub open spec fn departures(actions: Seq<Action>) -> nat {
    actions.filter(|a: Action| a is CountDeparture).len()
}

/// Every connection is counted off once, when it ends.
pub proof fn lemma_counted_off_once(
    client: Client,
    boats: Map<u64, BoatEntry>,
    world: World,
    input: Input,
    after_client: Client,
    after: Map<u64, BoatEntry>,
    actions: Seq<Action>,
)
    requires
        stepped(client, boats, world, input, after_client, after, actions),
    ensures
        departures(actions) == if !(client.phase is Done) && after_client.phase is Done {
            1nat
        } else {
            0nat
        },
{
    reveal_with_fuel(Seq::filter, 5);
}

/// After the end nothing happens any more.
pub proof fn lemma_the_end(
    client: Client,
    boats: Map<u64, BoatEntry>,
    world: World,
    input: Input,
    after_client: Client,
    after: Map<u64, BoatEntry>,
    actions: Seq<Action>,
)
    requires
        stepped(client, boats, world, input, after_client, after, actions),
        client.phase is Done,
    ensures
        after_client == client,
        after == boats,
        actions.len() == 0,
{
}

/// In a world that has tiles and whose chunks can be listed, nothing that a client sends is
/// refused.
pub proof fn lemma_any_input_fits(client: Client, world: World, input: Input)
    requires
        world.map.width >= 1,
        world.map.height >= 1,
        world.map.chunks_fit(),
    ensures
        input_fits(client, world, input),
{
}

/// A new boat is put to water where the search found a place, and the client is told of it; where
/// there is none, the connection is closed and the boats are as before.
pub proof fn lemma_spawning(
    client: Client,
    boats: Map<u64, BoatEntry>,
    world: World,
    draws: Vec<Offset>,
    after_client: Client,
    after: Map<u64, BoatEntry>,
    actions: Seq<Action>,
)
    requires
        stepped(client, boats, world, Input::Drawn(draws), after_client, after, actions),
        client.phase is Spawning,
    ensures
        first_free(boats, world.map, draws@) is Some <==> !(after_client.phase is Done),
        after_client.phase is Done ==> after == boats && actions == seq![
            Action::CloseFull,
            Action::CountDeparture,
        ],
        first_free(boats, world.map, draws@) matches Some(place) ==> {
            &&& after.contains_key(client.id)
            &&& after[client.id].position == place
            &&& actions[0] == Action::Send(
                GameEvent::HelloEvent { your_id: client.id, start_position: place },
            )
        },
{
}

} // verus!
