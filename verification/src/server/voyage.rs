//! What a client meets with from its registration on.

use vstd::prelude::*;

use crate::protocol::{GameEvent, Position};

use super::handler::{
    milli_miles, stepped, Action, BoatEntry, Client, Envelope, Input, Metric, Phase, World,
};
use super::spawn::Offset;

verus! {

/// The name that a client registers with is the name of its boat, and the others are told of it
/// once the client has been told where it is; the client goes by no other way from its registration
/// to the sea.
pub proof fn lemma_registered_name_is_told(
    states: Seq<Client>,
    fleets: Seq<Map<u64, BoatEntry>>,
    todo: Seq<Seq<Action>>,
    world: World,
    name: String,
    draws: Vec<Offset>,
)
    requires
        states.len() == 5,
        fleets.len() == 5,
        todo.len() == 4,
        states[0].phase is Registering,
        stepped(
            states[0],
            fleets[0],
            world,
            Input::Received(Some(GameEvent::RegisterEvent { name })),
            states[1],
            fleets[1],
            todo[0],
        ),
        stepped(
            states[1],
            fleets[1],
            world,
            Input::Drawn(draws),
            states[2],
            fleets[2],
            todo[1],
        ),
        !(states[2].phase is Done),
        stepped(states[2], fleets[2], world, Input::Sent, states[3], fleets[3], todo[2]),
        stepped(states[3], fleets[3], world, Input::Sent, states[4], fleets[4], todo[3]),
    ensures
        states[4].phase is Sailing,
        states[4].id == states[0].id,
        fleets[4].contains_key(states[0].id),
        fleets[4][states[0].id].name == name,
        todo[0].len() == 0,
        todo[3] == seq![
            Action::Broadcast(
                Envelope {
                    sender_id: states[0].id,
                    event: GameEvent::NameEvent { id: states[0].id, name },
                },
            ),
        ],
        todo[1].len() == 2,
        todo[1][0] == Action::Send(
            GameEvent::HelloEvent {
                your_id: states[0].id,
                start_position: fleets[4][states[0].id].position,
            },
        ),
        todo[1][1] matches Action::Send(GameEvent::WorldInfoEvent {
            tile_width,
            tile_height,
            chunk_size,
            meters_per_tile,
        }) && tile_width == world.map.width && tile_height == world.map.height && chunk_size
            == world.map.chunk_size && meters_per_tile == world.metres_per_tile,
{
}

/// A newcomer is shown the fleet, then the overview, then the anchor points, all as the server has
/// them.
pub proof fn lemma_what_newcomers_are_shown(
    client: Client,
    boats: Map<u64, BoatEntry>,
    world: World,
    after_client: Client,
    after: Map<u64, BoatEntry>,
    actions: Seq<Action>,
)
    requires
        client.phase is Welcoming,
        stepped(client, boats, world, Input::Sent, after_client, after, actions),
    ensures
        actions.len() == 3,
        after == boats,
        actions[0] matches Action::Send(event) && event is WorldStateEvent,
        actions[1] matches Action::Send(GameEvent::OverviewMapEvent { width, height, data }) && width
            == world.overview.width && height == world.overview.height && data@
            == world.overview.data@,
        actions[2] matches Action::Send(GameEvent::AnchorPointsEvent { points }) && points@
            == world.anchors@,
{
}

/// Until it has registered, a client is told the version of the server when it comes, and anything
/// that it sends but a registration is passed over.
pub proof fn lemma_before_registration(
    client: Client,
    boats: Map<u64, BoatEntry>,
    world: World,
    input: Input,
    after_client: Client,
    after: Map<u64, BoatEntry>,
    actions: Seq<Action>,
)
    requires
        client.phase is Registering,
        stepped(client, boats, world, input, after_client, after, actions),
    ensures
        after == boats,
        input is Opened ==> after_client == client && actions.len() == 1 && (actions[0] matches
            Action::Send(GameEvent::ServerVersionEvent { version }) && version == world.version),
        (input matches Input::Received(Some(event)) && !(event is RegisterEvent)) ==> after_client
            == client && actions.len() == 0,
        after_client.phase is Spawning ==> (input matches Input::Received(Some(
            GameEvent::RegisterEvent { name },
        )) && after_client.phase == (Phase::Spawning { name })),
{
}

/// How often something is counted by some actions, and how much.
pub open spec fn counted(actions: Seq<Action>, what: Metric) -> Seq<u64>
    decreases actions.len(),
{
    if actions.len() == 0 {
        Seq::empty()
    } else {
        let rest = counted(actions.drop_last(), what);
        match actions.last() {
            Action::Count(m, n) => if m == what {
                rest.push(n)
            } else {
                rest
            },
            _ => rest,
        }
    }
}

/// A move of a sailing client with a boat onto open water puts its boat there under its old name,
/// and is counted once, with the way from where the boat was; one that leads elsewhere is counted
/// as invalid and as nothing else.
pub proof fn lemma_moves_count(
    client: Client,
    boats: Map<u64, BoatEntry>,
    world: World,
    id: u64,
    position: Position,
    after_client: Client,
    after: Map<u64, BoatEntry>,
    actions: Seq<Action>,
)
    requires
        client.phase is Sailing,
        boats.contains_key(client.id),
        stepped(
            client,
            boats,
            world,
            Input::Received(Some(GameEvent::MoveEvent { id, position })),
            after_client,
            after,
            actions,
        ),
    ensures
        ({
            let good = world.map.passable(position);
            let old_place = boats[client.id].position;
            &&& after.contains_key(client.id)
            &&& after[client.id].name == boats[client.id].name
            &&& after[client.id].position == if good { position } else { old_place }
            &&& counted(actions, Metric::Moves) == if good { seq![1u64] } else { Seq::empty() }
            &&& counted(actions, Metric::InvalidMoves) == if good { Seq::empty() } else { seq![1u64] }
            &&& counted(actions, Metric::NauticalMilesSailed) == if good {
                seq![milli_miles(old_place, position)]
            } else {
                Seq::empty()
            }
            &&& counted(actions, Metric::ChatMessages).len() == 0
            &&& good ==> actions.last() == Action::Broadcast(
                Envelope {
                    sender_id: client.id,
                    event: GameEvent::MoveEvent { id: client.id, position },
                },
            )
        }),
{
    reveal_with_fuel(counted, 4);
    if world.map.passable(position) {
        assert(actions.len() == 3);
        assert(actions.drop_last() =~= seq![actions[0], actions[1]]);
        assert(actions.drop_last().drop_last() =~= seq![actions[0]]);
        assert(actions.drop_last().drop_last().drop_last() =~= Seq::<Action>::empty());
    } else {
        assert(actions.drop_last() =~= Seq::<Action>::empty());
    }
}

/// Everything else that a sailing client sends leaves all boats where they are. Chat and requests
/// for chunks are counted once each; what no client has to tell is passed over.
pub proof fn lemma_what_else_counts(
    client: Client,
    boats: Map<u64, BoatEntry>,
    world: World,
    event: GameEvent,
    after_client: Client,
    after: Map<u64, BoatEntry>,
    actions: Seq<Action>,
)
    requires
        client.phase is Sailing,
        !(event is MoveEvent),
        stepped(
            client,
            boats,
            world,
            Input::Received(Some(event)),
            after_client,
            after,
            actions,
        ),
    ensures
        after_client == client,
        after == boats,
        counted(actions, Metric::ChatMessages) == if event is SayEvent {
            seq![1u64]
        } else {
            Seq::empty()
        },
        counted(actions, Metric::MapChunkRequests) == if event is MapChunkRequest {
            seq![1u64]
        } else {
            Seq::empty()
        },
        !(event is SayEvent) && !(event is MapChunkRequest) ==> actions.len() == 0,
{
    reveal_with_fuel(counted, 3);
    if actions.len() == 2 {
        assert(actions.drop_last() =~= seq![actions[0]]);
        assert(actions.drop_last().drop_last() =~= Seq::<Action>::empty());
    }
}

/// Where a client could not keep up with what others had to tell, what it missed is counted, and it
/// sails on.
pub proof fn lemma_what_is_missed_counts(
    client: Client,
    boats: Map<u64, BoatEntry>,
    world: World,
    missed: u64,
    after_client: Client,
    after: Map<u64, BoatEntry>,
    actions: Seq<Action>,
)
    requires
        client.phase is Sailing,
        stepped(client, boats, world, Input::Lagged(missed), after_client, after, actions),
    ensures
        after_client == client,
        after == boats,
        actions.len() == 1,
        actions[0] == Action::Count(Metric::BroadcastLag, missed),
{
}

} // verus!
