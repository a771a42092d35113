//! The life of a connected client, as the server sees it.

use std::collections::HashMap;

use vstd::prelude::*;
use vstd::std_specs::hash::group_hash_axioms;

use crate::float::{F32, F64};
use crate::listing::{list_keys, lists};
use crate::protocol::{AnchorPoint, GameEvent, Position};
use crate::tiles::{MapGrid, Tile};

use super::spawn::{find_free_position, first_free, Offset};

verus! {

/// Encoding of twenty, the metres per tile.
pub const METRES: u64 = 0x4034_0000_0000_0000;

/// Encoding of 1852, the metres per nautical mile.
pub const METRES_PER_MILE: u64 = 0x409c_f000_0000_0000;

/// Encoding of one thousand.
pub const THOUSAND: u64 = 0x408f_4000_0000_0000;

/// A boat on the map.
#[derive(Debug, Clone)]
pub struct BoatEntry {
    pub position: Position,
    pub name: String,
}

/// The boats that are sailing, by the id of their client.
pub type BoatMap = HashMap<u64, BoatEntry>;

/// An event together with the id of the client it comes from, which does not get it back.
#[derive(Debug, Clone)]
pub struct Envelope {
    pub sender_id: u64,
    pub event: GameEvent,
}

/// Low-resolution overview of the entire map, row by row from the north.
#[derive(Debug)]
pub struct OverviewData {
    pub width: u32,
    pub height: u32,
    pub data: Vec<Tile>,
}

/// What all clients share and nobody changes.
#[derive(Debug)]
pub struct World {
    pub version: String,
    pub map: MapGrid,
    pub metres_per_tile: F32,
    pub overview: OverviewData,
    pub anchors: Vec<AnchorPoint>,
}

/// How far a client has come.
#[derive(Debug)]
pub enum Phase {
    /// The server waits for a name.
    Registering,
    /// A place for the boat is to be found.
    Spawning { name: String },
    /// The client is told its id and the layout of the map.
    Welcoming { name: String },
    /// The client is told what else there is.
    Introducing { name: String },
    /// The boat is on its way.
    Sailing,
    /// The connection has ended, by a failure or as it should.
    Done { failed: bool },
}

/// A connected client.
#[derive(Debug)]
pub struct Client {
    pub id: u64,
    pub phase: Phase,
}

/// What happens to a client.
#[derive(Debug)]
pub enum Input {
    /// The connection was opened.
    Opened,
    /// The client sent an event; nothing if it closed the connection.
    Received(Option<GameEvent>),
    /// Places to try for the boat, in this order.
    Drawn(Vec<Offset>),
    /// All that was to be sent was sent.
    Sent,
    /// Some client, maybe this one, has something to tell to all.
    Relayed(Envelope),
    /// So many events passed before this client could take them.
    Lagged(u64),
    /// No client has anything to tell any more.
    ChannelClosed,
    /// Reading from the connection or writing to it failed.
    Failed,
}

/// What is counted.
#[derive(Debug, Clone, Copy, PartialEq, Eq, Structural)]
pub enum Metric {
    Moves,
    InvalidMoves,
    ChatMessages,
    MapChunkRequests,
    BroadcastLag,
    /// In thousandths of a nautical mile.
    NauticalMilesSailed,
}

/// What is to be done.
#[derive(Debug)]
pub enum Action {
    /// To tell this client something.
    Send(GameEvent),
    /// To tell all clients something.
    Broadcast(Envelope),
    /// To count something.
    Count(Metric, u64),
    /// To count one connection less.
    CountDeparture,
    /// To close the connection because the world is full; the client may try again.
    CloseFull,
}

/// How far a boat sails from one position to another, in thousandths of a nautical mile.
pub open spec fn milli_miles(from: Position, to: Position) -> u64 {
    let dx = from.x.minus(to.x).to_f64_number();
    let dy = from.y.minus(to.y).to_f64_number();
    dx.times(dx).plus(dy.times(dy)).root().times(F64 { bits: METRES }).over(
        F64 { bits: METRES_PER_MILE },
    ).times(F64 { bits: THOUSAND }).trunc(u64::MAX as nat) as u64
}

/// The boats in some order, but for one.
pub open spec fn others(
    boats: Map<u64, BoatEntry>,
    me: u64,
    order: Seq<u64>,
) -> Seq<(u64, Position, String)>
    decreases order.len(),
{
    if order.len() == 0 {
        Seq::empty()
    } else {
        let id = order.last();
        let rest = others(boats, me, order.drop_last());
        if id == me {
            rest
        } else {
            rest.push((id, boats[id].position, boats[id].name))
        }
    }
}

/// Whether an event is a snapshot of all boats but one, in any order.
pub open spec fn is_snapshot(event: GameEvent, boats: Map<u64, BoatEntry>, me: u64) -> bool {
    event matches GameEvent::WorldStateEvent { boats: list } && exists|order: Seq<u64>|
        #[trigger] lists(order, boats.dom()) && list@ == others(boats, me, order)
}

/// Whether an event is the overview of the map.
pub open spec fn is_overview(event: GameEvent, overview: OverviewData) -> bool {
    event matches GameEvent::OverviewMapEvent { width, height, data } && width == overview.width
        && height == overview.height && data@ == overview.data@
}

/// Whether an event tells of the anchor points.
pub open spec fn is_anchors(event: GameEvent, anchors: Seq<AnchorPoint>) -> bool {
    event matches GameEvent::AnchorPointsEvent { points } && points@ == anchors
}

/// The layout of the map.
pub open spec fn world_info(world: World) -> GameEvent {
    GameEvent::WorldInfoEvent {
        tile_width: world.map.width,
        tile_height: world.map.height,
        chunk_size: world.map.chunk_size,
        meters_per_tile: world.metres_per_tile,
    }
}

/// Whether an input can be handled: moves and boats need a map that has tiles, and chunks must be
/// such that they can be listed. What a client sends makes no difference.
pub open spec fn input_fits(client: Client, world: World, input: Input) -> bool {
    let has_tiles = world.map.width >= 1 && world.map.height >= 1;
    match (client.phase, input) {
        (Phase::Spawning { name }, Input::Drawn(draws)) => draws@.len() > 0 ==> has_tiles,
        (
            Phase::Sailing,
            Input::Received(Some(GameEvent::MoveEvent { id, position })),
        ) => has_tiles,
        (
            Phase::Sailing,
            Input::Received(Some(GameEvent::MapChunkRequest { chunk_x, chunk_y })),
        ) => world.map.chunks_fit(),
        _ => true,
    }
}

/// What becomes of the boats and what is to be done when a sailing client sends an event.
pub open spec fn event_taken(
    me: u64,
    boats: Map<u64, BoatEntry>,
    world: World,
    event: GameEvent,
    after: Map<u64, BoatEntry>,
    actions: Seq<Action>,
) -> bool {
    match event {
        GameEvent::SayEvent { position, text } => {
            let place = if boats.contains_key(me) {
                Some(boats[me].position)
            } else {
                position
            };
            &&& after == boats
            &&& actions =~= seq![
                Action::Count(Metric::ChatMessages, 1),
                Action::Broadcast(
                    Envelope {
                        sender_id: me,
                        event: GameEvent::SayEvent { position: place, text },
                    },
                ),
            ]
        },
        GameEvent::MoveEvent { id, position } => {
            let told = seq![
                Action::Count(Metric::Moves, 1),
                Action::Broadcast(
                    Envelope { sender_id: me, event: GameEvent::MoveEvent { id: me, position } },
                ),
            ];
            if !world.map.passable(position) {
                after == boats && actions =~= seq![Action::Count(Metric::InvalidMoves, 1)]
            } else if boats.contains_key(me) {
                &&& after == boats.insert(me, BoatEntry { position, name: boats[me].name })
                &&& actions =~= seq![
                    Action::Count(
                        Metric::NauticalMilesSailed,
                        milli_miles(boats[me].position, position),
                    ),
                ] + told
            } else {
                after == boats && actions =~= told
            }
        },
        GameEvent::MapChunkRequest { chunk_x, chunk_y } => {
            &&& after == boats
            &&& actions.len() == 2
            &&& actions[0] == Action::Count(Metric::MapChunkRequests, 1)
            &&& actions[1] matches Action::Send(GameEvent::MapChunkResponse {
                chunk_x: x,
                chunk_y: y,
                data,
            }) && x == chunk_x && y == chunk_y && data@ == world.map.chunk(
                chunk_x as int,
                chunk_y as int,
            )
        },
        _ => after == boats && actions =~= Seq::<Action>::empty(),
    }
}

/// Whether an input does this to a client and to the boats, and asks for these actions.
pub open spec fn stepped(
    client: Client,
    boats: Map<u64, BoatEntry>,
    world: World,
    input: Input,
    after_client: Client,
    after: Map<u64, BoatEntry>,
    actions: Seq<Action>,
) -> bool {
    let me = client.id;
    let nothing = Seq::<Action>::empty();
    let ended = Client { id: me, phase: Phase::Done { failed: false } };
    let broken = Client { id: me, phase: Phase::Done { failed: true } };
    let still = after_client == client && after == boats && actions =~= nothing;
    let left = after == boats.remove(me) && actions =~= seq![
        Action::CountDeparture,
        Action::Broadcast(Envelope { sender_id: me, event: GameEvent::ByeEvent { id: me } }),
    ];
    let gone = after == boats && actions =~= seq![Action::CountDeparture];
    match (client.phase, input) {
        (Phase::Registering, Input::Opened) => {
            &&& after_client == client
            &&& after == boats
            &&& actions =~= seq![
                Action::Send(GameEvent::ServerVersionEvent { version: world.version }),
            ]
        },
        (Phase::Registering, Input::Received(Some(GameEvent::RegisterEvent { name }))) => {
            &&& after_client == (Client { id: me, phase: Phase::Spawning { name } })
            &&& after == boats
            &&& actions =~= nothing
        },
        (Phase::Registering, Input::Received(None)) => after_client == ended && gone,
        (Phase::Registering, Input::Failed) => after_client == broken && gone,
        (Phase::Spawning { name }, Input::Drawn(draws)) => match first_free(
            boats,
            world.map,
            draws@,
        ) {
            Some(position) => {
                &&& after_client == (Client { id: me, phase: Phase::Welcoming { name } })
                &&& after == boats.insert(me, BoatEntry { position, name })
                &&& actions =~= seq![
                    Action::Send(GameEvent::HelloEvent { your_id: me, start_position: position }),
                    Action::Send(world_info(world)),
                ]
            },
            None => {
                &&& after_client == ended
                &&& after == boats
                &&& actions =~= seq![Action::CloseFull, Action::CountDeparture]
            },
        },
        (Phase::Welcoming { name }, Input::Sent) => {
            &&& after_client == (Client { id: me, phase: Phase::Introducing { name } })
            &&& after == boats
            &&& actions.len() == 3
            &&& actions[0] matches Action::Send(event) && is_snapshot(event, boats, me)
            &&& actions[1] matches Action::Send(event) && is_overview(event, world.overview)
            &&& actions[2] matches Action::Send(event) && is_anchors(event, world.anchors@)
        },
        (Phase::Welcoming { name }, Input::Failed) => after_client == broken && left,
        (Phase::Introducing { name }, Input::Sent) => {
            &&& after_client == (Client { id: me, phase: Phase::Sailing })
            &&& after == boats
            &&& actions =~= seq![
                Action::Broadcast(
                    Envelope { sender_id: me, event: GameEvent::NameEvent { id: me, name } },
                ),
            ]
        },
        (Phase::Introducing { name }, Input::Failed) => after_client == broken && left,
        (Phase::Sailing, Input::Received(Some(event))) => {
            &&& after_client == client
            &&& event_taken(me, boats, world, event, after, actions)
        },
        (Phase::Sailing, Input::Received(None)) => after_client == ended && left,
        (Phase::Sailing, Input::ChannelClosed) => after_client == ended && left,
        (Phase::Sailing, Input::Failed) => after_client == broken && left,
        (Phase::Sailing, Input::Relayed(envelope)) => {
            &&& after_client == client
            &&& after == boats
            &&& actions =~= if envelope.sender_id == me {
                nothing
            } else {
                seq![Action::Send(envelope.event)]
            }
        },
        (Phase::Sailing, Input::Lagged(n)) => {
            &&& after_client == client
            &&& after == boats
            &&& actions =~= seq![Action::Count(Metric::BroadcastLag, n)]
        },
        _ => still,
    }
}

/// How far a boat sails from one position to another, in thousandths of a nautical mile.
fn miles_sailed(from: Position, to: Position) -> (r: u64)
    ensures
        r == milli_miles(from, to),
{
    let dx: F64 = from.x.sub(to.x).to_f64();
    let dy: F64 = from.y.sub(to.y).to_f64();
    let tiles: F64 = dx.mul(dx).add(dy.mul(dy)).sqrt();
    let miles: F64 = tiles.mul(F64 { bits: METRES }).div(F64 { bits: METRES_PER_MILE });
    miles.mul(F64 { bits: THOUSAND }).to_u64()
}

/// A snapshot of all boats but one.
fn snapshot(boats: &BoatMap, me: u64) -> (r: Vec<(u64, Position, String)>)
    ensures
        exists|order: Seq<u64>|
            #[trigger] lists(order, boats@.dom()) && r@ == others(boats@, me, order),
{
    broadcast use group_hash_axioms;

    let order: Vec<u64> = list_keys(boats);
    let mut r: Vec<(u64, Position, String)> = Vec::new();
    let mut i: usize = 0;
    assert(order@.take(0) =~= Seq::<u64>::empty());
    while i < order.len()
        invariant
            i <= order.len(),
            lists(order@, boats@.dom()),
            r@ == others(boats@, me, order@.take(i as int)),
        decreases order.len() - i,
    {
        broadcast use group_hash_axioms;

        let id: u64 = order[i];
        proof {
            assert(order@.contains(id));
            assert(boats@.contains_key(id));
            let part = order@.take(i + 1);
            assert(part.drop_last() =~= order@.take(i as int));
            assert(part.last() == id);
        }
        if id != me {
            if let Some(boat) = boats.get(&id) {
                r.push((id, boat.position, boat.name.clone()));
            }
        }
        i = i + 1;
    }
    assert(order@.take(order@.len() as int) =~= order@);
    r
}

/// The tiles of an overview.
fn copy_tiles(data: &Vec<Tile>) -> (r: Vec<Tile>)
    ensures
        r@ == data@,
{
    let mut r: Vec<Tile> = Vec::new();
    let mut i: usize = 0;
    while i < data.len()
        invariant
            i <= data.len(),
            r@ == data@.take(i as int),
        decreases data.len() - i,
    {
        r.push(data[i]);
        i = i + 1;
        assert(r@ =~= data@.take(i as int));
    }
    assert(data@.take(data@.len() as int) =~= data@);
    r
}

/// The anchor points, once more.
fn copy_anchors(anchors: &Vec<AnchorPoint>) -> (r: Vec<AnchorPoint>)
    ensures
        r@ == anchors@,
{
    let mut r: Vec<AnchorPoint> = Vec::new();
    let mut i: usize = 0;
    while i < anchors.len()
        invariant
            i <= anchors.len(),
            r@ == anchors@.take(i as int),
        decreases anchors.len() - i,
    {
        let a: &AnchorPoint = &anchors[i];
        let note: Option<String> = match &a.note {
            Some(s) => Some(s.clone()),
            None => None,
        };
        r.push(AnchorPoint { id: a.id, name: a.name.clone(), position: a.position, note });
        i = i + 1;
        assert(r@ =~= anchors@.take(i as int));
    }
    assert(anchors@.take(anchors@.len() as int) =~= anchors@);
    r
}

/// Takes in an event from a sailing client.
fn take_event(me: u64, boats: &mut BoatMap, world: &World, event: GameEvent) -> (actions: Vec<
    Action,
>)
    requires
        input_fits(
            Client { id: me, phase: Phase::Sailing },
            *world,
            Input::Received(Some(event)),
        ),
    ensures
        event_taken(me, old(boats)@, *world, event, final(boats)@, actions@),
{
    broadcast use group_hash_axioms;

    let mut actions: Vec<Action> = Vec::new();
    match event {
        GameEvent::SayEvent { position, text } => {
            let place: Option<Position> = match boats.get(&me) {
                Some(boat) => Some(boat.position),
                None => position,
            };
            actions.push(Action::Count(Metric::ChatMessages, 1));
            actions.push(
                Action::Broadcast(
                    Envelope {
                        sender_id: me,
                        event: GameEvent::SayEvent { position: place, text },
                    },
                ),
            );
        },
        GameEvent::MoveEvent { id, position } => {
            if !world.map.is_passable(&position) {
                actions.push(Action::Count(Metric::InvalidMoves, 1));
                return actions;
            }
            let moved: Option<BoatEntry> = match boats.get(&me) {
                Some(boat) => {
                    actions.push(
                        Action::Count(
                            Metric::NauticalMilesSailed,
                            miles_sailed(boat.position, position),
                        ),
                    );
                    Some(BoatEntry { position, name: boat.name.clone() })
                },
                None => None,
            };
            if let Some(boat) = moved {
                boats.insert(me, boat);
            }
            actions.push(Action::Count(Metric::Moves, 1));
            actions.push(
                Action::Broadcast(
                    Envelope { sender_id: me, event: GameEvent::MoveEvent { id: me, position } },
                ),
            );
        },
        GameEvent::MapChunkRequest { chunk_x, chunk_y } => {
            let data: Vec<Tile> = world.map.chunk_data(chunk_x, chunk_y);
            actions.push(Action::Count(Metric::MapChunkRequests, 1));
            actions.push(
                Action::Send(GameEvent::MapChunkResponse { chunk_x, chunk_y, data }),
            );
        },
        _ => {},
    }
    actions
}

/// Takes a client off the map.
fn leave(me: u64, boats: &mut BoatMap) -> (actions: Vec<Action>)
    ensures
        final(boats)@ == old(boats)@.remove(me),
        actions@ == seq![
            Action::CountDeparture,
            Action::Broadcast(Envelope { sender_id: me, event: GameEvent::ByeEvent { id: me } }),
        ],
{
    broadcast use group_hash_axioms;

    boats.remove(&me);
    let mut actions: Vec<Action> = Vec::new();
    actions.push(Action::CountDeparture);
    actions.push(
        Action::Broadcast(Envelope { sender_id: me, event: GameEvent::ByeEvent { id: me } }),
    );
    actions
}

/// Whether an input can be handled.
pub fn can_handle(client: &Client, world: &World, input: &Input) -> (r: bool)
    ensures
        r == input_fits(*client, *world, *input),
{
    let has_tiles: bool = world.map.width >= 1 && world.map.height >= 1;
    match (&client.phase, input) {
        (Phase::Spawning { name }, Input::Drawn(draws)) => draws.len() == 0 || has_tiles,
        (
            Phase::Sailing,
            Input::Received(Some(GameEvent::MoveEvent { id, position })),
        ) => has_tiles,
        (
            Phase::Sailing,
            Input::Received(Some(GameEvent::MapChunkRequest { chunk_x, chunk_y })),
        ) => world.map.can_list_chunks(),
        _ => true,
    }
}

/// Drives a connected client one step on.
///
/// - Waits for the initial `RegisterEvent`.
/// - Finds a free spawn position; closes the connection if the world is full.
/// - Sends `HelloEvent`, `WorldInfoEvent`, a `WorldStateEvent` snapshot, the overview and the
///   anchor points.
/// - Then forwards moves and chat to all clients and relays what other clients have to tell.
/// - When the client leaves, in whatever way: counts it off, takes its boat off the map and tells
///   the others.
pub fn handle(client: &mut Client, boats: &mut BoatMap, world: &World, input: Input) -> (actions:
    Vec<Action>)
    requires
        input_fits(*old(client), *world, input),
    ensures
        stepped(
            *old(client),
            old(boats)@,
            *world,
            input,
            *final(client),
            final(boats)@,
            actions@,
        ),
{
    broadcast use group_hash_axioms;

    let me: u64 = client.id;
    let mut phase: Phase = Phase::Done { failed: false };
    core::mem::swap(&mut phase, &mut client.phase);
    let mut actions: Vec<Action> = Vec::new();
    match (phase, input) {
        (Phase::Registering, Input::Opened) => {
            actions.push(
                Action::Send(GameEvent::ServerVersionEvent { version: world.version.clone() }),
            );
            client.phase = Phase::Registering;
        },
        (Phase::Registering, Input::Received(Some(GameEvent::RegisterEvent { name }))) => {
            client.phase = Phase::Spawning { name };
        },
        (Phase::Registering, Input::Received(None)) => {
            actions.push(Action::CountDeparture);
        },
        (Phase::Registering, Input::Failed) => {
            actions.push(Action::CountDeparture);
            client.phase = Phase::Done { failed: true };
        },
        (Phase::Spawning { name }, Input::Drawn(draws)) => {
            match find_free_position(boats, &world.map, &draws) {
                Some(position) => {
                    boats.insert(me, BoatEntry { position, name: name.clone() });
                    actions.push(
                        Action::Send(
                            GameEvent::HelloEvent { your_id: me, start_position: position },
                        ),
                    );
                    actions.push(
                        Action::Send(
                            GameEvent::WorldInfoEvent {
                                tile_width: world.map.width,
                                tile_height: world.map.height,
                                chunk_size: world.map.chunk_size,
                                meters_per_tile: world.metres_per_tile,
                            },
                        ),
                    );
                    client.phase = Phase::Welcoming { name };
                },
                None => {
                    actions.push(Action::CloseFull);
                    actions.push(Action::CountDeparture);
                },
            }
        },
        (Phase::Welcoming { name }, Input::Sent) => {
            actions.push(
                Action::Send(GameEvent::WorldStateEvent { boats: snapshot(boats, me) }),
            );
            actions.push(
                Action::Send(
                    GameEvent::OverviewMapEvent {
                        width: world.overview.width,
                        height: world.overview.height,
                        data: copy_tiles(&world.overview.data),
                    },
                ),
            );
            actions.push(
                Action::Send(
                    GameEvent::AnchorPointsEvent { points: copy_anchors(&world.anchors) },
                ),
            );
            client.phase = Phase::Introducing { name };
        },
        (Phase::Welcoming { name }, Input::Failed) => {
            actions = leave(me, boats);
            client.phase = Phase::Done { failed: true };
        },
        (Phase::Introducing { name }, Input::Sent) => {
            actions.push(
                Action::Broadcast(
                    Envelope { sender_id: me, event: GameEvent::NameEvent { id: me, name } },
                ),
            );
            client.phase = Phase::Sailing;
        },
        (Phase::Introducing { name }, Input::Failed) => {
            actions = leave(me, boats);
            client.phase = Phase::Done { failed: true };
        },
        (Phase::Sailing, Input::Received(Some(event))) => {
            client.phase = Phase::Sailing;
            actions = take_event(me, boats, world, event);
        },
        (Phase::Sailing, Input::Received(None)) => {
            actions = leave(me, boats);
        },
        (Phase::Sailing, Input::ChannelClosed) => {
            actions = leave(me, boats);
        },
        (Phase::Sailing, Input::Failed) => {
            actions = leave(me, boats);
            client.phase = Phase::Done { failed: true };
        },
        (Phase::Sailing, Input::Relayed(envelope)) => {
            if envelope.sender_id != me {
                actions.push(Action::Send(envelope.event));
            }
            client.phase = Phase::Sailing;
        },
        (Phase::Sailing, Input::Lagged(n)) => {
            actions.push(Action::Count(Metric::BroadcastLag, n));
            client.phase = Phase::Sailing;
        },
        (phase, _) => {
            client.phase = phase;
        },
    }
    actions
}

} // verus!
