//! What a client does with what the server tells it.

use std::collections::HashMap;

use vstd::prelude::*;
use vstd::std_specs::hash::group_hash_axioms;

use crate::float::F32;
use crate::protocol::{GameEvent, Position};
use crate::text::{decimal, decimal_text};

use super::app::{
    chunk_key, chunk_number, App, Bubble, Direction, OverviewMap, RemoteBoat, UpdateStatus, WorldInfo,
};
use super::input::{can_handle_key, handle_key, key_fits, key_handled, KeyEvent, Reply};
use super::version::{
    compatible, is_update, parsed_release, update_available, versions_match,
};

verus! {

/// The boats after a snapshot; where an id comes twice, the later entry counts.
pub open spec fn with_boats(
    boats: Map<u64, RemoteBoat>,
    snapshot: Seq<(u64, Position, String)>,
) -> Map<u64, RemoteBoat>
    decreases snapshot.len(),
{
    if snapshot.len() == 0 {
        boats
    } else {
        let (id, position, name) = snapshot.last();
        with_boats(boats, snapshot.drop_last()).insert(
            id,
            RemoteBoat { position, name, last_dir: Direction::Right },
        )
    }
}

/// Where a boat heads after a move: along the longer leg of it, and as before if it stays.
pub open spec fn course(from: Position, to: Position, last: Direction) -> Direction {
    let zero = F32 { bits: 0 };
    let dx = to.x.minus(from.x);
    let dy = to.y.minus(from.y);
    if !zero.below(dx.absolute()) && !zero.below(dy.absolute()) {
        last
    } else if dy.absolute().at_most(dx.absolute()) {
        if zero.below(dx) {
            Direction::Right
        } else {
            Direction::Left
        }
    } else {
        if zero.below(dy) {
            Direction::Down
        } else {
            Direction::Up
        }
    }
}

/// Where a boat heads after a move.
fn course_of(from: Position, to: Position, last: Direction) -> (r: Direction)
    ensures
        r == course(from, to, last),
{
    let zero: F32 = F32 { bits: 0 };
    let dx: F32 = to.x.sub(from.x);
    let dy: F32 = to.y.sub(from.y);
    if !zero.lt(dx.abs()) && !zero.lt(dy.abs()) {
        last
    } else if dy.abs().le(dx.abs()) {
        if zero.lt(dx) {
            Direction::Right
        } else {
            Direction::Left
        }
    } else {
        if zero.lt(dy) {
            Direction::Down
        } else {
            Direction::Up
        }
    }
}

/// Whether `after` differs from `before` at most in the boats.
pub open spec fn only_boats_differ(before: App, after: App) -> bool {
    after == (App { remote_boats: after.remote_boats, ..before })
}

/// The client once it knows the layout of the map.
pub open spec fn with_world(app: App, wi: WorldInfo) -> App {
    App { world_info: Some(wi), ..app }
}

/// Whether an event can be handled: a layout must have chunks to ask for.
pub open spec fn event_fits(event: GameEvent) -> bool {
    match event {
        GameEvent::WorldInfoEvent {
            tile_width,
            tile_height,
            chunk_size,
            meters_per_tile,
        } => chunk_size >= 1,
        _ => true,
    }
}

/// Whether `after` is the client after an event from the server.
pub open spec fn handled(before: App, event: GameEvent, now: u64, own: Seq<char>, after: App) -> bool {
    match event {
        GameEvent::HelloEvent { your_id, start_position } => after == (App {
            my_id: Some(your_id),
            cursor: start_position,
            ..before
        }),
        GameEvent::WorldInfoEvent {
            tile_width,
            tile_height,
            chunk_size,
            meters_per_tile,
        } => with_world(before, WorldInfo { tile_width, tile_height, chunk_size }).asked_for_chunks(
            after,
        ),
        GameEvent::MapChunkResponse { chunk_x, chunk_y, data } => {
            let n = chunk_number(chunk_x, chunk_y);
            &&& after.loaded_chunks@ == before.loaded_chunks@.insert(n, data)
            &&& after.pending_chunks@ == before.pending_chunks@.remove(n)
            &&& after == (App {
                loaded_chunks: after.loaded_chunks,
                pending_chunks: after.pending_chunks,
                ..before
            })
        },
        GameEvent::WorldStateEvent { boats } => {
            &&& after.remote_boats@ == with_boats(before.remote_boats@, boats@)
            &&& only_boats_differ(before, after)
        },
        GameEvent::NameEvent { id, name } => {
            let old_boats = before.remote_boats@;
            let boat = if old_boats.contains_key(id) {
                RemoteBoat { name, ..old_boats[id] }
            } else {
                let zero = F32 { bits: 0 };
                RemoteBoat {
                    position: Position { x: zero, y: zero },
                    name,
                    last_dir: Direction::Right,
                }
            };
            &&& after.remote_boats@ == old_boats.insert(id, boat)
            &&& only_boats_differ(before, after)
        },
        GameEvent::MoveEvent { id, position } => {
            let old_boats = before.remote_boats@;
            let boats = after.remote_boats@;
            &&& boats == old_boats.insert(id, boats[id])
            &&& if old_boats.contains_key(id) {
                boats[id] == (RemoteBoat {
                    position,
                    name: old_boats[id].name,
                    last_dir: course(old_boats[id].position, position, old_boats[id].last_dir),
                })
            } else {
                &&& boats[id].position == position
                &&& boats[id].name@ == decimal(id as nat)
                &&& boats[id].last_dir == Direction::Right
            }
            &&& only_boats_differ(before, after)
        },
        GameEvent::ByeEvent { id } => {
            &&& after.remote_boats@ == before.remote_boats@.remove(id)
            &&& only_boats_differ(before, after)
        },
        GameEvent::SayEvent { position, text } => {
            let place = match position {
                Some(p) => p,
                None => before.cursor,
            };
            &&& after.bubbles@ == before.bubbles@.push(
                Bubble { position: place, text, received_at: now },
            )
            &&& after == (App { bubbles: after.bubbles, ..before })
        },
        GameEvent::ServerVersionEvent { version } => after == (App {
            update_status: if compatible(parsed_release(version@), parsed_release(own)) {
                UpdateStatus::Compatible { patch_available: None }
            } else {
                UpdateStatus::Incompatible { server_version: version }
            },
            ..before
        }),
        GameEvent::OverviewMapEvent { width, height, data } => after == (App {
            overview: Some(OverviewMap { width, height, data }),
            ..before
        }),
        GameEvent::AnchorPointsEvent { points } => after == before,
        GameEvent::RegisterEvent { name } => after == before,
        GameEvent::MapChunkRequest { chunk_x, chunk_y } => after == before,
    }
}

/// Whether an event can be handled.
pub fn can_handle(event: &GameEvent) -> (r: bool)
    ensures
        r == event_fits(*event),
{
    match event {
        GameEvent::WorldInfoEvent { tile_width, tile_height, chunk_size, meters_per_tile } => {
            *chunk_size >= 1
        },
        _ => true,
    }
}

/// Adds the boats of a snapshot.
fn add_boats(boats: &mut HashMap<u64, RemoteBoat>, snapshot: Vec<(u64, Position, String)>)
    ensures
        final(boats)@ == with_boats(old(boats)@, snapshot@),
{
    broadcast use group_hash_axioms;

    let ghost all = snapshot@;
    let ghost start = boats@;
    assert(all.take(0) =~= Seq::<(u64, Position, String)>::empty());
    for b in it: snapshot
        invariant
            it.seq() == all,
            boats@ == with_boats(start, all.take(it.index())),
    {
        broadcast use group_hash_axioms;

        proof {
            let part = all.take(it.index() + 1);
            assert(part.drop_last() =~= all.take(it.index()));
            assert(part.last() == b);
        }
        let (id, position, name) = b;
        boats.insert(id, RemoteBoat { position, name, last_dir: Direction::Right });
    }
    assert(all.take(all.len() as int) =~= all);
}

/// Takes in an event from the server.
pub fn handle_server_event(app: &mut App, event: GameEvent, now: u64, own: &str)
    requires
        event_fits(event),
    ensures
        handled(*old(app), event, now, own@, *final(app)),
{
    broadcast use group_hash_axioms;

    let ghost before = *app;
    match event {
        GameEvent::HelloEvent { your_id, start_position } => {
            app.my_id = Some(your_id);
            app.cursor = start_position;
        },
        GameEvent::WorldInfoEvent { tile_width, tile_height, chunk_size, meters_per_tile } => {
            app.world_info = Some(WorldInfo { tile_width, tile_height, chunk_size });
            app.ensure_chunks_loaded();
        },
        GameEvent::MapChunkResponse { chunk_x, chunk_y, data } => {
            let key: u64 = chunk_key(chunk_x, chunk_y);
            app.pending_chunks.remove(&key);
            app.loaded_chunks.insert(key, data);
        },
        GameEvent::WorldStateEvent { boats } => {
            add_boats(&mut app.remote_boats, boats);
        },
        GameEvent::NameEvent { id, name } => {
            let boat: RemoteBoat = match app.remote_boats.get(&id) {
                Some(b) => RemoteBoat { position: b.position, name, last_dir: b.last_dir },
                None => {
                    let zero: F32 = F32 { bits: 0 };
                    RemoteBoat {
                        position: Position { x: zero, y: zero },
                        name,
                        last_dir: Direction::Right,
                    }
                },
            };
            app.remote_boats.insert(id, boat);
        },
        GameEvent::MoveEvent { id, position } => {
            let boat: RemoteBoat = match app.remote_boats.get(&id) {
                Some(b) => RemoteBoat {
                    position,
                    name: b.name.clone(),
                    last_dir: course_of(b.position, position, b.last_dir),
                },
                None => RemoteBoat {
                    position,
                    name: decimal_text(id),
                    last_dir: Direction::Right,
                },
            };
            app.remote_boats.insert(id, boat);
        },
        GameEvent::ByeEvent { id } => {
            app.remote_boats.remove(&id);
        },
        GameEvent::SayEvent { position, text } => {
            let place: Position = match position {
                Some(p) => p,
                None => app.cursor,
            };
            app.push_bubble(place, text, now);
        },
        GameEvent::ServerVersionEvent { version } => {
            app.update_status = if versions_match(version.as_str(), own) {
                UpdateStatus::Compatible { patch_available: None }
            } else {
                UpdateStatus::Incompatible { server_version: version }
            };
        },
        GameEvent::OverviewMapEvent { width, height, data } => {
            app.overview = Some(OverviewMap { width, height, data });
        },
        GameEvent::AnchorPointsEvent { points } => {},
        GameEvent::RegisterEvent { name } => {},
        GameEvent::MapChunkRequest { chunk_x, chunk_y } => {},
    }
}

/// What reaches the game from inside of the client.
#[derive(Debug)]
pub enum AppMsg {
    Key(KeyEvent),
    /// Time has passed.
    Tick,
    /// The version of the latest release.
    LatestRelease(String),
}

/// What ends the wait of a turn.
#[derive(Debug)]
pub enum Turn {
    /// A message, or that there will be none any more.
    Message(Option<AppMsg>),
    /// An event from the server, or that it has closed the connection.
    Server(Option<GameEvent>),
}

/// What is known once the latest release is: an update is only offered to a client that fits the
/// server.
pub open spec fn status_after_release(
    status: UpdateStatus,
    release: String,
    is_newer: bool,
) -> UpdateStatus {
    if is_newer && !(status is Incompatible) {
        UpdateStatus::Compatible { patch_available: Some(release) }
    } else {
        status
    }
}

/// Whether a turn can be carried out.
pub open spec fn turn_fits(app: App, turn: Turn) -> bool {
    match turn {
        Turn::Message(Some(AppMsg::Key(key))) => key_fits(app, key),
        Turn::Server(Some(event)) => event_fits(event),
        _ => true,
    }
}

/// Whether a turn does this to the client, and has this reply.
pub open spec fn turn_taken(
    before: App,
    turn: Turn,
    now: u64,
    own: Seq<char>,
    after: App,
    reply: Reply,
) -> bool {
    let silent = Reply { quit: false, send: None };
    let over = Reply { quit: true, send: None };
    match turn {
        Turn::Message(Some(AppMsg::Key(key))) => key_handled(before, key, now, after, reply),
        Turn::Message(Some(AppMsg::Tick)) => after == before && reply == silent,
        Turn::Message(Some(AppMsg::LatestRelease(v))) => {
            &&& after == (App {
                update_status: status_after_release(
                    before.update_status,
                    v,
                    is_update(parsed_release(v@), parsed_release(own)),
                ),
                ..before
            })
            &&& reply == silent
        },
        Turn::Message(None) => after == before && reply == over,
        Turn::Server(Some(event)) => handled(before, event, now, own, after) && reply == silent,
        Turn::Server(None) => after == before && reply == over,
    }
}

/// Whether a turn can be carried out.
pub fn can_take_turn(app: &App, turn: &Turn) -> (r: bool)
    ensures
        r == turn_fits(*app, *turn),
{
    match turn {
        Turn::Message(Some(AppMsg::Key(key))) => can_handle_key(app, *key),
        Turn::Server(Some(event)) => can_handle(event),
        _ => true,
    }
}

/// Takes in what is known of the latest release.
pub fn note_release(status: UpdateStatus, release: String, is_newer: bool) -> (r: UpdateStatus)
    ensures
        r == status_after_release(status, release, is_newer),
{
    if !is_newer {
        return status;
    }
    match status {
        UpdateStatus::Incompatible { server_version } => UpdateStatus::Incompatible {
            server_version,
        },
        _ => UpdateStatus::Compatible { patch_available: Some(release) },
    }
}

/// One turn of the game: takes in what ended the wait.
///
/// Before each turn, bubbles expire, the screen is drawn, and the requests that are queued are
/// sent.
pub fn run(app: &mut App, turn: Turn, now: u64, own: &str) -> (reply: Reply)
    requires
        turn_fits(*old(app), turn),
    ensures
        turn_taken(*old(app), turn, now, own@, *final(app), reply),
{
    match turn {
        Turn::Message(Some(AppMsg::Key(key))) => {
            return handle_key(app, key, now);
        },
        Turn::Message(Some(AppMsg::Tick)) => {},
        Turn::Message(Some(AppMsg::LatestRelease(v))) => {
            let is_newer: bool = update_available(v.as_str(), own);
            let mut status: UpdateStatus = UpdateStatus::Unknown;
            core::mem::swap(&mut status, &mut app.update_status);
            app.update_status = note_release(status, v, is_newer);
        },
        Turn::Server(Some(event)) => {
            handle_server_event(app, event, now, own);
        },
        _ => {
            return Reply { quit: true, send: None };
        },
    }
    Reply { quit: false, send: None }
}

} // verus!
