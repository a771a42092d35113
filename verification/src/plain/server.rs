//! The server of the plain game.

use vstd::prelude::*;

use crate::coords::{CHUNK_SIZE, MAP_TILES_H, MAP_TILES_W};
use crate::protocol::GameEvent;
use crate::server::handler::{
    handle as handle_all, input_fits, stepped, Action, BoatMap, Client, Input, World,
};
use crate::tiles::{MapGrid, Tile};
use crate::transport::{Incoming, Received};

verus! {

/// Whether an action belongs to the plain game.
pub open spec fn is_plain(action: Action) -> bool {
    match action {
        Action::Send(GameEvent::ServerVersionEvent { version }) => false,
        Action::Send(GameEvent::OverviewMapEvent { width, height, data }) => false,
        Action::Send(GameEvent::AnchorPointsEvent { points }) => false,
        Action::Count(metric, n) => false,
        Action::CountDeparture => false,
        _ => true,
    }
}

/// Whether an event from another client can be passed on: those of the plain game are.
pub open spec fn input_is_plain(input: Input) -> bool {
    match input {
        Input::Relayed(envelope) => is_plain(Action::Send(envelope.event)),
        _ => true,
    }
}

/// Whether an input can be handled in the plain game.
pub fn can_take(input: &Input) -> (r: bool)
    ensures
        r == input_is_plain(*input),
{
    match input {
        Input::Relayed(envelope) => match envelope.event {
            GameEvent::ServerVersionEvent { .. } => false,
            GameEvent::OverviewMapEvent { .. } => false,
            GameEvent::AnchorPointsEvent { .. } => false,
            _ => true,
        },
        _ => true,
    }
}

/// Whether an action belongs to the plain game.
fn belongs(action: &Action) -> (r: bool)
    ensures
        r == is_plain(*action),
{
    match action {
        Action::Send(GameEvent::ServerVersionEvent { version }) => false,
        Action::Send(GameEvent::OverviewMapEvent { width, height, data }) => false,
        Action::Send(GameEvent::AnchorPointsEvent { points }) => false,
        Action::Count(metric, n) => false,
        Action::CountDeparture => false,
        _ => true,
    }
}

/// Drives a connected client one step on: what the full game does, but for the actions that do not
/// belong to the plain one.
pub fn handle(client: &mut Client, boats: &mut BoatMap, world: &World, input: Input) -> (actions:
    Vec<Action>)
    requires
        input_fits(*old(client), *world, input),
        input_is_plain(input),
    ensures
        exists|all: Seq<Action>|
            #[trigger] stepped(
                *old(client),
                old(boats)@,
                *world,
                input,
                *final(client),
                final(boats)@,
                all,
            ) && actions@ == all.filter(|a: Action| is_plain(a)),
{
    let all: Vec<Action> = handle_all(client, boats, world, input);
    let ghost every = all@;
    let ghost keep = |a: Action| is_plain(a);
    let mut actions: Vec<Action> = Vec::new();
    assert(every.take(0) =~= Seq::<Action>::empty());
    reveal(Seq::filter);
    for a in it: all
        invariant
            it.seq() == every,
            keep == (|a: Action| is_plain(a)),
            actions@ == every.take(it.index()).filter(keep),
    {
        proof {
            reveal(Seq::filter);
            let part = every.take(it.index() + 1);
            assert(part.drop_last() =~= every.take(it.index()));
            assert(part.last() == a);
        }
        if belongs(&a) {
            actions.push(a);
        }
    }
    assert(every.take(every.len() as int) =~= every);
    actions
}

/// What a frame means in the plain game, where a binary frame that does not decode is an error.
pub open spec fn strict_meaning(incoming: Incoming) -> Received {
    match incoming {
        Incoming::Binary(Some(event)) => Received::Event(event),
        Incoming::Binary(None) => Received::Failed,
        Incoming::Close => Received::Closed,
        Incoming::End => Received::Closed,
        Incoming::Error => Received::Failed,
        Incoming::Other => Received::Skipped,
    }
}

/// What a frame means in the plain game.
pub fn recv_event(incoming: Incoming) -> (r: Received)
    ensures
        r == strict_meaning(incoming),
{
    match incoming {
        Incoming::Binary(Some(event)) => Received::Event(event),
        Incoming::Binary(None) => Received::Failed,
        Incoming::Close => Received::Closed,
        Incoming::End => Received::Closed,
        Incoming::Error => Received::Failed,
        Incoming::Other => Received::Skipped,
    }
}

/// A map without any land.
pub fn load_map() -> (map: MapGrid)
    ensures
        map.width == MAP_TILES_W,
        map.height == MAP_TILES_H,
        map.chunk_size == CHUNK_SIZE,
        map.grid@.len() == MAP_TILES_H,
        forall|row: int| 0 <= row < MAP_TILES_H ==> (#[trigger] map.grid@[row])@.len() == MAP_TILES_W,
        forall|col: int, row: int| #[trigger] map.tile(col, row) == Tile::Water,
{
    let mut grid: Vec<Vec<Tile>> = Vec::new();
    let mut r: u32 = 0;
    while r < MAP_TILES_H
        invariant
            r <= MAP_TILES_H,
            grid@.len() == r,
            forall|row: int| 0 <= row < r ==> (#[trigger] grid@[row])@.len() == MAP_TILES_W,
            forall|row: int, col: int|
                0 <= row < r && 0 <= col < MAP_TILES_W ==> #[trigger] grid@[row]@[col]
                    == Tile::Water,
        decreases MAP_TILES_H - r,
    {
        let mut row: Vec<Tile> = Vec::new();
        let mut c: u32 = 0;
        while c < MAP_TILES_W
            invariant
                c <= MAP_TILES_W,
                row@.len() == c,
                forall|col: int| 0 <= col < c ==> #[trigger] row@[col] == Tile::Water,
            decreases MAP_TILES_W - c,
        {
            row.push(Tile::Water);
            c = c + 1;
        }
        grid.push(row);
        r = r + 1;
    }
    MapGrid { grid, width: MAP_TILES_W, height: MAP_TILES_H, chunk_size: CHUNK_SIZE }
}

} // verus!
