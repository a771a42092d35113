//! What holds of a client whatever the player does and the server tells.

use vstd::prelude::*;

use crate::float::F32;
use crate::protocol::GameEvent;
use crate::tiles::{lemma_chunk_holds_tile, MapGrid, Tile};

use super::app::{
    chunk_number, first_chunk, heading, last_chunk, lemma_axis, lemma_chunk_numbers_differ,
    lemma_chunk_rows_distinct, lemma_missing_among, missing, numbers, stepped, App, WorldInfo,
    PAGE_TILES_H, PAGE_TILES_W,
};
use super::input::{step_of, Reply};
use super::session::{handled, turn_fits, turn_taken, with_world, AppMsg, Turn};

verus! {

/// What has been asked for is not missing.
proof fn lemma_missing_asked(
    chunks: Seq<(u32, u32)>,
    loaded: Map<u64, Vec<Tile>>,
    pending: Set<u64>,
    more: Set<u64>,
)
    requires
        numbers(missing(chunks, loaded, pending)).subset_of(more),
        pending.subset_of(more),
    ensures
        missing(chunks, loaded, more) == Seq::<(u32, u32)>::empty(),
    decreases chunks.len(),
{
    if chunks.len() > 0 {
        let init = chunks.drop_last();
        let (x, y) = chunks.last();
        let n = chunk_number(x, y);
        let f = |c: (u32, u32)| chunk_number(c.0, c.1);
        let rest = missing(init, loaded, pending);
        let all = missing(chunks, loaded, pending);
        assert forall|k: u64| numbers(rest).contains(k) implies more.contains(k) by {
            let a = rest.map_values(f);
            let b = all.map_values(f);
            let i = choose|i: int| 0 <= i < a.len() && a[i] == k;
            assert(b[i] == k);
            assert(numbers(all).contains(k));
        }
        lemma_missing_asked(init, loaded, pending, more);
        if !loaded.contains_key(n) && !pending.contains(n) {
            let b = all.map_values(f);
            assert(b[rest.len() as int] == n);
            assert(numbers(all).contains(n));
        }
    }
}

/// No chunk is asked for a second time while the player stays on a page: after the requests are
/// queued, nothing is missing.
pub proof fn lemma_chunks_asked_once(before: App, after: App)
    requires
        before.asked_for_chunks(after),
    ensures
        after.missing_chunks() == Seq::<(u32, u32)>::empty(),
{
    lemma_missing_asked(
        before.wanted_chunks(),
        before.loaded_chunks@,
        before.pending_chunks@,
        after.pending_chunks@,
    );
}

/// Once a chunk has come, the client knows of each of its tiles what the server knows.
pub proof fn lemma_client_and_server_agree(
    map: MapGrid,
    before: App,
    chunk_x: u32,
    chunk_y: u32,
    data: Vec<Tile>,
    now: u64,
    own: Seq<char>,
    after: App,
    wx: u32,
    wy: u32,
)
    requires
        before.world_info matches Some(wi) && wi.chunk_size == map.chunk_size,
        map.chunk_size >= 1,
        handled(before, GameEvent::MapChunkResponse { chunk_x, chunk_y, data }, now, own, after),
        data@ == map.chunk(chunk_x as int, chunk_y as int),
        wx / map.chunk_size == chunk_x,
        wy / map.chunk_size == chunk_y,
    ensures
        after.known_tile(wx, wy) == Some(map.tile(wx as int, wy as int)),
{
    lemma_chunk_holds_tile(map, wx as int, wy as int);
}

/// A chunk that comes leaves all others as they are, and is no longer awaited.
pub proof fn lemma_chunk_arrives(
    before: App,
    chunk_x: u32,
    chunk_y: u32,
    data: Vec<Tile>,
    now: u64,
    own: Seq<char>,
    after: App,
    other_x: u32,
    other_y: u32,
)
    requires
        handled(before, GameEvent::MapChunkResponse { chunk_x, chunk_y, data }, now, own, after),
        other_x != chunk_x || other_y != chunk_y,
    ensures
        !after.pending_chunks@.contains(chunk_number(chunk_x, chunk_y)),
        after.loaded_chunks@[chunk_number(chunk_x, chunk_y)] == data,
        ({
            let n = chunk_number(other_x, other_y);
            &&& after.loaded_chunks@.contains_key(n) == before.loaded_chunks@.contains_key(n)
            &&& before.loaded_chunks@.contains_key(n) ==> after.loaded_chunks@[n]
                == before.loaded_chunks@[n]
            &&& after.pending_chunks@.contains(n) == before.pending_chunks@.contains(n)
        }),
{
    lemma_chunk_numbers_differ(chunk_x, chunk_y, other_x, other_y);
}

/// Nobody leaves the map: a step from anywhere leads to a place between the first and the last
/// tile.
pub proof fn lemma_steps_stay_on_map(v: F32, step: F32, last: F32)
    requires
        (F32 { bits: 0 }).at_most(last),
        !v.plus(step).is_nan_number(),
    ensures
        (F32 { bits: 0 }).at_most(stepped(v, step, last)),
        stepped(v, step, last).at_most(last),
{
}

/// A boat never sails onto a tile that is known not to be open water.
pub proof fn lemma_no_sailing_aground(before: App, after: App, dx: F32, dy: F32)
    requires
        before.sailed(after, dx, dy),
        !before.blocked(before.step_target(dx, dy)),
    ensures
        !after.blocked(after.cursor),
        after.cursor == before.step_target(dx, dy),
{
}

/// Whether no chunk is awaited that is there already.
pub open spec fn awaits_only_missing(app: App) -> bool {
    forall|n: u64| #[trigger] app.pending_chunks@.contains(n) ==> !app.loaded_chunks@.contains_key(n)
}

/// What is missing is not there.
proof fn lemma_missing_not_loaded(
    chunks: Seq<(u32, u32)>,
    loaded: Map<u64, Vec<Tile>>,
    pending: Set<u64>,
    n: u64,
)
    requires
        numbers(missing(chunks, loaded, pending)).contains(n),
    ensures
        !loaded.contains_key(n),
    decreases chunks.len(),
{
    let f = |c: (u32, u32)| chunk_number(c.0, c.1);
    let all = missing(chunks, loaded, pending);
    let a = all.map_values(f);
    let i = choose|i: int| 0 <= i < a.len() && a[i] == n;
    if chunks.len() > 0 {
        let rest = missing(chunks.drop_last(), loaded, pending);
        if i < rest.len() {
            assert(rest.map_values(f)[i] == n);
            lemma_missing_not_loaded(chunks.drop_last(), loaded, pending, n);
        }
    }
}

/// Asking for chunks does not ask for what is there.
proof fn lemma_asking_awaits_only_missing(before: App, after: App)
    requires
        awaits_only_missing(before),
        before.asked_for_chunks(after),
    ensures
        awaits_only_missing(after),
{
    assert forall|n: u64| #[trigger] after.pending_chunks@.contains(n) implies
        !after.loaded_chunks@.contains_key(n) by {
        if numbers(before.missing_chunks()).contains(n) {
            lemma_missing_not_loaded(
                before.wanted_chunks(),
                before.loaded_chunks@,
                before.pending_chunks@,
                n,
            );
        }
    }
}

/// Whatever the player does and the server tells, a client never awaits a chunk that it has.
pub proof fn lemma_clients_await_only_missing(
    before: App,
    turn: Turn,
    now: u64,
    own: Seq<char>,
    after: App,
    reply: Reply,
)
    requires
        awaits_only_missing(before),
        turn_taken(before, turn, now, own, after, reply),
    ensures
        awaits_only_missing(after),
{
    match turn {
        Turn::Message(Some(AppMsg::Key(key))) => {
            if let Some(d) = step_of(key.code) {
                let moved = before.at(before.step_target(d.0, d.1), heading(d.0, d.1));
                if moved.asked_for_chunks(after) {
                    lemma_asking_awaits_only_missing(moved, after);
                }
            }
        },
        Turn::Server(Some(event)) => {
            if let GameEvent::WorldInfoEvent { tile_width, tile_height, chunk_size, .. } = event {
                let known = with_world(
                    before,
                    WorldInfo { tile_width, tile_height, chunk_size },
                );
                lemma_asking_awaits_only_missing(known, after);
            }
        },
        _ => {},
    }
}

/// The chunks that are on their way or have come.
pub open spec fn sought(app: App) -> Set<u64> {
    app.pending_chunks@.union(app.loaded_chunks@.dom())
}

/// What changes a client.
pub enum Doing {
    /// A turn of the game.
    Turn { turn: Turn, now: u64, own: Seq<char>, reply: Reply },
    /// A step of the boat.
    Sail { dx: F32, dy: F32 },
    /// Asking for the chunks that are missing.
    Ask,
    /// Sending what is queued.
    Drain,
    /// Bubbles that come and go.
    Bubbles,
}

/// Whether this can be done to a client, and does this to it.
pub open spec fn done(before: App, doing: Doing, after: App) -> bool {
    match doing {
        Doing::Turn { turn, now, own, reply } => turn_fits(before, turn) && turn_taken(
            before,
            turn,
            now,
            own,
            after,
            reply,
        ),
        Doing::Sail { dx, dy } => before.can_step(dx, dy) && before.sailed(after, dx, dy),
        Doing::Ask => before.chunks_computable() && before.asked_for_chunks(after),
        Doing::Drain => after.chunk_requests@.len() == 0 && after == (App {
            chunk_requests: after.chunk_requests,
            ..before
        }),
        Doing::Bubbles => after == (App { bubbles: after.bubbles, ..before }),
    }
}

/// The requests that were queued.
pub open spec fn queued(before: App, doing: Doing, after: App) -> Seq<(u32, u32)> {
    if doing is Drain {
        Seq::empty()
    } else {
        after.chunk_requests@.skip(before.chunk_requests@.len() as int)
    }
}

/// Whether what was queued is new: no chunk twice, none that was sought before, and all of them
/// sought from now on, with those before.
pub open spec fn all_new(before: App, asked: Seq<(u32, u32)>, after: App) -> bool {
    &&& asked.no_duplicates()
    &&& sought(before).subset_of(sought(after))
    &&& forall|i: int|
        0 <= i < asked.len() ==> {
            let n = chunk_number((#[trigger] asked[i]).0, asked[i].1);
            !sought(before).contains(n) && sought(after).contains(n)
        }
}

/// No chunk is missing twice, and none that is missing is on its way or there.
proof fn lemma_missing_distinct(
    chunks: Seq<(u32, u32)>,
    loaded: Map<u64, Vec<Tile>>,
    pending: Set<u64>,
)
    requires
        chunks.no_duplicates(),
    ensures
        missing(chunks, loaded, pending).no_duplicates(),
        forall|i: int|
            0 <= i < missing(chunks, loaded, pending).len() ==> {
                let c = #[trigger] missing(chunks, loaded, pending)[i];
                !loaded.contains_key(chunk_number(c.0, c.1)) && !pending.contains(
                    chunk_number(c.0, c.1),
                )
            },
    decreases chunks.len(),
{
    if chunks.len() > 0 {
        let init = chunks.drop_last();
        let rest = missing(init, loaded, pending);
        lemma_missing_distinct(init, loaded, pending);
        lemma_missing_among(init, loaded, pending);
        let all = missing(chunks, loaded, pending);
        assert forall|i: int, j: int| 0 <= i < j < all.len() implies all[i] != all[j] by {
            assert(all[i] == rest[i]);
            if j == rest.len() {
                assert(rest.contains(rest[i]));
                assert(init.contains(rest[i]));
                let k = choose|k: int| 0 <= k < init.len() && init[k] == rest[i];
                assert(chunks[k] == rest[i]);
                assert(all[j] == chunks[chunks.len() - 1]);
            } else {
                assert(all[j] == rest[j]);
            }
        }
        assert forall|i: int| 0 <= i < all.len() implies {
            let c = #[trigger] all[i];
            !loaded.contains_key(chunk_number(c.0, c.1)) && !pending.contains(
                chunk_number(c.0, c.1),
            )
        } by {
            if i < rest.len() {
                assert(all[i] == rest[i]);
            }
        }
    }
}

/// What is asked for is new.
proof fn lemma_asking_is_new(before: App, after: App)
    requires
        before.chunks_computable(),
        before.asked_for_chunks(after),
    ensures
        after.chunk_requests@.skip(before.chunk_requests@.len() as int) == before.missing_chunks(),
        all_new(before, before.missing_chunks(), after),
{
    let wanted = before.wanted_chunks();
    if let Some(wi) = before.world_info {
        let (ox, oy) = before.origin();
        let cs = wi.chunk_size as int;
        lemma_axis(ox as u32, PAGE_TILES_W, wi.chunk_size, wi.tile_width);
        lemma_axis(oy as u32, PAGE_TILES_H, wi.chunk_size, wi.tile_height);
        lemma_chunk_rows_distinct(
            first_chunk(ox, cs),
            last_chunk(ox, PAGE_TILES_W, cs, wi.tile_width as int),
            first_chunk(oy, cs),
            last_chunk(oy, PAGE_TILES_H, cs, wi.tile_height as int),
        );
    }
    assert(wanted.no_duplicates());
    lemma_missing_distinct(wanted, before.loaded_chunks@, before.pending_chunks@);
    let asked = before.missing_chunks();
    let f = |c: (u32, u32)| chunk_number(c.0, c.1);
    assert forall|i: int| 0 <= i < asked.len() implies sought(after).contains(
        chunk_number((#[trigger] asked[i]).0, asked[i].1),
    ) by {
        assert(asked.map_values(f)[i] == chunk_number(asked[i].0, asked[i].1));
        assert(numbers(asked).contains(chunk_number(asked[i].0, asked[i].1)));
    }
    assert(after.chunk_requests@.skip(before.chunk_requests@.len() as int) =~= asked);
}

/// Whatever is done, what is queued is added at the end of the queue and is new, and nothing that
/// is sought is ever forgotten.
pub proof fn lemma_only_new_requests(before: App, doing: Doing, after: App)
    requires
        done(before, doing, after),
    ensures
        !(doing is Drain) ==> after.chunk_requests@ == before.chunk_requests@ + queued(
            before,
            doing,
            after,
        ),
        all_new(before, queued(before, doing, after), after),
{
    let asked = queued(before, doing, after);
    let len = before.chunk_requests@.len() as int;
    match doing {
        Doing::Turn { turn, now, own, reply } => match turn {
            Turn::Message(Some(AppMsg::Key(key))) => {
                let steers = key.press && !before.show_map_overview;
                if steers && step_of(key.code) is Some {
                    let d = step_of(key.code)->0;
                    lemma_sailing_is_new(before, d.0, d.1, after);
                }
            },
            Turn::Server(Some(event)) => {
                if let GameEvent::WorldInfoEvent { tile_width, tile_height, chunk_size, .. } = event {
                    let known = with_world(
                        before,
                        WorldInfo { tile_width, tile_height, chunk_size },
                    );
                    lemma_asking_is_new(known, after);
                }
            },
            _ => {},
        },
        Doing::Sail { dx, dy } => {
            lemma_sailing_is_new(before, dx, dy, after);
        },
        Doing::Ask => {
            lemma_asking_is_new(before, after);
        },
        _ => {},
    }
    if after.chunk_requests@ == before.chunk_requests@ {
        assert(after.chunk_requests@.skip(len) =~= Seq::<(u32, u32)>::empty());
    }
    assert(!(doing is Drain) ==> after.chunk_requests@ =~= before.chunk_requests@ + asked);
}

/// A step asks for what is new.
proof fn lemma_sailing_is_new(before: App, dx: F32, dy: F32, after: App)
    requires
        before.can_step(dx, dy),
    ensures
        before.sailed(after, dx, dy) ==> {
            let asked = after.chunk_requests@.skip(before.chunk_requests@.len() as int);
            &&& after.chunk_requests@ == before.chunk_requests@ + asked
            &&& all_new(before, asked, after)
        },
{
    let asked = after.chunk_requests@.skip(before.chunk_requests@.len() as int);
    if before.sailed(after, dx, dy) {
        let moved = before.at(before.step_target(dx, dy), heading(dx, dy));
        if App::same_page(before.cursor, moved.cursor) {
            assert(asked =~= Seq::<(u32, u32)>::empty());
        } else {
            lemma_asking_is_new(moved, after);
        }
        assert(after.chunk_requests@ =~= before.chunk_requests@ + asked);
    }
}

/// Whether a client went through some states, by what was done to it.
pub open spec fn is_run(states: Seq<App>, doings: Seq<Doing>) -> bool {
    &&& states.len() == doings.len() + 1
    &&& forall|i: int| 0 <= i < doings.len() ==> done(states[i], #[trigger] doings[i], states[i + 1])
}

/// What is sought stays sought.
proof fn lemma_sought_for_good(states: Seq<App>, doings: Seq<Doing>, i: int, j: int)
    requires
        is_run(states, doings),
        0 <= i <= j < states.len(),
    ensures
        sought(states[i]).subset_of(sought(states[j])),
    decreases j - i,
{
    if i < j {
        lemma_sought_for_good(states, doings, i, j - 1);
        lemma_only_new_requests(states[j - 1], doings[j - 1], states[j]);
    }
}

/// Over a whole run of a client, no chunk is requested twice: neither at once nor ever again.
pub proof fn lemma_no_chunk_requested_twice(
    states: Seq<App>,
    doings: Seq<Doing>,
    i: int,
    j: int,
    chunk: (u32, u32),
)
    requires
        is_run(states, doings),
        0 <= i <= j < doings.len(),
        queued(states[i], doings[i], states[i + 1]).contains(chunk),
    ensures
        queued(states[i], doings[i], states[i + 1]).no_duplicates(),
        i < j ==> !queued(states[j], doings[j], states[j + 1]).contains(chunk),
{
    lemma_only_new_requests(states[i], doings[i], states[i + 1]);
    if i < j {
        lemma_only_new_requests(states[j], doings[j], states[j + 1]);
        lemma_sought_for_good(states, doings, i + 1, j);
        let early = queued(states[i], doings[i], states[i + 1]);
        let late = queued(states[j], doings[j], states[j + 1]);
        let a = choose|a: int| 0 <= a < early.len() && early[a] == chunk;
        assert(sought(states[j]).contains(chunk_number(early[a].0, early[a].1)));
        if late.contains(chunk) {
            let b = choose|b: int| 0 <= b < late.len() && late[b] == chunk;
            assert(!sought(states[j]).contains(chunk_number(late[b].0, late[b].1)));
        }
    }
}

} // verus!
