//! Where boats sail: what a step needs, and what of the map is there when it is taken.

use vstd::arithmetic::div_mod::{
    lemma_div_is_ordered, lemma_fundamental_div_mod, lemma_fundamental_div_mod_converse,
};
use vstd::prelude::*;

use crate::float::exact::{lemma_lies_on, lies_on};
use crate::float::F32;
use crate::protocol::GameEvent;
use crate::tiles::{tile_index, MapGrid, Tile};

use super::app::{
    chunk_number, chunk_rows, first_chunk, heading, last_chunk, lemma_axis, lemma_chunk_rows_at,
    lemma_missing_among, missing, numbers, App, WorldInfo, PAGE_TILES_H, PAGE_TILES_W,
};
use super::input::{step_of, Reply};
use super::laws::sought;
use super::session::{turn_fits, turn_taken, with_world, AppMsg, Turn};

verus! {

/// A step is accepted if and only if the tile that it leads to is not known to be land or coast.
pub proof fn lemma_steps_need_water(before: App, dx: F32, dy: F32, col: u32, row: u32)
    requires
        lies_on(before.step_target(dx, dy).x, col as int),
        lies_on(before.step_target(dx, dy).y, row as int),
    ensures
        before.blocked(before.step_target(dx, dy)) <==> before.known_tile(col, row) == Some(
            Tile::Land,
        ) || before.known_tile(col, row) == Some(Tile::Coast),
{
    lemma_lies_on(before.step_target(dx, dy).x, col as int);
    lemma_lies_on(before.step_target(dx, dy).y, row as int);
}

/// Client and server agree on where a boat may be: where the client knows the tile that the
/// server's map has under the place that a step leads to, the step is accepted if and only if a
/// boat may be there.
pub proof fn lemma_client_and_server_agree_on_steps(
    map: MapGrid,
    before: App,
    dx: F32,
    dy: F32,
    after: App,
)
    requires
        before.world_info matches Some(wi) && wi.tile_width == map.width && wi.tile_height
            == map.height,
        ({
            let to = before.step_target(dx, dy);
            before.known_tile(
                tile_index(to.x, map.width) as u32,
                tile_index(to.y, map.height) as u32,
            ) == Some(map.tile_under(to))
        }),
    ensures
        before.blocked(before.step_target(dx, dy)) <==> !map.passable(before.step_target(dx, dy)),
        before.sailed(after, dx, dy) && !before.blocked(before.step_target(dx, dy))
            ==> map.passable(after.cursor),
{
}

/// Whether a tile is on the page that the boat is on.
pub open spec fn on_page(app: App, x: int, y: int) -> bool {
    exists|bx: int, by: int|
        0 <= bx <= u32::MAX && 0 <= by <= u32::MAX && #[trigger] lies_on(app.cursor.x, bx)
            && #[trigger] lies_on(app.cursor.y, by) && x / 200 == bx / 200 && y / 50 == by / 50
}

/// Whether a chunk of the map holds a tile of it that is on the boat's page, or lies next to one
/// that does.
pub open spec fn around_page(app: App, wi: WorldInfo, x: int, y: int, cx: int, cy: int) -> bool {
    let cs = wi.chunk_size as int;
    &&& on_page(app, x, y)
    &&& 0 <= x < wi.tile_width && 0 <= y < wi.tile_height
    &&& 0 <= cx && cx * cs < wi.tile_width && -1 <= cx - x / cs <= 1
    &&& 0 <= cy && cy * cs < wi.tile_height && -1 <= cy - y / cs <= 1
}

/// Whether all chunks of the boat's page, and those next to them, are there or on their way.
pub open spec fn page_sought(app: App) -> bool {
    app.world_info matches Some(wi) ==> forall|x: int, y: int, cx: int, cy: int| #[trigger]
        around_page(app, wi, x, y, cx, cy) ==> {
            let n = chunk_number(cx as u32, cy as u32);
            app.loaded_chunks@.contains_key(n) || app.pending_chunks@.contains(n)
        }
}

/// Something that is wanted is there, on its way, or missing.
proof fn lemma_wanted_or_missing(
    chunks: Seq<(u32, u32)>,
    loaded: Map<u64, Vec<Tile>>,
    pending: Set<u64>,
    i: int,
)
    requires
        0 <= i < chunks.len(),
    ensures
        ({
            let n = chunk_number(chunks[i].0, chunks[i].1);
            ||| loaded.contains_key(n)
            ||| pending.contains(n)
            ||| numbers(missing(chunks, loaded, pending)).contains(n)
        }),
    decreases chunks.len(),
{
    let init = chunks.drop_last();
    let rest = missing(init, loaded, pending);
    let all = missing(chunks, loaded, pending);
    let f = |c: (u32, u32)| chunk_number(c.0, c.1);
    let n = chunk_number(chunks[i].0, chunks[i].1);
    if i < init.len() {
        assert(init[i] == chunks[i]);
        lemma_wanted_or_missing(init, loaded, pending, i);
        if numbers(rest).contains(n) {
            let a = rest.map_values(f);
            let k = choose|k: int| 0 <= k < a.len() && a[k] == n;
            assert(all.map_values(f)[k] == n);
        }
    } else if !loaded.contains_key(n) && !pending.contains(n) {
        assert(all.map_values(f)[rest.len() as int] == n);
    }
}

/// The chunks around a stretch of tiles, along one axis.
proof fn lemma_chunks_of_axis(start: int, page_tiles: u32, cs: int, tiles: int, x: int, c: int)
    requires
        cs >= 1,
        0 <= start <= x < start + page_tiles,
        x < tiles,
        0 <= c,
        c * cs < tiles,
        -1 <= c - x / cs <= 1,
    ensures
        first_chunk(start, cs) <= c <= last_chunk(start, page_tiles, cs, tiles),
{
    lemma_div_is_ordered(start, x, cs);
    lemma_div_is_ordered(x, start + page_tiles - 1, cs);
    lemma_fundamental_div_mod_converse(c * cs, cs, c, 0);
    assert(cs * c == c * cs) by (nonlinear_arith);
    lemma_div_is_ordered(c * cs, tiles - 1, cs);
}

/// A tile with the same page number lies on the page.
proof fn lemma_tiles_of_axis(b: int, x: int, page_tiles: int)
    requires
        page_tiles > 0,
        b >= 0,
        x / page_tiles == b / page_tiles,
    ensures
        0 <= b / page_tiles * page_tiles <= x < b / page_tiles * page_tiles + page_tiles,
{
    lemma_fundamental_div_mod(x, page_tiles);
    let q = x / page_tiles;
    assert(page_tiles * q == q * page_tiles) by (nonlinear_arith);
    assert(q >= 0 && q * page_tiles >= 0) by (nonlinear_arith)
        requires
            q == b / page_tiles,
            b >= 0,
            page_tiles > 0,
    ;
    vstd::arithmetic::div_mod::lemma_mod_bound(x, page_tiles);
}

/// Once a client has asked for chunks, all those of the boat's page, and those next to them, are
/// there or on their way.
pub proof fn lemma_asking_covers_page(before: App, after: App)
    requires
        before.chunks_computable(),
        before.asked_for_chunks(after),
    ensures
        page_sought(after),
{
    if let Some(wi) = after.world_info {
        let cs = wi.chunk_size as int;
        let (ox, oy) = before.origin();
        let wanted = before.wanted_chunks();
        assert forall|x: int, y: int, cx: int, cy: int| #[trigger]
            around_page(after, wi, x, y, cx, cy) implies {
            let n = chunk_number(cx as u32, cy as u32);
            after.loaded_chunks@.contains_key(n) || after.pending_chunks@.contains(n)
        } by {
            let (bx, by) = choose|bx: int, by: int|
                0 <= bx <= u32::MAX && 0 <= by <= u32::MAX && #[trigger] lies_on(
                    after.cursor.x,
                    bx,
                ) && #[trigger] lies_on(after.cursor.y, by) && x / 200 == bx / 200 && y / 50
                    == by / 50;
            lemma_lies_on(after.cursor.x, bx);
            lemma_lies_on(after.cursor.y, by);
            lemma_tiles_of_axis(bx, x, 200);
            lemma_tiles_of_axis(by, y, 50);
            lemma_chunks_of_axis(ox, PAGE_TILES_W, cs, wi.tile_width as int, x, cx);
            lemma_chunks_of_axis(oy, PAGE_TILES_H, cs, wi.tile_height as int, y, cy);
            let (x0, x1) = (
                first_chunk(ox, cs),
                last_chunk(ox, PAGE_TILES_W, cs, wi.tile_width as int),
            );
            let (y0, y1) = (
                first_chunk(oy, cs),
                last_chunk(oy, PAGE_TILES_H, cs, wi.tile_height as int),
            );
            lemma_axis(ox as u32, PAGE_TILES_W, wi.chunk_size, wi.tile_width);
            lemma_axis(oy as u32, PAGE_TILES_H, wi.chunk_size, wi.tile_height);
            lemma_chunk_rows_at(x0, x1, y0, y1, cx, cy);
            let i = (cy - y0) * (x1 - x0 + 1) + (cx - x0);
            lemma_wanted_or_missing(wanted, before.loaded_chunks@, before.pending_chunks@, i);
        }
    }
}

/// A client only asks for chunks of the map that are on the boat's page or next to one that is.
pub proof fn lemma_only_the_page_is_asked_for(before: App, after: App, bx: int, by: int, i: int)
    requires
        before.asked_for_chunks(after),
        before.world_info matches Some(wi) && wi.chunk_size >= 1 && wi.tile_width >= 1
            && wi.tile_height >= 1,
        0 <= bx <= u32::MAX,
        0 <= by <= u32::MAX,
        lies_on(before.cursor.x, bx),
        lies_on(before.cursor.y, by),
        before.chunk_requests@.len() <= i < after.chunk_requests@.len(),
    ensures
        ({
            let (cx, cy) = after.chunk_requests@[i];
            let wi = before.world_info->0;
            let cs = wi.chunk_size as int;
            &&& cx * cs < wi.tile_width
            &&& cy * cs < wi.tile_height
            &&& exists|x: int| x / 200 == bx / 200 && -1 <= cx - #[trigger] (x / cs) <= 1
            &&& exists|y: int| y / 50 == by / 50 && -1 <= cy - #[trigger] (y / cs) <= 1
        }),
{
    let wi = before.world_info->0;
    let cs = wi.chunk_size as int;
    let (ox, oy) = before.origin();
    let c = after.chunk_requests@[i];
    let m = before.missing_chunks();
    assert(m[i - before.chunk_requests@.len()] == c);
    assert(m.contains(c));
    let wanted = before.wanted_chunks();
    lemma_missing_among(wanted, before.loaded_chunks@, before.pending_chunks@);
    assert(wanted.contains(c));
    let (x0, x1) = (first_chunk(ox, cs), last_chunk(ox, PAGE_TILES_W, cs, wi.tile_width as int));
    let (y0, y1) = (first_chunk(oy, cs), last_chunk(oy, PAGE_TILES_H, cs, wi.tile_height as int));
    lemma_lies_on(before.cursor.x, bx);
    lemma_lies_on(before.cursor.y, by);
    lemma_axis(ox as u32, PAGE_TILES_W, wi.chunk_size, wi.tile_width);
    lemma_axis(oy as u32, PAGE_TILES_H, wi.chunk_size, wi.tile_height);
    let k = choose|k: int| 0 <= k < wanted.len() && wanted[k] == c;
    assert(wanted == chunk_rows(x0, x1, y0, y1));
    let w = x1 - x0 + 1;
    let h = y1 - y0 + 1;
    assert(0 <= k / w < h && 0 <= k % w < w) by (nonlinear_arith)
        requires
            0 <= k < w * h,
            w >= 1,
    ;
    assert(x0 <= c.0 <= x1 && y0 <= c.1 <= y1);
    lemma_chunk_near_axis(bx, 200, cs, wi.tile_width as int, c.0 as int);
    lemma_chunk_near_axis(by, 50, cs, wi.tile_height as int, c.1 as int);
}

/// A chunk among those of a page is next to one that holds a tile of the page.
proof fn lemma_chunk_near_axis(b: int, page_tiles: u32, cs: int, tiles: int, c: int)
    requires
        cs >= 1,
        b >= 0,
        page_tiles >= 1,
        tiles >= 1,
        ({
            let start = b / page_tiles as int * page_tiles;
            first_chunk(start, cs) <= c <= last_chunk(start, page_tiles, cs, tiles)
        }),
    ensures
        c * cs < tiles,
        exists|x: int|
            x / page_tiles as int == b / page_tiles as int && -1 <= c - #[trigger] (x / cs) <= 1,
{
    let p = page_tiles as int;
    let q = b / p;
    let start = q * p;
    let end = start + p - 1;
    assert(q >= 0 && start >= 0) by (nonlinear_arith)
        requires
            q == b / p,
            start == q * p,
            b >= 0,
            p >= 1,
    ;
    lemma_fundamental_div_mod_converse(start, p, q, 0);
    lemma_fundamental_div_mod_converse(end, p, q, p - 1);
    lemma_fundamental_div_mod(tiles - 1, cs);
    let last = (tiles - 1) / cs;
    assert(c * cs <= cs * last) by (nonlinear_arith)
        requires
            c <= last,
            cs >= 1,
    ;
    vstd::arithmetic::div_mod::lemma_mod_bound(tiles - 1, cs);
    if c < start / cs {
        assert(start / p == q);
        assert(-1 <= c - start / cs <= 1);
    } else if c > end / cs {
        assert(end / p == q);
        assert(-1 <= c - end / cs <= 1);
    } else if c == start / cs {
        assert(start / p == q);
        assert(-1 <= c - start / cs <= 1);
    } else {
        let x = c * cs;
        lemma_fundamental_div_mod_converse(x, cs, c, 0);
        lemma_fundamental_div_mod(start, cs);
        lemma_fundamental_div_mod(end, cs);
        vstd::arithmetic::div_mod::lemma_mod_bound(start, cs);
        vstd::arithmetic::div_mod::lemma_mod_bound(end, cs);
        let (s, e) = (start / cs, end / cs);
        assert(cs * s + cs <= x && x <= cs * e) by (nonlinear_arith)
            requires
                s + 1 <= c <= e,
                x == c * cs,
                cs >= 1,
        ;
        assert(start <= x <= end);
        lemma_fundamental_div_mod_converse(x, p, q, x - start);
        assert(x / p == q);
        assert(-1 <= c - x / cs <= 1);
    }
}

/// Whether the boat lies on some tile.
pub open spec fn afloat(app: App) -> bool {
    exists|bx: int, by: int|
        0 <= bx <= u32::MAX && 0 <= by <= u32::MAX && #[trigger] lies_on(app.cursor.x, bx)
            && #[trigger] lies_on(app.cursor.y, by)
}

/// Places on one page have the same tiles on it.
proof fn lemma_same_tiles(before: App, after: App, x: int, y: int)
    requires
        afloat(before),
        App::same_page(before.cursor, after.cursor),
        on_page(after, x, y),
    ensures
        on_page(before, x, y),
{
    let (bx, by) = choose|bx: int, by: int|
        0 <= bx <= u32::MAX && 0 <= by <= u32::MAX && #[trigger] lies_on(before.cursor.x, bx)
            && #[trigger] lies_on(before.cursor.y, by);
    let (ax, ay) = choose|ax: int, ay: int|
        0 <= ax <= u32::MAX && 0 <= ay <= u32::MAX && #[trigger] lies_on(after.cursor.x, ax)
            && #[trigger] lies_on(after.cursor.y, ay) && x / 200 == ax / 200 && y / 50 == ay / 50;
    lemma_lies_on(before.cursor.x, bx);
    lemma_lies_on(before.cursor.y, by);
    lemma_lies_on(after.cursor.x, ax);
    lemma_lies_on(after.cursor.y, ay);
    assert(lies_on(before.cursor.x, bx) && lies_on(before.cursor.y, by) && x / 200 == bx / 200 && y
        / 50 == by / 50);
}

/// Sailing leads nowhere that is not fetched: if all chunks of the boat's page, and those next to
/// them, are there or on their way, this is so after every step, whichever page it leads to.
pub proof fn lemma_sailing_covers_page(before: App, after: App, dx: F32, dy: F32)
    requires
        afloat(before),
        before.can_step(dx, dy),
        before.sailed(after, dx, dy),
        page_sought(before),
    ensures
        page_sought(after),
{
    let moved = before.at(before.step_target(dx, dy), heading(dx, dy));
    if App::same_page(before.cursor, moved.cursor) {
        if let Some(wi) = after.world_info {
            assert forall|x: int, y: int, cx: int, cy: int| #[trigger]
                around_page(after, wi, x, y, cx, cy) implies {
                let n = chunk_number(cx as u32, cy as u32);
                after.loaded_chunks@.contains_key(n) || after.pending_chunks@.contains(n)
            } by {
                lemma_same_tiles(before, after, x, y);
                assert(around_page(before, wi, x, y, cx, cy));
            }
        }
    } else {
        lemma_asking_covers_page(moved, after);
    }
}

/// Whatever the player does and the server tells, what of the boat's page is there or on its way
/// stays so; only the server can put the boat somewhere else.
pub proof fn lemma_turns_cover_page(
    before: App,
    turn: Turn,
    now: u64,
    own: Seq<char>,
    after: App,
    reply: Reply,
)
    requires
        afloat(before),
        turn_fits(before, turn),
        turn_taken(before, turn, now, own, after, reply),
        page_sought(before),
        !(turn matches Turn::Server(Some(GameEvent::HelloEvent { .. }))),
    ensures
        page_sought(after),
{
    match turn {
        Turn::Message(Some(AppMsg::Key(key))) => {
            if let Some(d) = step_of(key.code) {
                if key.press && !before.show_map_overview && before.sailed(after, d.0, d.1) {
                    lemma_sailing_covers_page(before, after, d.0, d.1);
                } else {
                    lemma_still_covers_page(before, after);
                }
            } else {
                lemma_still_covers_page(before, after);
            }
        },
        Turn::Server(Some(event)) => {
            if let GameEvent::WorldInfoEvent { tile_width, tile_height, chunk_size, .. } = event {
                let known = with_world(before, WorldInfo { tile_width, tile_height, chunk_size });
                lemma_asking_covers_page(known, after);
            } else {
                lemma_still_covers_page(before, after);
            }
        },
        _ => {
            lemma_still_covers_page(before, after);
        },
    }
}

/// While the boat stays where it is, and nothing that was sought is forgotten.
proof fn lemma_still_covers_page(before: App, after: App)
    requires
        page_sought(before),
        after.cursor == before.cursor,
        after.world_info == before.world_info,
        sought(before).subset_of(sought(after)),
    ensures
        page_sought(after),
{
    if let Some(wi) = after.world_info {
        assert forall|x: int, y: int, cx: int, cy: int| #[trigger]
            around_page(after, wi, x, y, cx, cy) implies {
            let n = chunk_number(cx as u32, cy as u32);
            after.loaded_chunks@.contains_key(n) || after.pending_chunks@.contains(n)
        } by {
            assert(around_page(before, wi, x, y, cx, cy));
            let n = chunk_number(cx as u32, cy as u32);
            assert(sought(before).contains(n));
            assert(sought(after).contains(n));
        }
    }
}

} // verus!
