//! What a client knows of the world.

use std::collections::{HashMap, HashSet};

use vstd::arithmetic::div_mod::lemma_fundamental_div_mod_converse;
use vstd::prelude::*;
use vstd::std_specs::hash::group_hash_axioms;

use crate::float::F32;
use crate::protocol::{AnchorPoint, GameEvent, Position};
use crate::tiles::{last_coordinate, last_tile, Tile};

verus! {

/// How far a key press moves the boat: one tile.
pub const CURSOR_STEP: u32 = 0x3f80_0000;

/// How long a chat bubble stays, in nanoseconds: five seconds.
pub const BUBBLE_TTL: u64 = 5_000_000_000;

/// How far above its sender a chat bubble hovers, in rows: three.
pub const BUBBLE_OFFSET: u32 = 0x4040_0000;

/// Number of tiles per row of a page, the part of the map that is visible at once.
pub const PAGE_TILES_W: u32 = 200;

/// Number of tiles per column of a page.
pub const PAGE_TILES_H: u32 = 50;

/// Extra chunks to prefetch beyond the border of the current page.
pub const PREFETCH_BORDER: u32 = 1;

/// Where the boat is before the server has put it to water: 250.
pub const FIRST_COORDINATE: u32 = 0x437a_0000;

/// The largest coordinate while the size of the map is not known: 499.
pub const DEFAULT_LAST_COORDINATE: u32 = 0x43f9_8000;

/// Where a boat heads.
#[derive(Debug, Clone, Copy, PartialEq, Eq, Structural)]
pub enum Direction {
    Left,
    Right,
    Up,
    Down,
}

impl Default for Direction {
    fn default() -> (r: Direction)
        ensures
            r == Direction::Right,
    {
        Direction::Right
    }
}

/// Something that was said, shown where it was said.
#[derive(Debug)]
pub struct Bubble {
    pub position: Position,
    pub text: String,
    /// When it was said, in nanoseconds on a clock of the client.
    pub received_at: u64,
}

/// The boat of another player.
#[derive(Debug)]
pub struct RemoteBoat {
    pub position: Position,
    pub name: String,
    pub last_dir: Direction,
}

/// The layout of the map, as told by the server.
#[derive(Debug, Clone, Copy)]
pub struct WorldInfo {
    pub tile_width: u32,
    pub tile_height: u32,
    pub chunk_size: u32,
}

/// Low-resolution overview of the entire map, row by row from the north.
#[derive(Debug)]
pub struct OverviewMap {
    pub width: u32,
    pub height: u32,
    pub data: Vec<Tile>,
}

/// What is known of the versions of server and client.
#[derive(Debug, Clone)]
pub enum UpdateStatus {
    /// No version information received yet.
    Unknown,
    /// Client and server have the same major and minor version; a newer release may be available.
    Compatible { patch_available: Option<String> },
    /// Major or minor version differs: the client needs to update.
    Incompatible { server_version: String },
}

impl Default for UpdateStatus {
    fn default() -> (r: UpdateStatus)
        ensures
            r == UpdateStatus::Unknown,
    {
        UpdateStatus::Unknown
    }
}

/// What a client knows.
#[derive(Debug)]
pub struct App {
    pub my_id: Option<u64>,
    pub my_name: String,
    /// The player's position in tile coordinates.
    pub cursor: Position,
    pub last_dir: Direction,
    pub input: String,
    pub bubbles: Vec<Bubble>,
    pub remote_boats: HashMap<u64, RemoteBoat>,
    pub world_info: Option<WorldInfo>,
    /// The tiles of the chunks that were received, by [`chunk_key`].
    pub loaded_chunks: HashMap<u64, Vec<Tile>>,
    /// Chunks that were requested and not yet received, by [`chunk_key`].
    pub pending_chunks: HashSet<u64>,
    /// Chunks to be requested, in this order.
    pub chunk_requests: Vec<(u32, u32)>,
    pub update_status: UpdateStatus,
    pub overview: Option<OverviewMap>,
    /// Whether the overview is shown in place of the page.
    pub show_map_overview: bool,
    pub anchor_points: Vec<AnchorPoint>,
    /// Index of the anchor point that is picked out in the overview.
    pub selected_anchor: Option<usize>,
    /// The ids of the anchor points that the player has visited.
    pub visited_anchors: HashSet<u32>,
}

/// The number under which a chunk is filed.
pub open spec fn chunk_number(chunk_x: u32, chunk_y: u32) -> u64 {
    (chunk_x * 0x1_0000_0000 + chunk_y) as u64
}

/// The number under which a chunk is filed.
pub fn chunk_key(chunk_x: u32, chunk_y: u32) -> (r: u64)
    ensures
        r == chunk_number(chunk_x, chunk_y),
{
    chunk_x as u64 * 0x1_0000_0000 + chunk_y as u64
}

/// No two chunks are filed under one number.
pub proof fn lemma_chunk_numbers_differ(ax: u32, ay: u32, bx: u32, by: u32)
    ensures
        chunk_number(ax, ay) == chunk_number(bx, by) <==> ax == bx && ay == by,
{
}

/// Where an axis of the page starts: the page that holds the coordinate.
pub open spec fn page_start(v: F32, page_tiles: u32) -> int {
    page_number(v, page_tiles) * page_tiles
}

/// The number of the page that holds a coordinate, along one axis.
pub open spec fn page_number(v: F32, page_tiles: u32) -> int {
    v.trunc(u32::MAX as nat) as int / page_tiles as int
}

/// The first chunk to load along one axis: one before that of the first tile of the page.
pub open spec fn first_chunk(origin: int, chunk_size: int) -> int {
    let c = origin / chunk_size;
    if c >= PREFETCH_BORDER {
        c - PREFETCH_BORDER
    } else {
        0
    }
}

/// The last chunk to load along one axis: one after that of the last tile of the page, if the map
/// has it.
pub open spec fn last_chunk(origin: int, page_tiles: u32, chunk_size: int, tiles: int) -> int {
    let next = (origin + page_tiles - 1) / chunk_size + PREFETCH_BORDER;
    let last = if tiles == 0 {
        0
    } else {
        (tiles - 1) / chunk_size
    };
    if next <= last {
        next
    } else {
        last
    }
}

/// The chunks of a rectangle, row by row.
pub open spec fn chunk_rows(x0: int, x1: int, y0: int, y1: int) -> Seq<(u32, u32)> {
    if x1 < x0 || y1 < y0 {
        Seq::empty()
    } else {
        let w = x1 - x0 + 1;
        Seq::new((w * (y1 - y0 + 1)) as nat, |i: int| ((x0 + i % w) as u32, (y0 + i / w) as u32))
    }
}

/// Those of the chunks that are neither loaded nor on their way.
pub open spec fn missing(
    chunks: Seq<(u32, u32)>,
    loaded: Map<u64, Vec<Tile>>,
    pending: Set<u64>,
) -> Seq<(u32, u32)>
    decreases chunks.len(),
{
    if chunks.len() == 0 {
        Seq::empty()
    } else {
        let rest = missing(chunks.drop_last(), loaded, pending);
        let (x, y) = chunks.last();
        if loaded.contains_key(chunk_number(x, y)) || pending.contains(chunk_number(x, y)) {
            rest
        } else {
            rest.push((x, y))
        }
    }
}

/// The numbers of some chunks.
pub open spec fn numbers(chunks: Seq<(u32, u32)>) -> Set<u64> {
    chunks.map_values(|c: (u32, u32)| chunk_number(c.0, c.1)).to_set()
}

impl App {
    /// The first tile of the current page.
    pub open spec fn origin(self) -> (int, int) {
        (page_start(self.cursor.x, PAGE_TILES_W), page_start(self.cursor.y, PAGE_TILES_H))
    }

    /// Whether the chunks around the current page can be computed.
    pub open spec fn chunks_computable(self) -> bool {
        self.world_info matches Some(wi) ==> wi.chunk_size >= 1
    }

    /// The chunks of the current page and of the border around it, row by row.
    pub open spec fn wanted_chunks(self) -> Seq<(u32, u32)> {
        match self.world_info {
            None => Seq::empty(),
            Some(wi) => {
                let cs = wi.chunk_size as int;
                let (ox, oy) = self.origin();
                chunk_rows(
                    first_chunk(ox, cs),
                    last_chunk(ox, PAGE_TILES_W, cs, wi.tile_width as int),
                    first_chunk(oy, cs),
                    last_chunk(oy, PAGE_TILES_H, cs, wi.tile_height as int),
                )
            },
        }
    }

    /// The chunks that are wanted and not yet asked for.
    pub open spec fn missing_chunks(self) -> Seq<(u32, u32)> {
        missing(self.wanted_chunks(), self.loaded_chunks@, self.pending_chunks@)
    }

    /// What a client knows before it has heard from a server.
    pub fn new(name: String) -> (app: App)
        ensures
            app.my_id is None,
            app.my_name == name,
            app.cursor == (Position {
                x: F32 { bits: FIRST_COORDINATE },
                y: F32 { bits: FIRST_COORDINATE },
            }),
            app.last_dir == Direction::Right,
            app.input@.len() == 0,
            app.bubbles@.len() == 0,
            app.remote_boats@ == Map::<u64, RemoteBoat>::empty(),
            app.world_info is None,
            app.loaded_chunks@ == Map::<u64, Vec<Tile>>::empty(),
            app.pending_chunks@ == Set::<u64>::empty(),
            app.chunk_requests@.len() == 0,
            app.update_status == UpdateStatus::Unknown,
            app.overview is None,
            !app.show_map_overview,
            app.anchor_points@.len() == 0,
            app.selected_anchor is None,
            app.visited_anchors@ == Set::<u32>::empty(),
    {
        App {
            my_id: None,
            my_name: name,
            cursor: Position {
                x: F32 { bits: FIRST_COORDINATE },
                y: F32 { bits: FIRST_COORDINATE },
            },
            last_dir: Direction::Right,
            input: String::new(),
            bubbles: Vec::new(),
            remote_boats: HashMap::new(),
            world_info: None,
            loaded_chunks: HashMap::new(),
            pending_chunks: HashSet::new(),
            chunk_requests: Vec::new(),
            update_status: UpdateStatus::Unknown,
            overview: None,
            show_map_overview: false,
            anchor_points: Vec::new(),
            selected_anchor: None,
            visited_anchors: HashSet::new(),
        }
    }

    /// The page that the cursor is on.
    pub fn current_page(&self) -> (r: (u32, u32))
        ensures
            r.0 == page_number(self.cursor.x, PAGE_TILES_W),
            r.1 == page_number(self.cursor.y, PAGE_TILES_H),
    {
        (self.cursor.x.to_u32() / PAGE_TILES_W, self.cursor.y.to_u32() / PAGE_TILES_H)
    }

    /// The first tile of the current page, in the north-west.
    pub fn page_origin(&self) -> (r: (u32, u32))
        ensures
            r.0 == self.origin().0,
            r.1 == self.origin().1,
            r.0 <= self.cursor.x.trunc(u32::MAX as nat),
            r.1 <= self.cursor.y.trunc(u32::MAX as nat),
    {
        let (px, py) = self.current_page();
        (px * PAGE_TILES_W, py * PAGE_TILES_H)
    }
}

/// The chunk numbers along one axis fit.
pub proof fn lemma_axis(origin: u32, page_tiles: u32, chunk_size: u32, tiles: u32)
    requires
        chunk_size >= 1,
        page_tiles >= 1,
    ensures
        0 <= first_chunk(origin as int, chunk_size as int) <= u32::MAX,
        0 <= last_chunk(origin as int, page_tiles, chunk_size as int, tiles as int) < u32::MAX,
        0 <= origin as int / chunk_size as int <= u32::MAX,
        0 <= (origin + page_tiles - 1) / chunk_size as int <= origin + page_tiles - 1,
{
    let cs = chunk_size as int;
    let a = origin as int;
    let b = origin + page_tiles - 1;
    assert(0 <= a / cs <= a && 0 <= b / cs <= b) by (nonlinear_arith)
        requires
            cs >= 1,
            a >= 0,
            b >= 0,
    ;
    if tiles >= 1 {
        let t = tiles - 1;
        assert(0 <= t / cs <= t) by (nonlinear_arith)
            requires
                cs >= 1,
                t >= 0,
        ;
    }
}

/// What is missing is among what is wanted.
pub proof fn lemma_missing_among(chunks: Seq<(u32, u32)>, loaded: Map<u64, Vec<Tile>>, pending: Set<u64>)
    ensures
        forall|c: (u32, u32)|
            missing(chunks, loaded, pending).contains(c) ==> #[trigger] chunks.contains(c),
    decreases chunks.len(),
{
    if chunks.len() > 0 {
        let init = chunks.drop_last();
        lemma_missing_among(init, loaded, pending);
        assert forall|c: (u32, u32)|
            missing(chunks, loaded, pending).contains(c) implies #[trigger] chunks.contains(c) by {
            let m = missing(chunks, loaded, pending);
            let rest = missing(init, loaded, pending);
            let k = choose|k: int| 0 <= k < m.len() && m[k] == c;
            if k < rest.len() {
                assert(rest[k] == c);
                assert(rest.contains(c));
                assert(init.contains(c));
                let j = choose|j: int| 0 <= j < init.len() && init[j] == c;
                assert(chunks[j] == c);
            } else {
                assert(chunks[chunks.len() - 1] == c);
            }
        }
    }
}

/// Looking at one more chunk.
proof fn lemma_missing_step(
    chunks: Seq<(u32, u32)>,
    i: int,
    loaded: Map<u64, Vec<Tile>>,
    pending: Set<u64>,
)
    requires
        0 <= i < chunks.len(),
        chunks.no_duplicates(),
    ensures
        ({
            let before = missing(chunks.take(i), loaded, pending);
            let after = missing(chunks.take(i + 1), loaded, pending);
            let n = chunk_number(chunks[i].0, chunks[i].1);
            &&& !numbers(before).contains(n)
            &&& if loaded.contains_key(n) || pending.contains(n) {
                after == before
            } else {
                after == before.push(chunks[i]) && numbers(after) == numbers(before).insert(n)
            }
        }),
{
    let part = chunks.take(i + 1);
    let before = missing(chunks.take(i), loaded, pending);
    let n = chunk_number(chunks[i].0, chunks[i].1);
    let f = |c: (u32, u32)| chunk_number(c.0, c.1);
    assert(part.drop_last() =~= chunks.take(i));
    assert(part.last() == chunks[i]);
    lemma_missing_among(chunks.take(i), loaded, pending);
    if numbers(before).contains(n) {
        assert(before.map_values(f).contains(n));
        let k = choose|k: int|
            0 <= k < before.len() && #[trigger] before.map_values(f)[k] == n;
        assert(before.contains(before[k]));
        lemma_chunk_numbers_differ(before[k].0, before[k].1, chunks[i].0, chunks[i].1);
        assert(chunks.take(i).contains(chunks[i]));
        let j = choose|j: int| 0 <= j < i && chunks.take(i)[j] == chunks[i];
        assert(chunks[j] == chunks[i]);
        assert(false);
    }
    let after = before.push(chunks[i]);
    assert(after.map_values(f) =~= before.map_values(f).push(n));
    assert forall|k: u64| numbers(after).contains(k) <==> numbers(before).insert(n).contains(k) by {
        let a = after.map_values(f);
        let b = before.map_values(f);
        if b.contains(k) {
            let j = choose|j: int| 0 <= j < b.len() && b[j] == k;
            assert(a[j] == k);
        }
        if a.contains(k) {
            let j = choose|j: int| 0 <= j < a.len() && a[j] == k;
            if j < b.len() {
                assert(b[j] == k);
            }
        }
        assert(a[b.len() as int] == n);
    }
    assert(numbers(after) =~= numbers(before).insert(n));
}

/// The chunk at a place of a rectangle.
pub proof fn lemma_chunk_rows_at(x0: int, x1: int, y0: int, y1: int, x: int, y: int)
    requires
        0 <= x0 <= x <= x1 <= u32::MAX,
        0 <= y0 <= y <= y1 <= u32::MAX,
    ensures
        ({
            let i = (y - y0) * (x1 - x0 + 1) + (x - x0);
            &&& 0 <= i < chunk_rows(x0, x1, y0, y1).len()
            &&& chunk_rows(x0, x1, y0, y1)[i] == (x as u32, y as u32)
        }),
{
    let w = x1 - x0 + 1;
    let h = y1 - y0 + 1;
    let r = y - y0;
    let c = x - x0;
    let i = r * w + c;
    assert(0 <= i < w * h) by (nonlinear_arith)
        requires
            0 <= c < w,
            0 <= r < h,
            i == r * w + c,
    ;
    lemma_fundamental_div_mod_converse(i, w, r, c);
}

/// No chunk of a rectangle comes twice.
pub proof fn lemma_chunk_rows_distinct(x0: int, x1: int, y0: int, y1: int)
    requires
        0 <= x0,
        x1 <= u32::MAX,
        0 <= y0,
        y1 <= u32::MAX,
    ensures
        chunk_rows(x0, x1, y0, y1).no_duplicates(),
{
    let s = chunk_rows(x0, x1, y0, y1);
    if x0 <= x1 && y0 <= y1 {
        let w = x1 - x0 + 1;
        let h = y1 - y0 + 1;
        assert forall|i: int, j: int| 0 <= i < s.len() && 0 <= j < s.len() && i != j implies s[i]
            != s[j] by {
            assert(0 <= i / w < h && 0 <= i % w < w && i == w * (i / w) + i % w) by (nonlinear_arith)
                requires
                    0 <= i < w * h,
                    w >= 1,
            ;
            assert(0 <= j / w < h && 0 <= j % w < w && j == w * (j / w) + j % w) by (nonlinear_arith)
                requires
                    0 <= j < w * h,
                    w >= 1,
            ;
            if s[i] == s[j] {
                assert(i % w == j % w);
                assert(i / w == j / w);
                assert(false);
            }
        }
    }
}

impl App {
    /// Whether the chunks around the current page can be computed.
    pub fn can_compute_chunks(&self) -> (r: bool)
        ensures
            r == self.chunks_computable(),
    {
        match self.world_info {
            None => true,
            Some(wi) => wi.chunk_size >= 1,
        }
    }

    /// Where nothing is wanted, nothing is asked for.
    proof fn lemma_nothing_missing(self)
        requires
            self.wanted_chunks() == Seq::<(u32, u32)>::empty(),
        ensures
            self.asked_for_chunks(self),
    {
        assert(numbers(Seq::<(u32, u32)>::empty()) =~= Set::<u64>::empty());
        assert(self.chunk_requests@ =~= self.chunk_requests@ + self.missing_chunks());
        assert(self.pending_chunks@ =~= self.pending_chunks@.union(numbers(self.missing_chunks())));
    }

    /// Queues requests for the chunks of the current page and of the border around it.
    ///
    /// To be called after a move to another page and when the layout of the map arrives.
    pub fn ensure_chunks_loaded(&mut self)
        requires
            old(self).chunks_computable(),
        ensures
            old(self).asked_for_chunks(*final(self)),
    {
        broadcast use group_hash_axioms;

        let wi: WorldInfo = match self.world_info {
            Some(wi) => wi,
            None => {
                proof {
                    self.lemma_nothing_missing();
                }
                return ;
            },
        };
        let cs: u32 = wi.chunk_size;
        let (ox, oy) = self.page_origin();
        proof {
            lemma_axis(ox, PAGE_TILES_W, cs, wi.tile_width);
            lemma_axis(oy, PAGE_TILES_H, cs, wi.tile_height);
        }
        let (x0, x1) = axis_chunks(ox, PAGE_TILES_W, cs, wi.tile_width);
        let (y0, y1) = axis_chunks(oy, PAGE_TILES_H, cs, wi.tile_height);
        let ghost chunks = self.wanted_chunks();
        let ghost loaded = self.loaded_chunks@;
        let ghost pending = self.pending_chunks@;
        let ghost start = *self;
        assert(chunks.take(0) =~= Seq::<(u32, u32)>::empty());
        assert(numbers(Seq::<(u32, u32)>::empty()) =~= Set::<u64>::empty());
        if x0 > x1 || y0 > y1 {
            proof {
                self.lemma_nothing_missing();
            }
            return ;
        }
        let ghost w = x1 - x0 + 1;
        proof {
            lemma_chunk_rows_distinct(x0 as int, x1 as int, y0 as int, y1 as int);
        }
        let mut cy: u32 = y0;
        while cy <= y1
            invariant
                x0 <= x1,
                y0 <= y1,
                x1 < u32::MAX,
                y1 < u32::MAX,
                y0 <= cy <= y1 + 1,
                w == x1 - x0 + 1,
                chunks == chunk_rows(x0 as int, x1 as int, y0 as int, y1 as int),
                chunks.no_duplicates(),
                loaded == start.loaded_chunks@,
                pending == start.pending_chunks@,
                self.chunk_requests@ == start.chunk_requests@ + missing(
                    chunks.take((cy - y0) * w),
                    loaded,
                    pending,
                ),
                self.pending_chunks@ == pending.union(
                    numbers(missing(chunks.take((cy - y0) * w), loaded, pending)),
                ),
                *self == (App {
                    pending_chunks: self.pending_chunks,
                    chunk_requests: self.chunk_requests,
                    ..start
                }),
            decreases y1 + 1 - cy,
        {
            let mut cx: u32 = x0;
            while cx <= x1
                invariant
                    x0 <= x1,
                    y0 <= cy <= y1,
                    x1 < u32::MAX,
                    x0 <= cx <= x1 + 1,
                    w == x1 - x0 + 1,
                    chunks == chunk_rows(x0 as int, x1 as int, y0 as int, y1 as int),
                    chunks.no_duplicates(),
                    loaded == start.loaded_chunks@,
                    pending == start.pending_chunks@,
                    self.chunk_requests@ == start.chunk_requests@ + missing(
                        chunks.take((cy - y0) * w + (cx - x0)),
                        loaded,
                        pending,
                    ),
                    self.pending_chunks@ == pending.union(
                        numbers(missing(chunks.take((cy - y0) * w + (cx - x0)), loaded, pending)),
                    ),
                    *self == (App {
                        pending_chunks: self.pending_chunks,
                        chunk_requests: self.chunk_requests,
                        ..start
                    }),
                decreases x1 + 1 - cx,
            {
                broadcast use group_hash_axioms;

                let key: u64 = chunk_key(cx, cy);
                let ghost i = (cy - y0) * w + (cx - x0);
                proof {
                    lemma_chunk_rows_at(
                        x0 as int,
                        x1 as int,
                        y0 as int,
                        y1 as int,
                        cx as int,
                        cy as int,
                    );
                    lemma_missing_step(chunks, i, loaded, pending);
                }
                if !self.loaded_chunks.contains_key(&key) && !self.pending_chunks.contains(&key) {
                    self.pending_chunks.insert(key);
                    self.chunk_requests.push((cx, cy));
                }
                cx = cx + 1;
                assert(i + 1 == (cy - y0) * w + (cx - x0));
                assert(self.chunk_requests@ =~= start.chunk_requests@ + missing(
                    chunks.take(i + 1),
                    loaded,
                    pending,
                ));
                assert(self.pending_chunks@ =~= pending.union(
                    numbers(missing(chunks.take(i + 1), loaded, pending)),
                ));
            }
            assert((cy - y0) * w + w == (cy + 1 - y0) * w) by (nonlinear_arith);
            cy = cy + 1;
        }
        assert((y1 + 1 - y0) * w == w * (y1 - y0 + 1)) by (nonlinear_arith);
        assert(chunks.take(chunks.len() as int) =~= chunks);
    }
}

/// The first and the last chunk to load along one axis.
fn axis_chunks(origin: u32, page_tiles: u32, chunk_size: u32, tiles: u32) -> (r: (u32, u32))
    requires
        chunk_size >= 1,
        page_tiles >= 1,
    ensures
        r.0 == first_chunk(origin as int, chunk_size as int),
        r.1 == last_chunk(origin as int, page_tiles, chunk_size as int, tiles as int),
        r.1 < u32::MAX,
{
    proof {
        lemma_axis(origin, page_tiles, chunk_size, tiles);
    }
    let first: u32 = origin / chunk_size;
    let low: u32 = if first >= PREFETCH_BORDER {
        first - PREFETCH_BORDER
    } else {
        0
    };
    let next: u64 = (origin as u64 + (page_tiles - 1) as u64) / chunk_size as u64
        + PREFETCH_BORDER as u64;
    let last: u32 = if tiles == 0 {
        0
    } else {
        (tiles - 1) / chunk_size
    };
    (
        low,
        if next <= last as u64 {
            next as u32
        } else {
            last
        },
    )
}

/// Where a step leads: nobody leaves the map.
pub open spec fn stepped(v: F32, step: F32, last: F32) -> F32 {
    v.plus(step).clamped(F32 { bits: 0 }, last)
}

/// Where a boat heads after a step.
pub open spec fn heading(dx: F32, dy: F32) -> Direction {
    let zero = F32 { bits: 0 };
    if zero.below(dx) {
        Direction::Right
    } else if dx.below(zero) {
        Direction::Left
    } else if dy.below(zero) {
        Direction::Up
    } else {
        Direction::Down
    }
}

/// Where a boat heads after a step.
fn heading_of(dx: F32, dy: F32) -> (r: Direction)
    ensures
        r == heading(dx, dy),
{
    let zero: F32 = F32 { bits: 0 };
    if zero.lt(dx) {
        Direction::Right
    } else if dx.lt(zero) {
        Direction::Left
    } else if dy.lt(zero) {
        Direction::Up
    } else {
        Direction::Down
    }
}

/// The place of a tile in its chunk.
pub open spec fn place_in_chunk(wx: u32, wy: u32, chunk_size: u32) -> int {
    (wy % chunk_size) * chunk_size + wx % chunk_size
}

impl App {
    /// The largest coordinates.
    pub open spec fn last_position(self) -> Position {
        match self.world_info {
            Some(wi) => Position {
                x: last_coordinate(wi.tile_width),
                y: last_coordinate(wi.tile_height),
            },
            None => Position {
                x: F32 { bits: DEFAULT_LAST_COORDINATE },
                y: F32 { bits: DEFAULT_LAST_COORDINATE },
            },
        }
    }

    /// Where a step from the current position leads.
    pub open spec fn step_target(self, dx: F32, dy: F32) -> Position {
        Position {
            x: stepped(self.cursor.x, dx, self.last_position().x),
            y: stepped(self.cursor.y, dy, self.last_position().y),
        }
    }

    /// The tiles of the chunk that a tile belongs to, if they were received.
    pub open spec fn chunk_of(self, wx: u32, wy: u32) -> Option<Seq<Tile>> {
        match self.world_info {
            None => None,
            Some(wi) => {
                let n = chunk_number(wx / wi.chunk_size, wy / wi.chunk_size);
                if self.loaded_chunks@.contains_key(n) {
                    Some(self.loaded_chunks@[n]@)
                } else {
                    None
                }
            },
        }
    }

    /// What is known of a tile of the map.
    pub open spec fn known_tile(self, wx: u32, wy: u32) -> Option<Tile> {
        match (self.world_info, self.chunk_of(wx, wy)) {
            (Some(wi), Some(data)) => {
                let i = place_in_chunk(wx, wy, wi.chunk_size);
                if i < data.len() {
                    Some(data[i])
                } else {
                    None
                }
            },
            _ => None,
        }
    }

    /// Whether a tile can be looked up.
    pub open spec fn lookup_fits(self, wx: u32, wy: u32) -> bool {
        self.world_info matches Some(wi) ==> {
            &&& wi.chunk_size >= 1
            &&& self.chunk_of(wx, wy) is Some ==> place_in_chunk(wx, wy, wi.chunk_size) <= u32::MAX
        }
    }

    /// Whether the tile under a position is known not to be open water.
    pub open spec fn blocked(self, pos: Position) -> bool {
        self.known_tile(
            pos.x.trunc(u32::MAX as nat) as u32,
            pos.y.trunc(u32::MAX as nat) as u32,
        ) matches Some(t) && t != Tile::Water
    }

    /// The client after a move, before it asks for chunks.
    pub open spec fn at(self, pos: Position, dir: Direction) -> App {
        App { cursor: pos, last_dir: dir, ..self }
    }

    /// Whether two positions lie on one page.
    pub open spec fn same_page(a: Position, b: Position) -> bool {
        &&& page_number(a.x, PAGE_TILES_W) == page_number(b.x, PAGE_TILES_W)
        &&& page_number(a.y, PAGE_TILES_H) == page_number(b.y, PAGE_TILES_H)
    }

    /// Whether `after` is the client after a step that was accepted: on another page it asks for the
    /// chunks that are missing there.
    pub open spec fn sailed(self, after: App, dx: F32, dy: F32) -> bool {
        let moved = self.at(self.step_target(dx, dy), heading(dx, dy));
        if App::same_page(self.cursor, moved.cursor) {
            after == moved
        } else {
            moved.asked_for_chunks(after)
        }
    }

    /// Whether `after` is the client after it has queued requests for the chunks that are missing.
    pub open spec fn asked_for_chunks(self, after: App) -> bool {
        &&& after.chunk_requests@ == self.chunk_requests@ + self.missing_chunks()
        &&& after.pending_chunks@ == self.pending_chunks@.union(numbers(self.missing_chunks()))
        &&& after == (App {
            pending_chunks: after.pending_chunks,
            chunk_requests: after.chunk_requests,
            ..self
        })
    }

    /// Whether a step can be carried out.
    pub open spec fn can_step(self, dx: F32, dy: F32) -> bool {
        let pos = self.step_target(dx, dy);
        &&& self.world_info matches Some(wi) ==> wi.tile_width >= 1 && wi.tile_height >= 1
        &&& self.lookup_fits(
            pos.x.trunc(u32::MAX as nat) as u32,
            pos.y.trunc(u32::MAX as nat) as u32,
        )
    }

    /// Whether a tile can be looked up.
    pub fn can_look_up(&self, wx: u32, wy: u32) -> (r: bool)
        ensures
            r == self.lookup_fits(wx, wy),
    {
        broadcast use group_hash_axioms;

        match self.world_info {
            None => true,
            Some(wi) => {
                let cs: u32 = wi.chunk_size;
                if cs == 0 {
                    return false;
                }
                if !self.loaded_chunks.contains_key(&chunk_key(wx / cs, wy / cs)) {
                    return true;
                }
                proof {
                    assert((wy % cs) * cs <= 0xffff_ffff * 0xffff_ffff) by (nonlinear_arith)
                        requires
                            0 <= wy % cs <= 0xffff_ffff,
                            0 <= cs <= 0xffff_ffff,
                    ;
                }
                (wy % cs) as u64 * cs as u64 + (wx % cs) as u64 <= u32::MAX as u64
            },
        }
    }

    /// The tile at a place of the map; nothing if it is not known yet.
    pub fn tile_at_world(&self, wx: u32, wy: u32) -> (r: Option<Tile>)
        requires
            self.lookup_fits(wx, wy),
        ensures
            r == self.known_tile(wx, wy),
    {
        broadcast use group_hash_axioms;

        let wi: WorldInfo = match self.world_info {
            Some(wi) => wi,
            None => {
                return None;
            },
        };
        let cs: u32 = wi.chunk_size;
        match self.loaded_chunks.get(&chunk_key(wx / cs, wy / cs)) {
            None => None,
            Some(chunk) => {
                proof {
                    assert(0 <= (wy % cs) * cs) by (nonlinear_arith)
                        requires
                            0 <= wy % cs,
                            0 <= cs,
                    ;
                }
                let i: usize = ((wy % cs) * cs + wx % cs) as usize;
                if i < chunk.len() {
                    Some(chunk[i])
                } else {
                    None
                }
            },
        }
    }

    /// Where a step from the current position leads.
    fn target(&self, dx: F32, dy: F32) -> (r: Position)
        requires
            self.world_info matches Some(wi) ==> wi.tile_width >= 1 && wi.tile_height >= 1,
        ensures
            r == self.step_target(dx, dy),
    {
        let zero: F32 = F32 { bits: 0 };
        let (last_x, last_y) = match self.world_info {
            Some(wi) => (last_tile(wi.tile_width), last_tile(wi.tile_height)),
            None => {
                let last: F32 = F32 { bits: DEFAULT_LAST_COORDINATE };
                (last, last)
            },
        };
        Position {
            x: self.cursor.x.add(dx).clamp(zero, last_x),
            y: self.cursor.y.add(dy).clamp(zero, last_y),
        }
    }

    /// Whether a step can be carried out.
    pub fn can_move(&self, dx: F32, dy: F32) -> (r: bool)
        ensures
            r == self.can_step(dx, dy),
    {
        if let Some(wi) = self.world_info {
            if wi.tile_width == 0 || wi.tile_height == 0 {
                return false;
            }
        }
        let pos: Position = self.target(dx, dy);
        self.can_look_up(pos.x.to_u32(), pos.y.to_u32())
    }

    /// Tries to move the boat by a step, and says whether the move was accepted.
    ///
    /// Moves onto the coast or land are rejected where the tile is known. Nobody leaves the map.
    pub fn move_cursor(&mut self, dx: F32, dy: F32) -> (r: bool)
        requires
            old(self).can_step(dx, dy),
        ensures
            r == !old(self).blocked(old(self).step_target(dx, dy)),
            !r ==> *final(self) == *old(self),
            r ==> old(self).sailed(*final(self), dx, dy),
    {
        let pos: Position = self.target(dx, dy);
        if let Some(t) = self.tile_at_world(pos.x.to_u32(), pos.y.to_u32()) {
            if t != Tile::Water {
                return false;
            }
        }
        let old_page: (u32, u32) = self.current_page();
        self.cursor = pos;
        self.last_dir = heading_of(dx, dy);
        let new_page: (u32, u32) = self.current_page();
        if new_page.0 != old_page.0 || new_page.1 != old_page.1 {
            self.ensure_chunks_loaded();
        }
        true
    }
}

impl Bubble {
    /// How long ago it was said, in nanoseconds.
    pub open spec fn age(self, now: u64) -> int {
        if now >= self.received_at {
            now - self.received_at
        } else {
            0
        }
    }

    /// Whether it is still shown.
    pub open spec fn fresh(self, now: u64) -> bool {
        self.age(now) < BUBBLE_TTL
    }

    /// How long ago it was said, in nanoseconds.
    pub fn elapsed(&self, now: u64) -> (r: u64)
        ensures
            r == self.age(now),
    {
        if now >= self.received_at {
            now - self.received_at
        } else {
            0
        }
    }
}

/// The requests for some chunks, in their order.
pub open spec fn requests(chunks: Seq<(u32, u32)>) -> Seq<GameEvent> {
    chunks.map_values(
        |c: (u32, u32)| GameEvent::MapChunkRequest { chunk_x: c.0, chunk_y: c.1 },
    )
}

impl App {
    /// Shows what was said at a place.
    pub fn push_bubble(&mut self, position: Position, text: String, now: u64)
        ensures
            final(self).bubbles@ == old(self).bubbles@.push(
                (Bubble { position, text, received_at: now }),
            ),
            *final(self) == (App { bubbles: final(self).bubbles, ..*old(self) }),
    {
        self.bubbles.push(Bubble { position, text, received_at: now });
    }

    /// Takes away the bubbles that have been shown long enough.
    pub fn expire_bubbles(&mut self, now: u64)
        ensures
            final(self).bubbles@ == old(self).bubbles@.filter(|b: Bubble| b.fresh(now)),
            *final(self) == (App { bubbles: final(self).bubbles, ..*old(self) }),
    {
        let ghost all = self.bubbles@;
        let ghost keep = |b: Bubble| b.fresh(now);
        let mut bubbles: Vec<Bubble> = Vec::new();
        core::mem::swap(&mut bubbles, &mut self.bubbles);
        let mut kept: Vec<Bubble> = Vec::new();
        assert(all.take(0) =~= Seq::<Bubble>::empty());
        reveal(Seq::filter);
        for b in it: bubbles
            invariant
                it.seq() == all,
                keep == (|b: Bubble| b.fresh(now)),
                kept@ == all.take(it.index()).filter(keep),
        {
            proof {
                reveal(Seq::filter);
                let part = all.take(it.index() + 1);
                assert(part.drop_last() =~= all.take(it.index()));
                assert(part.last() == b);
            }
            if b.elapsed(now) < BUBBLE_TTL {
                kept.push(b);
            }
        }
        assert(all.take(all.len() as int) =~= all);
        self.bubbles = kept;
    }

    /// Takes the requests for chunks off the queue, to be sent in this order.
    pub fn take_requests(&mut self) -> (r: Vec<GameEvent>)
        ensures
            r@ == requests(old(self).chunk_requests@),
            final(self).chunk_requests@.len() == 0,
            *final(self) == (App { chunk_requests: final(self).chunk_requests, ..*old(self) }),
    {
        let ghost all = self.chunk_requests@;
        let mut chunks: Vec<(u32, u32)> = Vec::new();
        core::mem::swap(&mut chunks, &mut self.chunk_requests);
        let mut r: Vec<GameEvent> = Vec::new();
        for c in it: chunks
            invariant
                it.seq() == all,
                r@ == requests(all).take(it.index()),
        {
            r.push(GameEvent::MapChunkRequest { chunk_x: c.0, chunk_y: c.1 });
            assert(r@ =~= requests(all).take(it.index() + 1));
        }
        assert(requests(all).take(all.len() as int) =~= requests(all));
        r
    }
}

} // verus!
