//! What a client makes of the news from the server.

use vstd::prelude::*;

use crate::protocol::{GameEvent, Position};

use super::app::{App, Direction, RemoteBoat, UpdateStatus};
use super::session::{handled, with_boats};
use super::version::parsed_release;

verus! {

/// News of one boat make no difference to any other, nor to anything else that the client knows.
pub proof fn lemma_news_of_one_boat(
    before: App,
    event: GameEvent,
    now: u64,
    own: Seq<char>,
    after: App,
    id: u64,
    other: u64,
)
    requires
        handled(before, event, now, own, after),
        match event {
            GameEvent::NameEvent { id: of, name } => of == id,
            GameEvent::MoveEvent { id: of, position } => of == id,
            GameEvent::ByeEvent { id: of } => of == id,
            _ => false,
        },
        other != id,
    ensures
        after.remote_boats@.contains_key(other) == before.remote_boats@.contains_key(other),
        before.remote_boats@.contains_key(other) ==> after.remote_boats@[other]
            == before.remote_boats@[other],
        after.cursor == before.cursor,
        after.loaded_chunks == before.loaded_chunks,
        after.bubbles == before.bubbles,
        event is ByeEvent ==> !after.remote_boats@.contains_key(id),
        event is NameEvent || event is MoveEvent ==> after.remote_boats@.contains_key(id),
{
}

/// A name that is told is the name of the boat from then on, wherever the boat is.
pub proof fn lemma_names_are_taken(
    before: App,
    id: u64,
    name: String,
    now: u64,
    own: Seq<char>,
    after: App,
)
    requires
        handled(before, GameEvent::NameEvent { id, name }, now, own, after),
    ensures
        after.remote_boats@.contains_key(id),
        after.remote_boats@[id].name == name,
        before.remote_boats@.contains_key(id) ==> after.remote_boats@[id].position
            == before.remote_boats@[id].position && after.remote_boats@[id].last_dir
            == before.remote_boats@[id].last_dir,
{
}

/// A boat that moves is where it moved to, and keeps its name; one that was not known is called by
/// its id.
pub proof fn lemma_moves_are_taken(
    before: App,
    id: u64,
    position: Position,
    now: u64,
    own: Seq<char>,
    after: App,
)
    requires
        handled(before, GameEvent::MoveEvent { id, position }, now, own, after),
    ensures
        after.remote_boats@.contains_key(id),
        after.remote_boats@[id].position == position,
        before.remote_boats@.contains_key(id) ==> after.remote_boats@[id].name
            == before.remote_boats@[id].name,
        !before.remote_boats@.contains_key(id) ==> crate::readings::number(
            after.remote_boats@[id].name@,
        ) == id && after.remote_boats@[id].last_dir == Direction::Right,
{
    crate::readings::lemma_numbers_read_back(id as nat);
}

/// A snapshot tells of the boats that it names, of each by its last entry, and of no others.
pub proof fn lemma_snapshots_are_taken(
    boats: Map<u64, RemoteBoat>,
    snapshot: Seq<(u64, Position, String)>,
    id: u64,
    i: int,
)
    ensures
        (forall|k: int| 0 <= k < snapshot.len() ==> (#[trigger] snapshot[k]).0 != id) ==> with_boats(
            boats,
            snapshot,
        ).contains_key(id) == boats.contains_key(id) && with_boats(boats, snapshot)[id]
            == boats[id],
        0 <= i < snapshot.len() && snapshot[i].0 == id && (forall|k: int|
            i < k < snapshot.len() ==> (#[trigger] snapshot[k]).0 != id) ==> {
            let boat = with_boats(boats, snapshot)[id];
            &&& with_boats(boats, snapshot).contains_key(id)
            &&& boat.position == snapshot[i].1
            &&& boat.name == snapshot[i].2
        },
    decreases snapshot.len(),
{
    if snapshot.len() > 0 {
        let init = snapshot.drop_last();
        lemma_snapshots_are_taken(boats, init, id, i);
        assert(snapshot.last() == snapshot[snapshot.len() - 1]);
        assert(forall|k: int| 0 <= k < init.len() ==> init[k] == snapshot[k]);
    }
}

/// What is said is heard where it was said, at the time that it is heard; without a place, where the
/// own boat is.
pub proof fn lemma_words_are_heard(
    before: App,
    position: Option<Position>,
    text: String,
    now: u64,
    own: Seq<char>,
    after: App,
)
    requires
        handled(before, GameEvent::SayEvent { position, text }, now, own, after),
    ensures
        after.bubbles@.len() == before.bubbles@.len() + 1,
        after.bubbles@.drop_last() == before.bubbles@,
        after.bubbles@.last().text == text,
        after.bubbles@.last().received_at == now,
        position is Some ==> after.bubbles@.last().position == position->0,
        position is None ==> after.bubbles@.last().position == before.cursor,
        after.remote_boats == before.remote_boats,
{
    assert(after.bubbles@.drop_last() =~= before.bubbles@);
}

/// A client takes its id and its place from the greeting, the layout and the overview of the map as
/// they are told, and warns of a server of another major or minor version.
pub proof fn lemma_greetings_are_taken(
    before: App,
    event: GameEvent,
    now: u64,
    own: Seq<char>,
    after: App,
)
    requires
        handled(before, event, now, own, after),
    ensures
        event matches GameEvent::HelloEvent { your_id, start_position } ==> after.my_id == Some(
            your_id,
        ) && after.cursor == start_position,
        event matches GameEvent::WorldInfoEvent { tile_width, tile_height, chunk_size, .. } ==> {
            &&& after.world_info is Some
            &&& after.world_info->0.tile_width == tile_width
            &&& after.world_info->0.tile_height == tile_height
            &&& after.world_info->0.chunk_size == chunk_size
        },
        event matches GameEvent::OverviewMapEvent { width, height, data } ==> {
            &&& after.overview is Some
            &&& after.overview->0.width == width
            &&& after.overview->0.height == height
            &&& after.overview->0.data == data
        },
        event matches GameEvent::ServerVersionEvent { version } ==> {
            let same = match (parsed_release(version@), parsed_release(own)) {
                (Some(a), Some(b)) => a.major == b.major && a.minor == b.minor,
                (Some(a), None) => a.major == 0 && a.minor == 0,
                _ => false,
            };
            &&& same ==> after.update_status == (UpdateStatus::Compatible { patch_available: None })
            &&& !same ==> after.update_status == (UpdateStatus::Incompatible {
                server_version: version,
            })
        },
        !(event is HelloEvent) ==> after.cursor == before.cursor && after.my_id == before.my_id,
        !(event is WorldInfoEvent) ==> after.world_info == before.world_info,
        !(event is OverviewMapEvent) ==> after.overview == before.overview,
        !(event is SayEvent) ==> after.bubbles == before.bubbles,
        !(event is MapChunkResponse) ==> after.loaded_chunks == before.loaded_chunks,
        !(event is ServerVersionEvent) ==> after.update_status == before.update_status,
        after.input == before.input,
        after.my_name == before.my_name,
        after.last_dir == before.last_dir,
{
}

} // verus!
