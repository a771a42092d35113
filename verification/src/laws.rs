//! What holds between the server and its clients.

use vstd::prelude::*;

use crate::client::app::{App, OverviewMap, RemoteBoat};
use crate::client::overview::overview_fits;
use crate::client::session::{handled, with_boats};
use crate::listing::lists;
use crate::map_loader::grids::{flat, lemma_flat_len};
use crate::protocol::{GameEvent, Position};
use crate::server::handler::{
    others, stepped, Action, BoatEntry, Client, Envelope, Input, Phase, World,
};
use crate::server::laws::{berthed, has_boat};
use crate::tiles::Tile;

verus! {

/// A boat that moves is seen by the other clients where the server has it: the server tells a
/// sailing client of the move of another, and that client then has the boat at the same place.
pub proof fn lemma_others_see_moves(
    sender: Client,
    boats: Map<u64, BoatEntry>,
    world: World,
    claimed: u64,
    position: Position,
    after_sender: Client,
    after: Map<u64, BoatEntry>,
    actions: Seq<Action>,
    receiver: Client,
    later: Map<u64, BoatEntry>,
    app: App,
    now: u64,
    own: Seq<char>,
    after_app: App,
)
    requires
        sender.phase is Sailing,
        berthed(sender, boats),
        world.map.passable(position),
        stepped(
            sender,
            boats,
            world,
            Input::Received(Some(GameEvent::MoveEvent { id: claimed, position })),
            after_sender,
            after,
            actions,
        ),
        receiver.phase is Sailing,
        receiver.id != sender.id,
        handled(app, GameEvent::MoveEvent { id: sender.id, position }, now, own, after_app),
    ensures
        ({
            let event = GameEvent::MoveEvent { id: sender.id, position };
            let envelope = Envelope { sender_id: sender.id, event };
            &&& actions.contains(Action::Broadcast(envelope))
            &&& stepped(
                receiver,
                later,
                world,
                Input::Relayed(envelope),
                receiver,
                later,
                seq![Action::Send(event)],
            )
            &&& after_app.remote_boats@.contains_key(sender.id)
            &&& after_app.remote_boats@[sender.id].position == after[sender.id].position
        }),
{
    let event = GameEvent::MoveEvent { id: sender.id, position };
    let envelope = Envelope { sender_id: sender.id, event };
    assert(actions[2] == Action::Broadcast(envelope));
}

/// A boat that leaves is gone for the other clients too: the server takes it off the map, tells a
/// sailing client of it, and that client then has no such boat.
pub proof fn lemma_others_see_departures(
    leaver: Client,
    boats: Map<u64, BoatEntry>,
    world: World,
    input: Input,
    after_leaver: Client,
    after: Map<u64, BoatEntry>,
    actions: Seq<Action>,
    receiver: Client,
    later: Map<u64, BoatEntry>,
    app: App,
    now: u64,
    own: Seq<char>,
    after_app: App,
)
    requires
        has_boat(leaver),
        stepped(leaver, boats, world, input, after_leaver, after, actions),
        after_leaver.phase is Done,
        receiver.phase is Sailing,
        receiver.id != leaver.id,
        handled(app, GameEvent::ByeEvent { id: leaver.id }, now, own, after_app),
    ensures
        ({
            let event = GameEvent::ByeEvent { id: leaver.id };
            let envelope = Envelope { sender_id: leaver.id, event };
            &&& actions.contains(Action::Broadcast(envelope))
            &&& stepped(
                receiver,
                later,
                world,
                Input::Relayed(envelope),
                receiver,
                later,
                seq![Action::Send(event)],
            )
            &&& !after.contains_key(leaver.id)
            &&& !after_app.remote_boats@.contains_key(leaver.id)
        }),
{
    let event = GameEvent::ByeEvent { id: leaver.id };
    let envelope = Envelope { sender_id: leaver.id, event };
    assert(actions[1] == Action::Broadcast(envelope));
}

/// A newcomer is told its id and its place, and both are those of its boat on the map.
pub proof fn lemma_newcomer_knows_its_place(
    client: Client,
    boats: Map<u64, BoatEntry>,
    world: World,
    input: Input,
    after_client: Client,
    after: Map<u64, BoatEntry>,
    actions: Seq<Action>,
    app: App,
    now: u64,
    own: Seq<char>,
    after_app: App,
)
    requires
        client.phase is Spawning,
        stepped(client, boats, world, input, after_client, after, actions),
        after_client.phase is Welcoming,
        actions[0] matches Action::Send(event) && handled(app, event, now, own, after_app),
    ensures
        after_app.my_id == Some(client.id),
        after.contains_key(client.id),
        after_app.cursor == after[client.id].position,
{
}

/// A snapshot holds every boat but one, and each once.
pub proof fn lemma_snapshot(boats: Map<u64, BoatEntry>, me: u64, order: Seq<u64>)
    requires
        order.no_duplicates(),
        forall|id: u64| order.contains(id) ==> boats.contains_key(id),
    ensures
        forall|id: u64|
            #![trigger order.contains(id)]
            order.contains(id) && id != me <==> exists|i: int|
                0 <= i < others(boats, me, order).len() && (#[trigger] others(
                    boats,
                    me,
                    order,
                )[i]).0 == id,
        forall|i: int|
            0 <= i < others(boats, me, order).len() ==> {
                let (id, position, name) = #[trigger] others(boats, me, order)[i];
                position == boats[id].position && name == boats[id].name
            },
        forall|i: int, j: int|
            0 <= i < j < others(boats, me, order).len() ==> (#[trigger] others(
                boats,
                me,
                order,
            )[i]).0 != (#[trigger] others(boats, me, order)[j]).0,
    decreases order.len(),
{
    if order.len() > 0 {
        let init = order.drop_last();
        let last = order.last();
        assert forall|id: u64| init.contains(id) implies boats.contains_key(id) by {
            let k = choose|k: int| 0 <= k < init.len() && init[k] == id;
            assert(order[k] == id);
            assert(order.contains(id));
        }
        lemma_snapshot(boats, me, init);
        let rest = others(boats, me, init);
        let all = others(boats, me, order);
        assert forall|id: u64| #![trigger order.contains(id)] order.contains(id) && id != me <==> exists|
            i: int,
        |
            0 <= i < all.len() && (#[trigger] all[i]).0 == id by {
            if order.contains(id) && id != me {
                let k = choose|k: int| 0 <= k < order.len() && order[k] == id;
                if k < init.len() {
                    assert(init[k] == id);
                    assert(init.contains(id));
                    let i = choose|i: int| 0 <= i < rest.len() && (#[trigger] rest[i]).0 == id;
                    assert(all[i] == rest[i]);
                } else {
                    assert(all[all.len() - 1].0 == id);
                }
            }
            if exists|i: int| 0 <= i < all.len() && (#[trigger] all[i]).0 == id {
                let i = choose|i: int| 0 <= i < all.len() && (#[trigger] all[i]).0 == id;
                if i < rest.len() {
                    assert(rest[i].0 == id);
                    assert(init.contains(id));
                    let k = choose|k: int| 0 <= k < init.len() && init[k] == id;
                    assert(order[k] == id);
                } else {
                    assert(order[order.len() - 1] == id);
                }
            }
        }
        assert forall|i: int| 0 <= i < all.len() implies {
            let (id, position, name) = #[trigger] all[i];
            position == boats[id].position && name == boats[id].name
        } by {
            if i < rest.len() {
                assert(all[i] == rest[i]);
            }
        }
        assert forall|i: int, j: int| 0 <= i < j < all.len() implies (#[trigger] all[i]).0 != (
        #[trigger] all[j]).0 by {
            assert(all[i] == rest[i]);
            if j < rest.len() {
                assert(all[j] == rest[j]);
            } else {
                assert(rest[i].0 == rest[i].0);
                assert(init.contains(rest[i].0));
                let k = choose|k: int| 0 <= k < init.len() && init[k] == rest[i].0;
                assert(order[k] == rest[i].0);
                assert(order[order.len() - 1] == last);
            }
        }
    }
}

/// A newcomer that knew of no boats has, after the snapshot, every boat but its own, and each
/// where the server has it.
pub proof fn lemma_newcomer_knows_the_fleet(
    boats: Map<u64, BoatEntry>,
    me: u64,
    order: Seq<u64>,
    id: u64,
)
    requires
        lists(order, boats.dom()),
    ensures
        ({
            let known = with_boats(Map::<u64, RemoteBoat>::empty(), others(boats, me, order));
            &&& known.contains_key(id) <==> boats.contains_key(id) && id != me
            &&& known.contains_key(id) ==> known[id].position == boats[id].position
                && known[id].name == boats[id].name
        }),
{
    let list = others(boats, me, order);
    lemma_snapshot(boats, me, order);
    lemma_with_boats(list, id);
    assert(order.contains(id) <==> boats.contains_key(id));
    let known = with_boats(Map::<u64, RemoteBoat>::empty(), list);
    if known.contains_key(id) {
        let i = choose|i: int|
            0 <= i < list.len() && (#[trigger] list[i]).0 == id && known[id].position == list[i].1
                && known[id].name == list[i].2;
        assert(list[i].0 == id);
    }
}

/// What is known after a snapshot comes from the snapshot.
proof fn lemma_with_boats(list: Seq<(u64, Position, String)>, id: u64)
    ensures
        ({
            let known = with_boats(Map::<u64, RemoteBoat>::empty(), list);
            &&& known.contains_key(id) ==> exists|i: int|
                0 <= i < list.len() && (#[trigger] list[i]).0 == id && known[id].position
                    == list[i].1 && known[id].name == list[i].2
            &&& (exists|i: int| 0 <= i < list.len() && (#[trigger] list[i]).0 == id)
                ==> known.contains_key(id)
        }),
    decreases list.len(),
{
    if list.len() > 0 {
        let init = list.drop_last();
        let last = list.last();
        lemma_with_boats(init, id);
        let known = with_boats(Map::<u64, RemoteBoat>::empty(), list);
        let before = with_boats(Map::<u64, RemoteBoat>::empty(), init);
        if known.contains_key(id) {
            if last.0 == id {
                assert(list[list.len() - 1].0 == id);
            } else {
                let i = choose|i: int|
                    0 <= i < init.len() && (#[trigger] init[i]).0 == id && before[id].position
                        == init[i].1 && before[id].name == init[i].2;
                assert(list[i] == init[i]);
            }
        }
        if exists|i: int| 0 <= i < list.len() && (#[trigger] list[i]).0 == id {
            let i = choose|i: int| 0 <= i < list.len() && (#[trigger] list[i]).0 == id;
            if i < init.len() {
                assert(init[i].0 == id);
            }
        }
    }
}

/// The overview that the server makes of a grid has as many tiles as its size says, so that the
/// client can draw it.
pub proof fn lemma_overview_can_be_drawn(grid: Seq<Vec<Tile>>, ov: OverviewMap)
    requires
        ov.height == grid.len(),
        forall|r: int| 0 <= r < grid.len() ==> (#[trigger] grid[r])@.len() == ov.width,
        ov.data@ == flat(grid, grid.len() as int),
        ov.width * ov.height <= 0x1_0000_0000,
    ensures
        overview_fits(ov),
{
    lemma_flat_len(grid, ov.width as nat, grid.len() as int);
    assert(ov.width * ov.height == grid.len() as int * ov.width) by (nonlinear_arith)
        requires
            ov.height == grid.len(),
    ;
}

} // verus!
