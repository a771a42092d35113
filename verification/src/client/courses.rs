//! Where other boats head, and which page the player sees.

use vstd::arithmetic::power2::{lemma2_to64, lemma2_to64_rest, pow2};
use vstd::prelude::*;

use crate::float::exact::{lemma_lies_on, lemma_sum_near, lies_on, size};
use crate::float::laws::{
    lemma_nearest_monotone, lemma_order_of_values, lemma_representable, lemma_zero,
};
use crate::float::model::{nearest, Format};
use crate::float::F32;
use crate::protocol::Position;

use super::app::{App, Direction};
use super::scene::page_of;
use super::session::course;

verus! {

/// The page that is drawn holds the tile that the player's boat lies on; pages are two hundred tiles
/// wide and fifty high, and start at multiples of that.
pub proof fn lemma_player_is_on_page(app: App, width: u16, height: u16, bx: int, by: int)
    requires
        0 <= bx <= u32::MAX,
        0 <= by <= u32::MAX,
        lies_on(app.cursor.x, bx),
        lies_on(app.cursor.y, by),
    ensures
        ({
            let page = page_of(app, width, height);
            &&& page.ox % 200 == 0 && page.ox <= bx < page.ox + 200
            &&& page.oy % 50 == 0 && page.oy <= by < page.oy + 50
        }),
{
    lemma_lies_on(app.cursor.x, bx);
    lemma_lies_on(app.cursor.y, by);
}

/// A difference has the sign of the exact one, and a longer exact one is not shorter.
proof fn lemma_difference_ordered(a: F32, b: F32, c: F32, d: F32)
    requires
        a.is_finite_number(),
        b.is_finite_number(),
        c.is_finite_number(),
        d.is_finite_number(),
    ensures
        ({
            let (x, y) = (a.exact() - b.exact(), c.exact() - d.exact());
            let (p, q) = (a.minus(b), c.minus(d));
            let zero = F32 { bits: 0 };
            &&& zero.below(p) <==> x > 0
            &&& zero.below(p.absolute()) <==> x != 0
            &&& size(x) <= size(y) ==> p.absolute().at_most(q.absolute())
        }),
{
    let f = Format::Single;
    lemma2_to64();
    lemma_zero(f);
    let (x, y) = (a.exact() - b.exact(), c.exact() - d.exact());
    let (p, q) = (a.minus(b), c.minus(d));
    crate::float::order::lemma_nearest_zero(f, 1);
    lemma_representable(f, 1);
    assert(b.negative().exact() == -b.exact());
    assert(d.negative().exact() == -d.exact());
    let (m, n) = (size(x) as nat, size(y) as nat);
    if x != 0 {
        lemma_nearest_monotone(f, 1, m, 1);
    }
    if m <= n {
        lemma_nearest_monotone(f, m, n, 1);
    }
    assert(p.parts().abs == nearest(f, m, 1));
    assert(q.parts().abs == nearest(f, n, 1));
    assert(p.absolute().parts().abs == p.parts().abs && !p.absolute().parts().neg);
    assert(q.absolute().parts().abs == q.parts().abs && !q.absolute().parts().neg);
}

/// A boat heads where it sails: along the longer leg of its move, to the side that it moves to, and
/// as before if it stays; where both legs are as long, to the left or to the right.
pub proof fn lemma_boats_head_where_they_sail(from: Position, to: Position, last: Direction)
    requires
        from.x.is_finite_number(),
        from.y.is_finite_number(),
        to.x.is_finite_number(),
        to.y.is_finite_number(),
    ensures
        ({
            let (x, y) = (to.x.exact() - from.x.exact(), to.y.exact() - from.y.exact());
            let c = course(from, to, last);
            &&& x == 0 && y == 0 ==> c == last
            &&& x > 0 && x >= size(y) ==> c == Direction::Right
            &&& x < 0 && -x >= size(y) ==> c == Direction::Left
            &&& (x != 0 || y != 0) && c == Direction::Down ==> y > 0 && y > size(x)
            &&& (x != 0 || y != 0) && c == Direction::Up ==> y < 0 && -y > size(x)
            &&& (x != 0 || y != 0) && c == Direction::Right ==> x > 0
            &&& (x != 0 || y != 0) && c == Direction::Left ==> x < 0
        }),
{
    lemma_difference_ordered(to.x, from.x, to.y, from.y);
    lemma_difference_ordered(to.y, from.y, to.x, from.x);
}

/// The converse: a boat that moves farther up or down than to either side heads up or down; what
/// counts as farther is exact up to one part in eight million.
pub proof fn lemma_boats_head_up_and_down(from: Position, to: Position, last: Direction)
    requires
        from.x.is_finite_number(),
        from.y.is_finite_number(),
        to.x.is_finite_number(),
        to.y.is_finite_number(),
        size(to.x.exact() - from.x.exact()) < pow2(224),
        size(to.y.exact() - from.y.exact()) < pow2(224),
        ({
            let (x, y) = (to.x.exact() - from.x.exact(), to.y.exact() - from.y.exact());
            0x80_0000 * (size(y) - size(x)) > size(y)
        }),
    ensures
        course(from, to, last) == if to.y.exact() > from.y.exact() {
            Direction::Down
        } else {
            Direction::Up
        },
{
    let f = Format::Single;
    let (x, y) = (to.x.exact() - from.x.exact(), to.y.exact() - from.y.exact());
    let (dx, dy) = (to.x.minus(from.x), to.y.minus(from.y));
    lemma2_to64();
    lemma2_to64_rest();
    lemma_zero(f);
    lemma_difference_ordered(to.x, from.x, to.y, from.y);
    lemma_difference_ordered(to.y, from.y, to.x, from.x);
    assert(from.x.negative().exact() == -from.x.exact());
    assert(from.y.negative().exact() == -from.y.exact());
    lemma_sum_near(f, to.x.parts(), from.x.negative().parts(), 200);
    lemma_sum_near(f, to.y.parts(), from.y.negative().parts(), 200);
    assert(dx.absolute().exact() == size(dx.exact()));
    assert(dy.absolute().exact() == size(dy.exact()));
    lemma_order_of_values(f, dy.absolute().parts(), dx.absolute().parts());
    let (sx, sy) = (size(dx.exact()), size(dy.exact()));
    assert(0x100_0000 * (sx - size(x)) <= size(x));
    assert(0x100_0000 * (size(y) - sy) <= size(y));
    assert(sy > sx);
    assert(!dy.absolute().at_most(dx.absolute()));
    assert(y != 0);
    assert((F32 { bits: 0 }).below(dy.absolute()));
    assert((F32 { bits: 0 }).below(dy) <==> y > 0);
}

} // verus!
