//! What the overview of the map shows, and where.

use vstd::arithmetic::div_mod::{lemma_fundamental_div_mod, lemma_fundamental_div_mod_converse};
use vstd::arithmetic::power2::{
    lemma2_to64, lemma2_to64_rest, lemma_pow2_adds, lemma_pow2_pos, lemma_pow2_strictly_increases,
    pow2,
};
use vstd::prelude::*;

use crate::float::error::lemma_off_by_half;
use crate::float::exact::{
    apart, lemma_doubles_near, lemma_product_near, lemma_quotient_near, lemma_same_in_double, size,
};
use crate::float::laws::lemma_zero;
use crate::float::model::Format;
use crate::float::F64;
use crate::map_loader::edges::lemma_size_of_product;
use crate::protocol::Position;
use crate::round_trip::steps::{lemma_encoded, lemma_minus_exact, lemma_whole_double};
use crate::tiles::Tile;

use super::app::{App, OverviewMap};
use super::coast::stands_at;
use super::overview::{
    anchor_mark, anchor_marks, overview_row, overview_scene, overview_spot, player_mark,
    terrain_mark, terrain_marks,
};
use super::render::{Color, MarkView, F64_ONE};

verus! {

/// Whether a text stands at a column and a row of the canvas, counted from the lower left.
pub open spec fn reads_at(m: MarkView, text: Seq<char>, col: int, row: int) -> bool {
    m.text == text && stands_at(m, col, row)
}

/// Whether a drawing shows a text at a column and a row.
pub open spec fn shows_text(marks: Seq<MarkView>, text: Seq<char>, col: int, row: int) -> bool {
    exists|k: int| 0 <= k < marks.len() && #[trigger] reads_at(marks[k], text, col, row)
}

/// How a kind of terrain is drawn.
pub open spec fn terrain_text(tile: Tile) -> Seq<char> {
    match tile {
        Tile::Land => "#"@,
        Tile::Coast => "."@,
        Tile::Water => " "@,
    }
}

/// The row of the canvas for a row of the overview.
proof fn lemma_row_of_canvas(ov: OverviewMap, row: nat)
    requires
        row < ov.height,
    ensures
        overview_row(ov, F64::of_nat(row)).is_finite_number(),
        overview_row(ov, F64::of_nat(row)).exact() == (ov.height - 1 - row) * pow2(1074),
{
    lemma2_to64();
    lemma2_to64_rest();
    let unit = pow2(1074);
    let h = ov.height as nat;
    let one = F64 { bits: F64_ONE };
    lemma_whole_double(h);
    lemma_whole_double(row);
    lemma_encoded(F64_ONE, 0x3ff, 0);
    lemma_pow2_adds(52, 1022);
    assert(0x10_0000_0000_0000nat * pow2(1022) == unit);
    let last = (h - 1) as nat;
    assert(h * unit == unit + last * unit) by (nonlinear_arith)
        requires
            h == last + 1,
    ;
    lemma_minus_exact(F64::of_nat(h), one, h * unit, unit, last, 1074);
    let up = (last - row) as nat;
    assert(last * unit == row * unit + up * unit) by (nonlinear_arith)
        requires
            last == row + up,
    ;
    lemma_minus_exact(F64::of_nat(h).minus(one), F64::of_nat(row), last * unit, row * unit, up, 1074);
}

/// Where a tile of the overview is drawn.
proof fn lemma_terrain_place(ov: OverviewMap, i: int)
    requires
        0 <= i < ov.width * ov.height,
        ov.width >= 1,
    ensures
        terrain_mark(ov, i) matches Some(m) ==> {
            &&& stands_at(m, i % (ov.width as int), ov.height - 1 - i / (ov.width as int))
            &&& m.text == terrain_text(ov.data@[i])
        },
        terrain_mark(ov, i) is None <==> ov.data@[i] == Tile::Water,
        0 <= i / (ov.width as int) < ov.height,
{
    let w = ov.width as int;
    let h = ov.height as int;
    lemma2_to64();
    lemma2_to64_rest();
    assert(0 <= i / w < h && 0 <= i % w < w) by (nonlinear_arith)
        requires
            0 <= i < w * h,
            w >= 1,
    ;
    lemma_row_of_canvas(ov, (i / w) as nat);
    lemma_whole_double((i % w) as nat);
}

/// What the first tiles of the overview show at the place of a tile.
proof fn lemma_terrain_shown(ov: OverviewMap, x: int, y: int, text: Seq<char>, tiles: int)
    requires
        0 <= x < ov.width,
        0 <= y < ov.height,
        0 <= tiles <= ov.width * ov.height,
    ensures
        shows_text(terrain_marks(ov, tiles), text, x, ov.height - 1 - y) <==> {
            let i = y * ov.width + x;
            i < tiles && ov.data@[i] != Tile::Water && terrain_text(ov.data@[i]) == text
        },
    decreases tiles,
{
    if tiles > 0 {
        lemma_terrain_shown(ov, x, y, text, tiles - 1);
        let i = tiles - 1;
        let w = ov.width as int;
        lemma_terrain_place(ov, i);
        lemma_pow2_pos(1074);
        let rest = terrain_marks(ov, tiles - 1);
        let all = terrain_marks(ov, tiles);
        let (c, r) = (x, ov.height - 1 - y);
        lemma_fundamental_div_mod(i, w);
        lemma_fundamental_div_mod_converse(y * w + x, w, y, x);
        assert(w * (i / w) == (i / w) * w) by (nonlinear_arith);
        if let Some(m) = terrain_mark(ov, i) {
            assert(all == rest.push(m));
            let (tc, tr) = (i % w, ov.height - 1 - i / w);
            if stands_at(m, c, r) {
                let unit = pow2(1074) as int;
                assert(tc == c && tr == r) by (nonlinear_arith)
                    requires
                        tc * unit == c * unit,
                        tr * unit == r * unit,
                        unit > 0,
                ;
            }
            if shows_text(rest, text, c, r) {
                let k = choose|k: int| 0 <= k < rest.len() && #[trigger] reads_at(rest[k], text, c, r);
                assert(reads_at(all[k], text, c, r));
            }
            if shows_text(all, text, c, r) {
                let k = choose|k: int| 0 <= k < all.len() && #[trigger] reads_at(all[k], text, c, r);
                if k < rest.len() {
                    assert(reads_at(rest[k], text, c, r));
                } else {
                    assert(all[k] == m);
                }
            }
            if i == y * w + x && m.text == text {
                assert(reads_at(all[rest.len() as int], text, c, r));
            }
        }
    }
}

/// The overview shows land and coast just where they are: a `#` for every tile of land and a dot for
/// every tile of coast, at the place of the tile with the north on top, and none for water.
pub proof fn lemma_terrain_is_drawn(app: App, ov: OverviewMap, x: int, y: int)
    requires
        0 <= x < ov.width,
        0 <= y < ov.height,
    ensures
        ({
            let tile = ov.data@[y * ov.width + x];
            let marks = overview_scene(app, ov);
            &&& shows_text(marks, "#"@, x, ov.height - 1 - y) <==> tile == Tile::Land
            &&& shows_text(marks, "."@, x, ov.height - 1 - y) <==> tile == Tile::Coast
        }),
{
    let w = ov.width as int;
    let h = ov.height as int;
    let n = w * h;
    assert(0 <= y * w + x < n) by (nonlinear_arith)
        requires
            0 <= x < w,
            0 <= y < h,
            n == w * h,
    ;
    assert(ov.width * ov.height == n);
    reveal_strlit("#");
    reveal_strlit(".");
    reveal_strlit(" ");
    reveal_strlit("X");
    reveal_strlit("\u{2693}");
    assert("#"@[0] == '#' && "."@[0] == '.' && "X"@[0] == 'X' && "\u{2693}"@[0] == '\u{2693}' && " "@[0]
        == ' ');
    lemma_terrain_shown(ov, x, y, "#"@, n);
    lemma_terrain_shown(ov, x, y, "."@, n);
    lemma_only_terrain(app, ov, "#"@, x, h - 1 - y);
    lemma_only_terrain(app, ov, "."@, x, h - 1 - y);
}

/// Anchors and the player are no terrain.
proof fn lemma_only_terrain(app: App, ov: OverviewMap, text: Seq<char>, col: int, row: int)
    requires
        text != "X"@,
        text != "\u{2693}"@,
    ensures
        shows_text(overview_scene(app, ov), text, col, row) <==> shows_text(
            terrain_marks(ov, ov.width * ov.height),
            text,
            col,
            row,
        ),
{
    let a = terrain_marks(ov, ov.width * ov.height);
    let b = anchor_marks(app, ov);
    let all = overview_scene(app, ov);
    if shows_text(a, text, col, row) {
        let k = choose|k: int| 0 <= k < a.len() && #[trigger] reads_at(a[k], text, col, row);
        assert(all[k] == a[k]);
        assert(reads_at(all[k], text, col, row));
    }
    if shows_text(all, text, col, row) {
        let k = choose|k: int| 0 <= k < all.len() && #[trigger] reads_at(all[k], text, col, row);
        if k < a.len() {
            assert(all[k] == a[k]);
            assert(reads_at(a[k], text, col, row));
        } else if k < a.len() + b.len() {
            assert(all[k] == b[k - a.len()]);
        } else {
            assert(all[k] == player_mark(app, ov));
        }
    }
}

/// Every anchor point is drawn as an anchor, in magenta and bold until it was visited and dim from
/// then on, reversed while it is picked out; the player is a yellow `X`.
pub proof fn lemma_anchors_are_drawn(app: App, ov: OverviewMap, i: int)
    requires
        0 <= i < app.anchor_points@.len(),
    ensures
        ({
            let a = app.anchor_points@[i];
            let visited = app.visited_anchors@.contains(a.id);
            let marks = overview_scene(app, ov);
            exists|k: int|
                0 <= k < marks.len() && {
                    let m = #[trigger] marks[k];
                    &&& m.text == "\u{2693}"@
                    &&& (m.x, m.y) == overview_spot(ov, a.position)
                    &&& m.style.color == if visited {
                        Color::DarkGray
                    } else {
                        Color::Magenta
                    }
                    &&& m.style.bold == !visited
                    &&& m.style.reversed == (app.selected_anchor matches Some(s) && s == i)
                }
        }),
        ({
            let m = overview_scene(app, ov).last();
            &&& m.text == "X"@
            &&& m.style.color == Color::Yellow
            &&& (m.x, m.y) == overview_spot(ov, app.cursor)
        }),
{
    let a = terrain_marks(ov, ov.width * ov.height);
    let b = anchor_marks(app, ov);
    let all = overview_scene(app, ov);
    assert(b[i] == anchor_mark(app, ov, i));
    assert(all[a.len() + i] == b[i]);
}

/// A number over one integer, times another.
proof fn lemma_rescaled(v: F64, a: nat, b: nat)
    requires
        v.is_finite_number(),
        size(v.exact()) <= pow2(1204),
        1 <= a <= 0x1_0000_0000,
        1 <= b <= 0x1_0000_0000,
    ensures
        ({
            let r = v.over(F64::of_nat(a)).times(F64::of_nat(b));
            &&& r.is_finite_number()
            &&& size(r.exact()) <= pow2(1300)
            &&& 0x4_0000_0000_0000 * apart(a * r.exact(), b * v.exact()) <= b * size(v.exact())
                + 0x8_0000_0000_0000 * (a * b)
        }),
{
    let f = Format::Double;
    let unit = pow2(1074) as int;
    lemma2_to64();
    lemma2_to64_rest();
    lemma_zero(f);
    lemma_pow2_pos(1074);
    lemma_whole_double(a);
    lemma_whole_double(b);
    let (fa, fb) = (F64::of_nat(a), F64::of_nat(b));
    let m = v.parts().magnitude(f);
    let au = a * pow2(1074);
    lemma_pow2_strictly_increases(1204, 1653);
    assert(au > 0 && m * pow2(1074) < au * pow2(1653)) by (nonlinear_arith)
        requires
            m < pow2(1653),
            au == a * pow2(1074),
            a >= 1,
            pow2(1074) > 0,
    {
        assert(au >= pow2(1074));
        assert(m * pow2(1074) <= m * au);
        assert(m * au < pow2(1653) * au);
    }
    lemma_off_by_half(f, m * pow2(1074), au, 1600);
    let d = v.over(fa);
    lemma_quotient_near(f, v.parts(), fa.parts());
    lemma_divided(v.exact(), d.exact(), a as int, unit);
    let md = d.parts().magnitude(f);
    lemma_pow2_adds(1, 1204);
    lemma_pow2_adds(32, 1206);
    lemma_pow2_adds(1, 1205);
    lemma_pow2_strictly_increases(33, 1205);
    lemma_pow2_adds(33, 1206);
    lemma_pow2_strictly_increases(1239, 1300);
    lemma_pow2_strictly_increases(1238, 1653);
    let bu = b * pow2(1074);
    assert(size(d.exact()) <= pow2(1206));
    assert(md * bu < pow2(1074) * pow2(1653)) by (nonlinear_arith)
        requires
            md <= pow2(1206),
            b <= 0x1_0000_0000,
            bu == b * pow2(1074),
            0x1_0000_0000 * pow2(1206) < pow2(1653),
            pow2(1074) > 0,
    {
        assert(md * b <= pow2(1206) * 0x1_0000_0000);
        assert(md * bu == (md * b) * pow2(1074));
        assert((md * b) * pow2(1074) < pow2(1653) * pow2(1074));
    }
    lemma_off_by_half(f, md * bu, pow2(1074), 1600);
    let e = d.times(fb);
    lemma_product_near(f, d.parts(), fb.parts());
    lemma_multiplied(d.exact(), e.exact(), b as int, unit);
    lemma_rescaled_off(v.exact(), d.exact(), e.exact(), a as int, b as int);
    lemma_size_of_product(b as int, d.exact());
    assert(b * size(d.exact()) <= 0x1_0000_0000 * pow2(1206)) by (nonlinear_arith)
        requires
            size(d.exact()) <= pow2(1206),
            b <= 0x1_0000_0000,
            size(d.exact()) >= 0,
    ;
}

proof fn lemma_divided(v: int, d: int, a: int, unit: int)
    requires
        unit > 0,
        a >= 1,
        0x20_0000_0000_0000 * apart(d * (a * unit), v * unit) <= size(v) * unit || 2 * apart(
            d * (a * unit),
            v * unit,
        ) <= a * unit,
    ensures
        0x20_0000_0000_0000 * apart(a * d, v) <= size(v) + 0x20_0000_0000_0000 * a,
        size(d) <= 2 * size(v) + a,
{
    let diff = a * d - v;
    assert(d * (a * unit) - v * unit == unit * diff) by (nonlinear_arith)
        requires
            diff == a * d - v,
    ;
    lemma_size_of_product(unit, diff);
    let z = size(diff);
    assert(0x20_0000_0000_0000 * z <= size(v) + 0x20_0000_0000_0000 * a) by (nonlinear_arith)
        requires
            0x20_0000_0000_0000 * (unit * z) <= size(v) * unit || 2 * (unit * z) <= a * unit,
            unit > 0,
            z >= 0,
            a >= 1,
            size(v) >= 0,
    {
        if 0x20_0000_0000_0000 * (unit * z) <= size(v) * unit {
            assert(unit * (0x20_0000_0000_0000 * z) <= unit * size(v));
        } else {
            assert(unit * (2 * z) <= unit * a);
        }
    }
    lemma_size_of_product(a, d);
    assert(size(d) <= a * size(d)) by (nonlinear_arith)
        requires
            a >= 1,
            size(d) >= 0,
    ;
}

proof fn lemma_multiplied(d: int, e: int, b: int, unit: int)
    requires
        unit > 0,
        b >= 1,
        0x20_0000_0000_0000 * apart(e * unit, d * (b * unit)) <= size(d) * size(b * unit) || 2
            * apart(e * unit, d * (b * unit)) <= unit,
    ensures
        0x20_0000_0000_0000 * apart(e, b * d) <= b * size(d),
{
    let diff = e - b * d;
    assert(e * unit - d * (b * unit) == unit * diff) by (nonlinear_arith)
        requires
            diff == e - b * d,
    ;
    lemma_size_of_product(unit, diff);
    lemma_size_of_product(b, unit);
    let z = size(diff);
    let y = size(d);
    assert(0x20_0000_0000_0000 * z <= b * y) by (nonlinear_arith)
        requires
            0x20_0000_0000_0000 * (unit * z) <= y * (b * unit) || 2 * (unit * z) <= unit,
            unit > 0,
            z >= 0,
            y >= 0,
            b >= 1,
    {
        if 0x20_0000_0000_0000 * (unit * z) <= y * (b * unit) {
            assert(y * (b * unit) == unit * (b * y));
            assert(unit * (0x20_0000_0000_0000 * z) <= unit * (b * y));
        } else {
            if z >= 1 {
                assert(unit * z >= unit);
            }
            assert(b * y >= 0);
        }
    }
}

proof fn lemma_rescaled_off(v: int, d: int, e: int, a: int, b: int)
    requires
        a >= 1,
        b >= 1,
        0x20_0000_0000_0000 * apart(a * d, v) <= size(v) + 0x20_0000_0000_0000 * a,
        0x20_0000_0000_0000 * apart(e, b * d) <= b * size(d),
    ensures
        0x4_0000_0000_0000 * apart(a * e, b * v) <= b * size(v) + 0x8_0000_0000_0000 * (a * b),
        size(e) <= 2 * (b * size(d)),
{
    let p = 0x20_0000_0000_0000int;
    let (e1, e2) = (apart(a * d, v), apart(e, b * d));
    let (x, y) = (size(v), size(d));
    let (ab, bx) = (a * b, b * x);
    assert(a * e - b * v == a * (e - b * d) + b * (a * d - v)) by (nonlinear_arith);
    lemma_size_of_product(a, e - b * d);
    lemma_size_of_product(b, a * d - v);
    lemma_size_of_product(a, d);
    lemma_size_of_product(b, d);
    assert(a * y <= 2 * x + a);
    assert(p * (a * e2) <= 2 * bx + ab) by (nonlinear_arith)
        requires
            p * e2 <= b * y,
            a * y <= 2 * x + a,
            ab == a * b,
            bx == b * x,
            a >= 1,
            b >= 1,
    {
        assert(a * (p * e2) <= a * (b * y));
        assert(a * (b * y) == b * (a * y));
        assert(b * (a * y) <= b * (2 * x + a));
        assert(b * (2 * x + a) == 2 * bx + ab);
    }
    assert(p * (b * e1) <= bx + p * ab) by (nonlinear_arith)
        requires
            p * e1 <= x + p * a,
            ab == a * b,
            bx == b * x,
            b >= 1,
    {
        assert(b * (p * e1) <= b * (x + p * a));
        assert(b * (x + p * a) == bx + p * ab);
    }
    assert(ab >= 0 && bx >= 0) by (nonlinear_arith)
        requires
            ab == a * b,
            bx == b * x,
            a >= 1,
            b >= 1,
            x >= 0,
    ;
    assert(b * y >= 0) by (nonlinear_arith)
        requires
            b >= 1,
            y >= 0,
    ;
}

/// A position appears on the overview as many columns from the left as the overview is wide, times
/// its part of the map's 8500 columns, and as many rows below the top as the overview is high, times
/// its part of the map's 5500 rows; up to rounding.
pub proof fn lemma_where_the_overview_shows(ov: OverviewMap, p: Position)
    requires
        p.x.is_finite_number(),
        p.y.is_finite_number(),
        ov.width >= 1,
        ov.height >= 1,
    ensures
        ({
            let s = overview_spot(ov, p);
            let x = p.x.exact() * pow2(925);
            let y = p.y.exact() * pow2(925);
            let top = (ov.height - 1) * pow2(1074);
            &&& s.0.is_finite_number()
            &&& s.1.is_finite_number()
            &&& 0x4_0000_0000_0000 * apart(8500 * s.0.exact(), ov.width * x) <= ov.width * size(x)
                + 0x8_0000_0000_0000 * (8500 * ov.width)
            &&& 0x2_0000_0000_0000 * apart(5500 * (top - s.1.exact()), ov.height * y) <= ov.height
                * size(y) + 5500 * top + 0x8_0000_0000_0000 * (5500 * ov.height)
        }),
{
    let unit = pow2(1074);
    lemma2_to64();
    lemma2_to64_rest();
    lemma_same_in_double(p.x);
    lemma_same_in_double(p.y);
    lemma_pow2_pos(925);
    lemma_pow2_pos(1074);
    lemma_pow2_adds(277, 925);
    lemma_pow2_strictly_increases(1202, 1204);
    super::picture::lemma_far(p.x.exact(), pow2(925) as int, pow2(277) as int, pow2(1202) as int);
    super::picture::lemma_far(p.y.exact(), pow2(925) as int, pow2(277) as int, pow2(1202) as int);
    lemma_rescaled(p.x.to_f64_number(), 8500, ov.width as nat);
    lemma_rescaled(p.y.to_f64_number(), 5500, ov.height as nat);
    let r = p.y.to_f64_number().over(F64::of_nat(5500)).times(F64::of_nat(ov.height as nat));
    let h = ov.height as nat;
    let one = F64 { bits: F64_ONE };
    lemma_whole_double(h);
    lemma_encoded(F64_ONE, 0x3ff, 0);
    lemma_pow2_adds(52, 1022);
    assert(0x10_0000_0000_0000nat * pow2(1022) == unit);
    let last = (h - 1) as nat;
    assert(h * unit == unit + last * unit) by (nonlinear_arith)
        requires
            h == last + 1,
    ;
    lemma_minus_exact(F64::of_nat(h), one, h * unit, unit, last, 1074);
    let top = last * unit;
    assert(top <= 0x1_0000_0000 * unit) by (nonlinear_arith)
        requires
            top == last * unit,
            last <= 0x1_0000_0000,
    ;
    lemma_pow2_adds(32, 1074);
    lemma_pow2_strictly_increases(1106, 1600);
    lemma_pow2_strictly_increases(1300, 1600);
    lemma_doubles_near(F64::of_nat(h).minus(one), r);
    lemma_size_of_product(ov.height as int, p.y.exact() * pow2(925));
    lemma_below_top(
        r.exact(),
        overview_spot(ov, p).1.exact(),
        top as int,
        ov.height * (p.y.exact() * pow2(925)),
        0x8_0000_0000_0000 * (5500 * ov.height),
    );
}

proof fn lemma_below_top(r: int, s: int, top: int, hy: int, slack: int)
    requires
        top >= 0,
        slack >= 0,
        0x4_0000_0000_0000 * apart(5500 * r, hy) <= size(hy) + slack,
        0x20_0000_0000_0000 * apart(s, top - r) <= size(top - r),
    ensures
        0x2_0000_0000_0000 * apart(5500 * (top - s), hy) <= size(hy) + 5500 * top + slack,
{
}

} // verus!
