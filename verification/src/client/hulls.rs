//! How boats look: their parts, where they stand and how they keep on the canvas.

use vstd::arithmetic::power2::{
    lemma2_to64, lemma2_to64_rest, lemma_pow2_adds, lemma_pow2_pos, lemma_pow2_strictly_increases,
    pow2,
};
use vstd::prelude::*;

use crate::float::error::{lemma_exact, lemma_off_by_half};
use crate::float::exact::{apart, lemma_doubles_near, lemma_product_near, lemma_quotient_near, size};
use crate::float::laws::{lemma_nearest_scaled, lemma_order_of_values, lemma_zero};
use crate::float::model::Format;
use crate::float::F64;
use crate::listing::lists;
use crate::round_trip::steps::{holds, lemma_encoded, lemma_minus_exact, lemma_whole_double};
use crate::text::byte_len;

use super::app::{App, Direction};
use super::picture::{
    holds_mark, lemma_canvas, lemma_drawn_or_hinted_at, lemma_every_boat, lemma_held_by_scene,
    lemma_where_positions_appear,
};
use super::render::{
    boat_shape, hull, in_bold, in_color, sail_offset, Color, MarkView, CANVAS_H, CANVAS_W, F64_ONE,
    F64_THREE, F64_TWO,
};
use super::scene::{cell_step, own_marks, remote_boat_marks, scene, Page};

verus! {

/// Whether cells can be so far apart on the canvas.
pub open spec fn is_step(v: F64) -> bool {
    v.is_finite_number() && pow2(1050) <= v.exact() <= 256 * pow2(1074)
}

/// The numbers one, two and three.
pub proof fn lemma_small()
    ensures
        holds(Format::Double, (F64 { bits: F64_ONE }).parts(), pow2(1074)),
        holds(Format::Double, (F64 { bits: F64_TWO }).parts(), 2 * pow2(1074)),
        holds(Format::Double, (F64 { bits: F64_THREE }).parts(), 3 * pow2(1074)),
        pow2(1074) == 2 * pow2(1073),
        pow2(1073) > 0,
{
    lemma2_to64();
    lemma2_to64_rest();
    lemma_encoded(F64_ONE, 0x3ff, 0);
    lemma_encoded(F64_TWO, 0x400, 0);
    lemma_encoded(F64_THREE, 0x400, 0x8_0000_0000_0000);
    lemma_pow2_adds(52, 1022);
    lemma_pow2_adds(52, 1023);
    lemma_pow2_adds(51, 1023);
    lemma_pow2_adds(1, 1074);
    lemma_pow2_adds(1, 1073);
    lemma_pow2_pos(1073);
    assert(0x10_0000_0000_0000nat * pow2(1022) == pow2(1074));
    assert(0x10_0000_0000_0000nat * pow2(1023) == 2 * pow2(1074));
    assert(0x18_0000_0000_0000nat * pow2(1023) == 3 * pow2(1074)) by (nonlinear_arith)
        requires
            pow2(1074) == 0x8_0000_0000_0000 * pow2(1023),
    ;
}

/// Half as many steps as `n` make up that distance, up to rounding.
pub proof fn lemma_steps(s: F64, b: F64, n: nat)
    requires
        is_step(s),
        holds(Format::Double, b.parts(), n * pow2(1073)),
        n <= 0x100_0000_0000,
    ensures
        s.times(b).is_finite_number(),
        s.times(b).exact() >= 0,
        0x20_0000_0000_0000 * apart(2 * s.times(b).exact(), n * s.exact()) <= n * s.exact(),
        b.times(s).is_finite_number(),
        b.times(s).exact() == s.times(b).exact(),
{
    let f = Format::Double;
    let (unit, h) = (pow2(1074), pow2(1073));
    lemma2_to64();
    lemma2_to64_rest();
    lemma_small();
    lemma_zero(f);
    lemma_pow2_pos(1050);
    lemma_pow2_adds(53, 997);
    lemma_pow2_pos(997);
    let (m, k) = (s.parts().magnitude(f), b.parts().magnitude(f));
    assert(!s.parts().neg);
    assert(m == s.exact() && k == n * h);
    lemma_pow2_adds(64, 1074);
    lemma_pow2_strictly_increases(1138, 1653);
    assert(m * k < unit * pow2(1653) && m * k == k * m) by (nonlinear_arith)
        requires
            m <= 256 * unit,
            k == n * h,
            n <= 0x100_0000_0000,
            h <= unit,
            unit > 0,
            0x1_0000_0000_0000_0000 * unit < pow2(1653),
    {
        assert(k <= 0x100_0000_0000 * unit);
        assert(m * k <= (256 * unit) * (0x100_0000_0000 * unit));
        assert((256 * unit) * (0x100_0000_0000 * unit) == unit * (0x1_0000_0000_0000 * unit));
        assert(unit * (0x1_0000_0000_0000 * unit) < unit * pow2(1653));
    }
    lemma_off_by_half(f, m * k, unit, 1600);
    lemma_product_near(f, s.parts(), b.parts());
    let p = s.times(b).exact();
    lemma_steps_off(p, m as int, n as int, h as int);
}

proof fn lemma_steps_off(p: int, m: int, n: int, h: int)
    requires
        h > 0,
        n >= 0,
        m >= 0x20_0000_0000_0000,
        p >= 0,
        ({
            let off = apart(p * (2 * h), m * (n * h));
            0x20_0000_0000_0000 * off <= m * (n * h) || 2 * off <= 2 * h
        }),
    ensures
        0x20_0000_0000_0000 * apart(2 * p, n * m) <= n * m,
{
    let d = apart(2 * p, n * m);
    assert(p * (2 * h) == (2 * p) * h && m * (n * h) == (n * m) * h) by (nonlinear_arith);
    assert(apart(p * (2 * h), m * (n * h)) == d * h) by {
        assert((2 * p - n * m) * h == (2 * p) * h - (n * m) * h) by (nonlinear_arith);
        assert((n * m - 2 * p) * h == (n * m) * h - (2 * p) * h) by (nonlinear_arith);
        assert((2 * p >= n * m) ==> (2 * p) * h >= (n * m) * h) by (nonlinear_arith)
            requires
                h > 0,
        ;
        assert((2 * p <= n * m) ==> (2 * p) * h <= (n * m) * h) by (nonlinear_arith)
            requires
                h > 0,
        ;
    }
    if 0x20_0000_0000_0000 * (d * h) <= (n * m) * h {
        assert(0x20_0000_0000_0000 * d <= n * m) by (nonlinear_arith)
            requires
                0x20_0000_0000_0000 * (d * h) <= (n * m) * h,
                h > 0,
        ;
    } else {
        assert(d <= 1) by (nonlinear_arith)
            requires
                2 * (d * h) <= 2 * h,
                h > 0,
        ;
        if n == 0 {
            assert(n * m == 0) by (nonlinear_arith)
                requires
                    n == 0,
            ;
        } else {
            assert(n * m >= m) by (nonlinear_arith)
                requires
                    n >= 1,
                    m >= 0,
            ;
        }
    }
}

/// The sail stands in the middle of the hull: what the hull is longer than the sail is shared out
/// evenly to both sides.
pub proof fn lemma_sail_in_the_middle(text: Seq<char>, col_step: F64)
    requires
        is_step(col_step),
        3 <= byte_len(text) <= 0x100_0000_0000,
    ensures
        sail_offset(text, col_step).is_finite_number(),
        sail_offset(text, col_step).exact() >= 0,
        0x20_0000_0000_0000 * apart(
            2 * sail_offset(text, col_step).exact(),
            (byte_len(text) - 3) * col_step.exact(),
        ) <= (byte_len(text) - 3) * col_step.exact(),
{
    let f = Format::Double;
    let (unit, h) = (pow2(1074), pow2(1073));
    lemma2_to64();
    lemma2_to64_rest();
    lemma_small();
    lemma_zero(f);
    let len = byte_len(text);
    let n = (len - 3) as nat;
    let (two, three, zero) = (F64 { bits: F64_TWO }, F64 { bits: F64_THREE }, F64 { bits: 0 });
    lemma_whole_double(len);
    assert(len * unit == 3 * unit + n * unit) by (nonlinear_arith)
        requires
            len == 3 + n,
    ;
    lemma_minus_exact(F64::of_nat(len), three, len * unit, 3 * unit, n, 1074);
    let rest = F64::of_nat(len).minus(three);
    lemma_exact(f, n, 1073);
    assert((n * unit) * unit == (n * h) * (2 * unit)) by (nonlinear_arith)
        requires
            unit == 2 * h,
    ;
    assert(1 * (2 * unit) == 2 * unit);
    lemma_nearest_scaled(f, n * h, 1, 2 * unit);
    let half = rest.over(two);
    assert(holds(f, half.parts(), n * h));
    assert(n * h >= 0) by (nonlinear_arith);
    lemma_order_of_values(f, half.parts(), zero.parts());
    assert(half.larger(zero) == half);
    lemma_steps(col_step, half, n);
}

/// The mirror image of a text, as far as strokes and brackets go.
pub open spec fn mirror_image(text: Seq<char>) -> Seq<char> {
    Seq::new(
        text.len(),
        |i: int|
            match text[text.len() - 1 - i] {
                '/' => '\\',
                '\\' => '/',
                '(' => ')',
                ')' => '(',
                c => c,
            },
    )
}

/// A text upside down, as far as strokes and tips go.
pub open spec fn upside_down(text: Seq<char>) -> Seq<char> {
    text.map_values(
        |c: char|
            match c {
                '/' => '\\',
                '\\' => '/',
                '^' => 'V',
                'V' => '^',
                c => c,
            },
    )
}

/// A boat that sails to the left is the mirror image of one that sails to the right, but for the
/// name that stands on it; the sail stands one row above the hull.
pub proof fn lemma_left_mirrors_right(name: Seq<char>, row_step: F64, col_step: F64)
    ensures
        ({
            let right = boat_shape(name, Direction::Right, row_step, col_step);
            let left = boat_shape(name, Direction::Left, row_step, col_step);
            &&& right.len() == 2 && left.len() == 2
            &&& right[0].2 == seq!['/'] + name + seq!['/']
            &&& left[0].2 == seq!['\\'] + name + seq!['\\']
            &&& right[1].2 == seq!['/', '|', ')']
            &&& left[1].2 == mirror_image(right[1].2)
            &&& right[0].0.exact() == 0 && right[0].1.exact() == 0
            &&& left[0].0.exact() == 0 && left[0].1.exact() == 0
            &&& right[1].1 == row_step && left[1].1 == row_step
        }),
{
    lemma_zero(Format::Double);
    reveal_strlit("/");
    reveal_strlit("\\");
    reveal_strlit("/|)");
    reveal_strlit("(|\\");
    assert("/"@ =~= seq!['/']);
    assert("\\"@ =~= seq!['\\']);
    assert("/|)"@ =~= seq!['/', '|', ')']);
    assert("(|\\"@ =~= mirror_image("/|)"@));
}

/// A boat that sails down is upside down to one that sails up: each part of the one has its image
/// in the other, turned about the line between the two rows that both fill. The tip stands out one
/// row further, over the middle of the boat.
pub proof fn lemma_down_is_up_turned(name: Seq<char>, row_step: F64, col_step: F64, i: int)
    requires
        is_step(row_step),
        is_step(col_step),
        0 <= i < 3,
    ensures
        ({
            let up = boat_shape(name, Direction::Up, row_step, col_step);
            let down = boat_shape(name, Direction::Down, row_step, col_step);
            let s = row_step.exact();
            let j = if i == 2 { 2 } else { 1 - i };
            &&& up.len() == 3 && down.len() == 3
            &&& down[j].2 == upside_down(up[i].2)
            &&& down[j].0 == up[i].0
            &&& up[i].0.is_finite_number() && up[i].1.is_finite_number()
            &&& up[i].0.exact() == if i == 2 { col_step.exact() } else { 0 }
            &&& 0x20_0000_0000_0000 * apart(up[i].1.exact(), i * s) <= i * s
            &&& down[j].1.is_finite_number()
            &&& down[j].1.exact() == (1 - i) * s
            &&& up[i].2.len() == if i == 2 { 1int } else { 3 }
            &&& i == 2 ==> up[i].2 == seq!['^']
            &&& i == 1 ==> up[i].2[1] == '|' && up[i].2[2] == '\\'
        }),
{
    let f = Format::Double;
    let two = F64 { bits: F64_TWO };
    lemma_zero(f);
    lemma_small();
    assert(2 * pow2(1074) == 4 * pow2(1073));
    lemma_steps(row_step, two, 4);
    assert(row_step.negative().exact() == -row_step.exact());
    reveal_strlit("\\ /");
    reveal_strlit("/|\\");
    reveal_strlit("^");
    reveal_strlit("\\|/");
    reveal_strlit("/ \\");
    reveal_strlit("V");
    assert("/ \\"@ =~= upside_down("\\ /"@));
    assert("\\|/"@ =~= upside_down("/|\\"@));
    assert("V"@ =~= upside_down("^"@));
    assert("^"@ =~= seq!['^']);
}

/// How far apart cells are for a canvas of a size.
proof fn lemma_cells(cells: u16, canvas: F64, n: nat)
    requires
        holds(Format::Double, canvas.parts(), n * pow2(1074)),
        50 <= n <= 200,
    ensures
        is_step(cell_step(cells, canvas)),
        cells < 4 ==> cell_step(cells, canvas).exact() == pow2(1074),
        cells >= 4 ==> 0x20_0000_0000_0000 * apart(
            (cells - 3) * cell_step(cells, canvas).exact(),
            (n * pow2(1074)) as int,
        ) <= n * pow2(1074),
{
    let f = Format::Double;
    let (unit, one) = (pow2(1074), F64 { bits: F64_ONE });
    lemma2_to64();
    lemma2_to64_rest();
    lemma_small();
    lemma_zero(f);
    lemma_pow2_adds(24, 1050);
    lemma_pow2_pos(1050);
    let inner: nat = if cells >= 2 { (cells - 2) as nat } else { 0 };
    let count = F64::of_nat(inner);
    lemma_whole_double(inner);
    lemma_order_of_values(f, one.parts(), count.parts());
    assert(unit < inner * unit <==> 1 < inner) by (nonlinear_arith)
        requires
            unit > 0,
    ;
    if inner > 1 {
        let m = (inner - 1) as nat;
        assert(inner * unit == unit + m * unit) by (nonlinear_arith)
            requires
                inner == 1 + m,
        ;
        lemma_minus_exact(count, one, inner * unit, unit, m, 1074);
        let d = count.minus(one);
        assert(m * unit > 0) by (nonlinear_arith)
            requires
                m > 0,
                unit > 0,
        ;
        lemma_pow2_adds(16, 1074);
        lemma_pow2_strictly_increases(1090, 1653);
        assert((n * unit) * unit < (m * unit) * pow2(1653)) by (nonlinear_arith)
            requires
                n <= 200,
                m >= 1,
                unit > 0,
                0x1_0000 * unit < pow2(1653),
        {
            assert((n * unit) * unit <= (200 * unit) * unit);
            assert((200 * unit) * unit == unit * (200 * unit));
            assert(unit * (200 * unit) < unit * pow2(1653));
            assert(unit * pow2(1653) <= (m * unit) * pow2(1653));
        }
        lemma_off_by_half(f, (n * unit) * unit, m * unit, 1600);
        lemma_quotient_near(f, canvas.parts(), d.parts());
        let r = canvas.over(d);
        lemma_pow2_adds(64, 1010);
        lemma_pow2_pos(1010);
        assert(unit >= pow2(64)) by (nonlinear_arith)
            requires
                unit == pow2(64) * pow2(1010),
                pow2(1010) > 0,
        ;
        lemma_cells_off(r.exact(), m as int, n as int, unit as int);
        assert(is_step(r));
    }
}

proof fn lemma_cells_off(r: int, m: int, n: int, unit: int)
    requires
        unit >= 0x1_0000_0000_0000_0000,
        1 <= m <= 0x1_0000,
        50 <= n <= 200,
        ({
            let off = apart(r * (m * unit), (n * unit) * unit);
            0x20_0000_0000_0000 * off <= (n * unit) * unit || 2 * off <= m * unit
        }),
    ensures
        0x20_0000_0000_0000 * apart(m * r, n * unit) <= n * unit,
        unit <= 0x100_0000 * r,
        r <= 256 * unit,
{
    let d = apart(m * r, n * unit);
    assert(r * (m * unit) == (m * r) * unit) by (nonlinear_arith);
    assert(apart(r * (m * unit), (n * unit) * unit) == d * unit) by {
        assert((m * r - n * unit) * unit == (m * r) * unit - (n * unit) * unit) by (nonlinear_arith);
        assert((n * unit - m * r) * unit == (n * unit) * unit - (m * r) * unit) by (nonlinear_arith);
        assert((m * r >= n * unit) ==> (m * r) * unit >= (n * unit) * unit) by (nonlinear_arith)
            requires
                unit > 0,
        ;
        assert((m * r <= n * unit) ==> (m * r) * unit <= (n * unit) * unit) by (nonlinear_arith)
            requires
                unit > 0,
        ;
    }
    let nu = n * unit;
    assert(50 * unit <= nu <= 200 * unit) by (nonlinear_arith)
        requires
            50 <= n <= 200,
            nu == n * unit,
            unit > 0,
    ;
    if 0x20_0000_0000_0000 * (d * unit) <= nu * unit {
        assert(0x20_0000_0000_0000 * d <= nu) by (nonlinear_arith)
            requires
                0x20_0000_0000_0000 * (d * unit) <= nu * unit,
                unit > 0,
        ;
    } else {
        assert(2 * d <= m) by (nonlinear_arith)
            requires
                2 * (d * unit) <= m * unit,
                unit > 0,
        ;
    }
    let mr = m * r;
    assert(mr >= 49 * unit && mr <= 201 * unit);
    assert(r >= 0 && r <= mr && mr <= 0x1_0000 * r) by (nonlinear_arith)
        requires
            mr == m * r,
            1 <= m <= 0x1_0000,
            mr > 0,
    ;
}

/// The cells of the terminal fill the canvas: as many steps as there are cells between the first
/// and the last one inside of the frame lead from one border to the other.
pub proof fn lemma_cells_fill_canvas(cells: u16)
    ensures
        is_step(cell_step(cells, F64 { bits: CANVAS_H })),
        is_step(cell_step(cells, F64 { bits: CANVAS_W })),
        cells >= 4 ==> 0x20_0000_0000_0000 * apart(
            (cells - 3) * cell_step(cells, F64 { bits: CANVAS_H }).exact(),
            (50 * pow2(1074)) as int,
        ) <= 50 * pow2(1074),
        cells >= 4 ==> 0x20_0000_0000_0000 * apart(
            (cells - 3) * cell_step(cells, F64 { bits: CANVAS_W }).exact(),
            (200 * pow2(1074)) as int,
        ) <= 200 * pow2(1074),
        cells < 4 ==> cell_step(cells, F64 { bits: CANVAS_H }).exact() == pow2(1074) && cell_step(
            cells,
            F64 { bits: CANVAS_W },
        ).exact() == pow2(1074),
{
    lemma_canvas();
    lemma_cells(cells, F64 { bits: CANVAS_H }, 50);
    lemma_cells(cells, F64 { bits: CANVAS_W }, 200);
}

/// A boat that sails up or down is drawn where it is, unless it would stand out: it stays above the
/// lower border and three rows below the upper one, up to a rounding of two to the power of minus
/// 40.
pub proof fn lemma_upright_boats_stay_on_canvas(page: Page, y: F64, dir: Direction)
    requires
        is_step(page.row_step),
        page.tall_enough(),
        y.is_finite_number(),
        dir is Up || dir is Down,
    ensures
        ({
            let r = page.boat_row(y, dir);
            let (s, h, e) = (page.row_step.exact(), (50 * pow2(1074)) as int, pow2(1034) as int);
            &&& r.is_finite_number()
            &&& 0 <= r.exact() && r.exact() + 3 * s <= h + e
            &&& y.exact() < 0 ==> r.exact() == 0
            &&& 0 <= y.exact() && y.exact() + 3 * s + e <= h ==> r == y
            &&& y.exact() + 3 * s >= h + e ==> apart(r.exact() + 3 * s, h) <= e
        }),
{
    let f = Format::Double;
    let (unit, e) = (pow2(1074), pow2(1034) as int);
    let (three, zero, top) = (F64 { bits: F64_THREE }, F64 { bits: 0 }, F64 { bits: CANVAS_H });
    lemma2_to64();
    lemma2_to64_rest();
    lemma_small();
    lemma_zero(f);
    lemma_canvas();
    lemma_pow2_adds(40, 1034);
    lemma_pow2_pos(1034);
    lemma_pow2_adds(16, 1074);
    lemma_pow2_strictly_increases(1090, 1600);
    assert(3 * unit == 6 * pow2(1073));
    lemma_steps(page.row_step, three, 6);
    let p = page.row_step.times(three);
    let s = page.row_step.exact();
    lemma_doubles_near(top, p);
    let c = page.ceiling();
    assert(apart(c.exact(), 50 * unit - 3 * s) <= e);
    lemma_order_of_values(f, zero.parts(), c.parts());
    lemma_order_of_values(f, y.parts(), zero.parts());
    lemma_order_of_values(f, c.parts(), y.parts());
    lemma_order_of_values(f, c.parts(), zero.parts());
}

/// Whether a name fits on a hull.
pub open spec fn is_name(name: Seq<char>) -> bool {
    forall|dir: Direction| 3 <= #[trigger] byte_len(hull(name, dir)) <= 0x100_0000_0000
}

/// Whether a mark shows a text at a place of the canvas, up to rounding.
pub open spec fn shows_part(m: MarkView, text: Seq<char>, x: int, y: int) -> bool {
    &&& m.text == text
    &&& m.x.is_finite_number() && 0x20_0000_0000_0000 * apart(m.x.exact(), x) <= size(x)
    &&& m.y.is_finite_number() && 0x20_0000_0000_0000 * apart(m.y.exact(), y) <= size(y)
}

/// The parts of a boat stand close to it.
pub proof fn lemma_parts_are_close(
    name: Seq<char>,
    dir: Direction,
    row_step: F64,
    col_step: F64,
    i: int,
)
    requires
        is_step(row_step),
        is_step(col_step),
        is_name(name),
        0 <= i < boat_shape(name, dir, row_step, col_step).len(),
    ensures
        ({
            let part = boat_shape(name, dir, row_step, col_step)[i];
            &&& part.0.is_finite_number() && size(part.0.exact()) <= pow2(1300)
            &&& part.1.is_finite_number() && size(part.1.exact()) <= pow2(1300)
        }),
{
    let unit = pow2(1074);
    lemma2_to64();
    lemma2_to64_rest();
    lemma_zero(Format::Double);
    lemma_pow2_adds(60, 1074);
    lemma_pow2_pos(1074);
    lemma_pow2_strictly_increases(1134, 1300);
    if dir is Up || dir is Down {
        lemma_down_is_up_turned(name, row_step, col_step, if dir is Up || i == 2 { i } else { 1 - i });
    } else {
        let text = hull(name, dir);
        assert(byte_len(hull(name, dir)) >= 3);
        lemma_sail_in_the_middle(text, col_step);
        let (n, s) = (byte_len(text) - 3, col_step.exact());
        assert(0 <= n * s <= 0x1_0000_0000_0000 * unit) by (nonlinear_arith)
            requires
                0 <= n <= 0x100_0000_0000,
                0 <= s <= 256 * unit,
        ;
    }
}

/// Where a boat stands on the canvas.
pub proof fn lemma_boat_row(page: Page, y: F64, dir: Direction)
    requires
        is_step(page.row_step),
        y.is_finite_number(),
        size(y.exact()) < pow2(1300),
        dir is Up || dir is Down ==> page.tall_enough(),
    ensures
        page.boat_row(y, dir).is_finite_number(),
        size(page.boat_row(y, dir).exact()) <= pow2(1300),
{
    if dir is Up || dir is Down {
        lemma_upright_boats_stay_on_canvas(page, y, dir);
        lemma2_to64();
        lemma_pow2_adds(8, 1074);
        lemma_pow2_adds(40, 1034);
        lemma_pow2_pos(1074);
        lemma2_to64_rest();
        lemma_pow2_strictly_increases(1082, 1300);
    }
}

/// The player's own boat is drawn with all its parts, each at its distance from the boat, in yellow
/// and bold.
pub proof fn lemma_own_boat_is_whole(app: App, page: Page, now: u64, order: Seq<u64>, i: int)
    requires
        app.cursor.x.is_finite_number(),
        app.cursor.y.is_finite_number(),
        is_step(page.row_step),
        is_step(page.col_step),
        is_name(app.my_name@),
        app.last_dir is Up || app.last_dir is Down ==> page.tall_enough(),
        0 <= i < boat_shape(app.my_name@, app.last_dir, page.row_step, page.col_step).len(),
    ensures
        ({
            let part = boat_shape(app.my_name@, app.last_dir, page.row_step, page.col_step)[i];
            let p = page.spot(app.cursor);
            let marks = scene(app, page, now, order);
            exists|k: int|
                0 <= k < marks.len() && marks[k].style == in_bold(Color::Yellow)
                    && #[trigger] shows_part(
                    marks[k],
                    part.2,
                    p.0.exact() + part.0.exact(),
                    page.boat_row(p.1, app.last_dir).exact() + part.1.exact(),
                )
        }),
{
    let p = page.spot(app.cursor);
    let row = page.boat_row(p.1, app.last_dir);
    let part = boat_shape(app.my_name@, app.last_dir, page.row_step, page.col_step)[i];
    let marks = scene(app, page, now, order);
    lemma_where_positions_appear(page, app.cursor);
    lemma_boat_row(page, p.1, app.last_dir);
    lemma_parts_are_close(app.my_name@, app.last_dir, page.row_step, page.col_step, i);
    lemma_pow2_strictly_increases(1300, 1600);
    lemma_doubles_near(p.0, part.0);
    lemma_doubles_near(row, part.1);
    let m = own_marks(page, app)[i];
    assert(holds_mark(own_marks(page, app), m));
    lemma_held_by_scene(app, page, now, order, m);
    let k = choose|k: int| 0 <= k < marks.len() && #[trigger] marks[k] == m;
    assert(shows_part(
        marks[k],
        part.2,
        p.0.exact() + part.0.exact(),
        row.exact() + part.1.exact(),
    ));
}

/// Every other boat that lies on the canvas is drawn with all its parts, each at its distance from
/// the boat, in cyan.
pub proof fn lemma_other_boats_are_whole(
    app: App,
    page: Page,
    now: u64,
    order: Seq<u64>,
    id: u64,
    i: int,
)
    requires
        lists(order, app.remote_boats@.dom()),
        app.remote_boats@.contains_key(id),
        app.remote_boats@[id].position.x.is_finite_number(),
        app.remote_boats@[id].position.y.is_finite_number(),
        is_step(page.row_step),
        is_step(page.col_step),
        is_name(app.remote_boats@[id].name@),
        app.remote_boats@[id].last_dir is Up || app.remote_boats@[id].last_dir is Down
            ==> page.tall_enough(),
        ({
            let boat = app.remote_boats@[id];
            let p = page.spot(boat.position);
            &&& 0 <= p.0.exact() <= 200 * pow2(1074) && 0 <= p.1.exact() <= 50 * pow2(1074)
            &&& 0 <= i < boat_shape(boat.name@, boat.last_dir, page.row_step, page.col_step).len()
        }),
    ensures
        ({
            let boat = app.remote_boats@[id];
            let part = boat_shape(boat.name@, boat.last_dir, page.row_step, page.col_step)[i];
            let p = page.spot(boat.position);
            let marks = scene(app, page, now, order);
            exists|k: int|
                0 <= k < marks.len() && marks[k].style == in_color(Color::Cyan)
                    && #[trigger] shows_part(
                    marks[k],
                    part.2,
                    p.0.exact() + part.0.exact(),
                    page.boat_row(p.1, boat.last_dir).exact() + part.1.exact(),
                )
        }),
{
    let boats = app.remote_boats@;
    let boat = boats[id];
    let p = page.spot(boat.position);
    let row = page.boat_row(p.1, boat.last_dir);
    let part = boat_shape(boat.name@, boat.last_dir, page.row_step, page.col_step)[i];
    let marks = scene(app, page, now, order);
    lemma_drawn_or_hinted_at(page, boat);
    lemma_where_positions_appear(page, boat.position);
    lemma_boat_row(page, p.1, boat.last_dir);
    lemma_parts_are_close(boat.name@, boat.last_dir, page.row_step, page.col_step, i);
    lemma_pow2_strictly_increases(1300, 1600);
    lemma_doubles_near(p.0, part.0);
    lemma_doubles_near(row, part.1);
    let m = remote_boat_marks(page, boat)[i];
    assert(holds_mark(remote_boat_marks(page, boat), m));
    assert(order.contains(id));
    lemma_every_boat(page, boats, order, id, m);
    lemma_held_by_scene(app, page, now, order, m);
    let k = choose|k: int| 0 <= k < marks.len() && #[trigger] marks[k] == m;
    assert(shows_part(
        marks[k],
        part.2,
        p.0.exact() + part.0.exact(),
        row.exact() + part.1.exact(),
    ));
}

} // verus!
