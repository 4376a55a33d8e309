use crate::point::{Point, COORD_LIMIT};
use vstd::arithmetic::div_mod::{lemma_fundamental_div_mod, lemma_fundamental_div_mod_converse};
use vstd::prelude::*;

verus! {

/// An oriented line `a*x + b*y = c` with integer coefficients; the closed
/// half plane it keeps is `a*x + b*y <= c`.
#[derive(Clone, Copy, PartialEq, Eq, Structural, Debug)]
pub struct Line {
    /// Coefficient of x.
    pub a: i128,
    /// Coefficient of y.
    pub b: i128,
    /// Constant term.
    pub c: i128,
}

/// Bound on the linear coefficients of every line the construction makes.
pub open spec fn coef_bound() -> int {
    4 * (COORD_LIMIT as int)
}

/// Bound on the constant term of every line the construction makes.
pub open spec fn const_bound() -> int {
    4 * (COORD_LIMIT as int) * (COORD_LIMIT as int)
}

/// The line's coefficients are small enough that every predicate over a
/// pair of such lines fits in `i128`.
pub open spec fn line_ok(l: Line) -> bool {
    &&& -coef_bound() <= l.a <= coef_bound()
    &&& -coef_bound() <= l.b <= coef_bound()
    &&& -const_bound() <= l.c <= const_bound()
}

/// The sign of an integer: -1, 0 or 1.
pub open spec fn sign_of(x: int) -> int {
    if x > 0 {
        1int
    } else if x < 0 {
        -1int
    } else {
        0int
    }
}

/// Cross product of the direction parts of two lines; zero exactly when the
/// lines are parallel.
pub open spec fn cross_of(l1: Line, l2: Line) -> int {
    l1.a * l2.b - l2.a * l1.b
}

/// Numerator of the x coordinate of the intersection of two lines, over the
/// denominator `cross_of(l1, l2)`.
pub open spec fn inter_xn(l1: Line, l2: Line) -> int {
    l1.c * l2.b - l2.c * l1.b
}

/// Numerator of the y coordinate of the intersection of two lines, over the
/// denominator `cross_of(l1, l2)`.
pub open spec fn inter_yn(l1: Line, l2: Line) -> int {
    l1.a * l2.c - l2.a * l1.c
}

/// Sign of `h` evaluated at the intersection point of `l1` and `l2`:
/// negative or zero means the point lies in the half plane of `h`.
/// Meaningful only when `cross_of(l1, l2) != 0`.
pub open spec fn side_at(h: Line, l1: Line, l2: Line) -> int {
    sign_of(h.a * inter_xn(l1, l2) + h.b * inter_yn(l1, l2) - h.c * cross_of(l1, l2)) * sign_of(
        cross_of(l1, l2),
    )
}

/// Floor division on mathematical integers (what `/` means on `int` for a
/// positive divisor).
pub open spec fn floor_div_spec(a: int, b: int) -> int {
    a / b
}

/// Nearest-integer division with ties rounded up, on a positive divisor.
pub open spec fn round_div_spec(a: int, b: int) -> int {
    (2 * a + b) / (2 * b)
}

/// x coordinate of the intersection of two non-parallel lines, rounded to
/// the nearest grid integer.
pub open spec fn vertex_x_spec(l1: Line, l2: Line) -> int {
    if cross_of(l1, l2) > 0 {
        round_div_spec(inter_xn(l1, l2), cross_of(l1, l2))
    } else {
        round_div_spec(-inter_xn(l1, l2), -cross_of(l1, l2))
    }
}

/// y coordinate of the intersection of two non-parallel lines, rounded to
/// the nearest grid integer.
pub open spec fn vertex_y_spec(l1: Line, l2: Line) -> int {
    if cross_of(l1, l2) > 0 {
        round_div_spec(inter_yn(l1, l2), cross_of(l1, l2))
    } else {
        round_div_spec(-inter_yn(l1, l2), -cross_of(l1, l2))
    }
}

/// The perpendicular bisector of `s` and `t`, oriented so that its half
/// plane is the side of `s`: `q` satisfies it iff `|q - s|^2 <= |q - t|^2`.
pub open spec fn bisector_spec(s: Point, t: Point) -> Line {
    Line {
        a: (2 * (t.sx() - s.sx())) as i128,
        b: (2 * (t.sy() - s.sy())) as i128,
        c: (t.sx() * t.sx() + t.sy() * t.sy() - s.sx() * s.sx() - s.sy() * s.sy()) as i128,
    }
}

/// The line through `p` and `q`, oriented so that its half plane is the
/// left side when walking from `p` to `q`.
pub open spec fn edge_line_spec(p: Point, q: Point) -> Line {
    Line {
        a: (q.sy() - p.sy()) as i128,
        b: (p.sx() - q.sx()) as i128,
        c: ((q.sy() - p.sy()) * p.sx() + (p.sx() - q.sx()) * p.sy()) as i128,
    }
}

/// `|x * y| <= bx * by` whenever `|x| <= bx` and `|y| <= by`.
pub proof fn lemma_mul_bound(x: int, y: int, bx: int, by: int)
    requires
        -bx <= x <= bx,
        -by <= y <= by,
        0 <= bx,
        0 <= by,
    ensures
        -(bx * by) <= x * y <= bx * by,
{
    assert(-(bx * by) <= x * y <= bx * by) by (nonlinear_arith)
        requires
            -bx <= x <= bx,
            -by <= y <= by,
            0 <= bx,
            0 <= by,
    ;
}

/// The perpendicular bisector of `s` and `t`, oriented toward `s`.
pub(crate) fn bisector(s: Point, t: Point) -> (r: Line)
    requires
        s.in_range(),
        t.in_range(),
    ensures
        r == bisector_spec(s, t),
        line_ok(r),
{
    let sx = s.x() as i128;
    let sy = s.y() as i128;
    let tx = t.x() as i128;
    let ty = t.y() as i128;
    proof {
        let bb = COORD_LIMIT as int;
        lemma_mul_bound(tx as int, tx as int, bb, bb);
        lemma_mul_bound(ty as int, ty as int, bb, bb);
        lemma_mul_bound(sx as int, sx as int, bb, bb);
        lemma_mul_bound(sy as int, sy as int, bb, bb);
    }
    Line { a: 2 * (tx - sx), b: 2 * (ty - sy), c: tx * tx + ty * ty - sx * sx - sy * sy }
}

/// The line through `p` and `q` keeping the left side of the walk `p -> q`.
pub(crate) fn edge_line(p: Point, q: Point) -> (r: Line)
    requires
        p.in_range(),
        q.in_range(),
    ensures
        r == edge_line_spec(p, q),
        line_ok(r),
{
    let px = p.x() as i128;
    let py = p.y() as i128;
    let qx = q.x() as i128;
    let qy = q.y() as i128;
    let a = qy - py;
    let b = px - qx;
    proof {
        let bb = COORD_LIMIT as int;
        lemma_mul_bound(a as int, px as int, 2 * bb, bb);
        lemma_mul_bound(b as int, py as int, 2 * bb, bb);
    }
    Line { a, b, c: a * px + b * py }
}

/// Cross product of two lines' directions.
pub(crate) fn cross_lines(l1: Line, l2: Line) -> (r: i128)
    requires
        line_ok(l1),
        line_ok(l2),
    ensures
        r == cross_of(l1, l2),
{
    proof {
        lemma_mul_bound(l1.a as int, l2.b as int, coef_bound(), coef_bound());
        lemma_mul_bound(l2.a as int, l1.b as int, coef_bound(), coef_bound());
    }
    l1.a * l2.b - l2.a * l1.b
}

/// Sign of `h` at the intersection of `l1` and `l2`.
pub(crate) fn side_of(h: Line, l1: Line, l2: Line) -> (r: i32)
    requires
        line_ok(h),
        line_ok(l1),
        line_ok(l2),
    ensures
        r as int == side_at(h, l1, l2),
{
    proof {
        lemma_mul_bound(l1.c as int, l2.b as int, const_bound(), coef_bound());
        lemma_mul_bound(l2.c as int, l1.b as int, const_bound(), coef_bound());
        lemma_mul_bound(l1.a as int, l2.c as int, coef_bound(), const_bound());
        lemma_mul_bound(l2.a as int, l1.c as int, coef_bound(), const_bound());
        lemma_mul_bound(l1.a as int, l2.b as int, coef_bound(), coef_bound());
        lemma_mul_bound(l2.a as int, l1.b as int, coef_bound(), coef_bound());
    }
    let xn: i128 = l1.c * l2.b - l2.c * l1.b;
    let yn: i128 = l1.a * l2.c - l2.a * l1.c;
    let cr: i128 = l1.a * l2.b - l2.a * l1.b;
    proof {
        lemma_mul_bound(h.a as int, xn as int, coef_bound(), 2 * const_bound() * coef_bound());
        lemma_mul_bound(h.b as int, yn as int, coef_bound(), 2 * const_bound() * coef_bound());
        lemma_mul_bound(h.c as int, cr as int, const_bound(), 2 * coef_bound() * coef_bound());
    }
    let val: i128 = h.a * xn + h.b * yn - h.c * cr;
    proof {
        lemma_sign_mul(val as int, cr as int);
    }
    if val == 0 || cr == 0 {
        0
    } else if (val > 0) == (cr > 0) {
        1
    } else {
        -1
    }
}

/// Case table for the product of two signs.
proof fn lemma_sign_mul(v: int, c: int)
    ensures
        sign_of(v) * sign_of(c) == if v == 0 || c == 0 {
            0int
        } else if (v > 0) == (c > 0) {
            1int
        } else {
            -1int
        },
{
    let sv = sign_of(v);
    let sc = sign_of(c);
    assert(sv == 1 || sv == 0 || sv == -1);
    assert(sc == 1 || sc == 0 || sc == -1);
    assert(sv * sc == if sv == 0 || sc == 0 {
        0int
    } else if sv == sc {
        1int
    } else {
        -1int
    }) by (nonlinear_arith)
        requires
            sv == 1 || sv == 0 || sv == -1,
            sc == 1 || sc == 0 || sc == -1,
    ;
}

/// The intersection of two non-parallel lines, rounded to the nearest grid
/// point, as a pair of `i128` coordinates.
pub(crate) fn vertex_point(l1: Line, l2: Line) -> (r: (i128, i128))
    requires
        line_ok(l1),
        line_ok(l2),
        cross_of(l1, l2) != 0,
    ensures
        r.0 == vertex_x_spec(l1, l2),
        r.1 == vertex_y_spec(l1, l2),
{
    proof {
        lemma_mul_bound(l1.c as int, l2.b as int, const_bound(), coef_bound());
        lemma_mul_bound(l2.c as int, l1.b as int, const_bound(), coef_bound());
        lemma_mul_bound(l1.a as int, l2.c as int, coef_bound(), const_bound());
        lemma_mul_bound(l2.a as int, l1.c as int, coef_bound(), const_bound());
        lemma_mul_bound(l1.a as int, l2.b as int, coef_bound(), coef_bound());
        lemma_mul_bound(l2.a as int, l1.b as int, coef_bound(), coef_bound());
    }
    let mut xn: i128 = l1.c * l2.b - l2.c * l1.b;
    let mut yn: i128 = l1.a * l2.c - l2.a * l1.c;
    let mut cr: i128 = l1.a * l2.b - l2.a * l1.b;
    if cr < 0 {
        xn = -xn;
        yn = -yn;
        cr = -cr;
    }
    (round_div(xn, cr), round_div(yn, cr))
}

/// Floor division of an `i128` by a positive divisor.
pub(crate) fn floor_div(a: i128, b: i128) -> (r: i128)
    requires
        0 < b,
        -0x7fff_ffff_ffff_ffff_ffff_ffff_ffff_ffffi128 <= a,
    ensures
        r == floor_div_spec(a as int, b as int),
{
    if a >= 0 {
        let q: u128 = (a as u128) / (b as u128);
        proof {
            let qi = q as int;
            let bi = b as int;
            lemma_fundamental_div_mod(a as int, bi);
            assert(qi <= bi * qi) by (nonlinear_arith)
                requires
                    0 <= qi,
                    1 <= bi,
            ;
        }
        q as i128
    } else {
        let na: u128 = (-a) as u128;
        let q: u128 = (na + (b as u128) - 1) / (b as u128);
        let rem: u128 = (na + (b as u128) - 1) % (b as u128);
        proof {
            let qi = q as int;
            let ri = rem as int;
            let bi = b as int;
            let ai = a as int;
            lemma_fundamental_div_mod(na as int + bi - 1, bi);
            assert(na as int + bi - 1 == bi * qi + ri);
            assert(qi <= na as int) by (nonlinear_arith)
                requires
                    na as int + bi - 1 == bi * qi + ri,
                    0 <= ri,
                    1 <= bi,
                    0 <= qi,
                    1 <= na as int,
            ;
            assert(ai == (-qi) * bi + (bi - 1 - ri)) by (nonlinear_arith)
                requires
                    -ai + bi - 1 == bi * qi + ri,
            ;
            lemma_fundamental_div_mod_converse(ai, bi, -qi, bi - 1 - ri);
        }
        -(q as i128)
    }
}

/// Nearest-integer division (ties up) of a bounded `i128` by a positive
/// bounded divisor.
pub(crate) fn round_div(a: i128, b: i128) -> (r: i128)
    requires
        0 < b < 0x1000_0000_0000_0000_0000_0000_0000_0000i128,
        -0x1000_0000_0000_0000_0000_0000_0000_0000i128 < a
            < 0x1000_0000_0000_0000_0000_0000_0000_0000i128,
    ensures
        r == round_div_spec(a as int, b as int),
{
    floor_div(2 * a + b, 2 * b)
}

} // verus!
