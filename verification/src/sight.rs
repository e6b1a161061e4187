//! The ray that a line of sight follows, and what may be seen along it.
//!
//! A ray is walked in one quarter of the plane: `u` and `v` count the steps
//! taken along x and along y towards the target, which lies `a` columns and `b`
//! rows away. The point `(u, v)` lies `|b * u - a * v| / sqrt(a * a + b * b)`
//! cells off the straight line to the target.

use vstd::prelude::*;
use crate::king_distance::{at, in_bounds};

verus! {

/// The distance between two coordinates.
pub open spec fn span(from: int, to: int) -> int {
    if from < to {
        to - from
    } else {
        from - to
    }
}

/// The direction from one coordinate towards another: back where they are equal.
pub open spec fn toward(from: int, to: int) -> int {
    if from < to {
        1
    } else {
        -1
    }
}

/// Twice the area of the triangle between the line's ends and the point
/// `(u, v)`: the point's distance from the line, times the line's length.
pub open spec fn off_line(a: int, b: int, p: (int, int)) -> int {
    b * p.0 - a * p.1
}

/// The point `(u, v)` lies less than half a cell off the line.
pub open spec fn near_line(a: int, b: int, p: (int, int)) -> bool {
    4 * (off_line(a, b, p) * off_line(a, b, p)) < a * a + b * b
}

/// The point after `p` on the ray: along x if that stays near the line, else
/// along y if that does, else along both.
pub open spec fn ray_step(a: int, b: int, p: (int, int)) -> (int, int) {
    if near_line(a, b, (p.0 + 1, p.1)) {
        (p.0 + 1, p.1)
    } else if near_line(a, b, (p.0, p.1 + 1)) {
        (p.0, p.1 + 1)
    } else {
        (p.0 + 1, p.1 + 1)
    }
}

/// The point of the ray after `n` steps.
pub open spec fn ray_point(a: int, b: int, n: nat) -> (int, int)
    decreases n,
{
    if n == 0 {
        (0, 0)
    } else {
        ray_step(a, b, ray_point(a, b, (n - 1) as nat))
    }
}

/// The cell that the ray from `o` to `t` is on after `n` steps.
pub open spec fn ray_cell(o: (int, int), t: (int, int), n: nat) -> (int, int) {
    let p = ray_point(span(o.0, t.0), span(o.1, t.1), n);
    (o.0 + toward(o.0, t.0) * p.0, o.1 + toward(o.1, t.1) * p.1)
}

/// The walk ends after `n` steps: on the target, or on a cell other than the
/// origin that cannot be seen through.
pub open spec fn stops(clear: Seq<Seq<bool>>, o: (int, int), t: (int, int), n: nat) -> bool {
    let c = ray_cell(o, t, n);
    c == t || (c != o && !at(clear, c))
}

/// `seen` is what a look from `o` towards `t` meets on the grid `clear` of
/// cells that can be seen through: nothing if the target lies outside the
/// grid, else the cell on which the walk along the ray first ends.
pub open spec fn is_sight(
    clear: Seq<Seq<bool>>,
    o: (int, int),
    t: (int, int),
    seen: Option<(int, int)>,
) -> bool {
    if in_bounds(clear, t) {
        exists|n: nat|
            seen == Some(ray_cell(o, t, n)) && #[trigger] stops(clear, o, t, n) && forall|m: nat|
                m < n ==> !#[trigger] stops(clear, o, t, m)
    } else {
        seen is None
    }
}

/// The offset `(di, dj)` lies inside the circle of the given radius.
pub open spec fn within(di: int, dj: int, radius: int) -> bool {
    di * di + dj * dj < radius * radius
}

/// A look from `o` towards the cell `(di, dj)` away meets the cell `c`.
pub open spec fn look(clear: Seq<Seq<bool>>, o: (int, int), di: int, dj: int, c: (int, int)) -> bool {
    is_sight(clear, o, (o.0 + di, o.1 + dj), Some(c))
}

/// From `o`, a look towards some cell inside the circle meets the cell `c`.
pub open spec fn lit(clear: Seq<Seq<bool>>, o: (int, int), radius: int, c: (int, int)) -> bool {
    exists|di: int, dj: int| within(di, dj, radius) && #[trigger] look(clear, o, di, dj, c)
}

/// A point of the ray short of the target, and near the line.
pub open spec fn on_the_way(a: int, b: int, p: (int, int)) -> bool {
    &&& 0 <= p.0 <= a
    &&& 0 <= p.1 <= b
    &&& p != (a, b)
    &&& near_line(a, b, p)
}

proof fn lemma_square_order(x: int, y: int)
    requires
        0 <= x,
        0 <= y,
    ensures
        x <= y ==> x * x <= y * y,
        x < y ==> x * x < y * y,
        x * x <= y * y ==> x <= y,
        x * x < y * y ==> x < y,
{
    assert(x <= y ==> x * x <= y * y) by (nonlinear_arith)
        requires
            0 <= x,
            0 <= y,
    ;
    assert(x < y ==> x * x < y * y) by (nonlinear_arith)
        requires
            0 <= x,
            0 <= y,
    ;
    assert(y < x ==> y * y < x * x) by (nonlinear_arith)
        requires
            0 <= x,
            0 <= y,
    ;
    assert(y <= x ==> y * y <= x * x) by (nonlinear_arith)
        requires
            0 <= x,
            0 <= y,
    ;
}

/// The step from a point on the way stays between the origin and the target,
/// stays near the line, and comes closer to the target.
pub proof fn lemma_ray_step(a: int, b: int, p: (int, int))
    requires
        on_the_way(a, b, p),
    ensures
        0 <= ray_step(a, b, p).0 <= a,
        0 <= ray_step(a, b, p).1 <= b,
        near_line(a, b, ray_step(a, b, p)),
        (a - ray_step(a, b, p).0) + (b - ray_step(a, b, p).1) < (a - p.0) + (b - p.1),
{
    let u = p.0;
    let v = p.1;
    let f = off_line(a, b, p);
    let d = a * a + b * b;
    let along_x = off_line(a, b, (u + 1, v));
    let along_y = off_line(a, b, (u, v + 1));
    let along_both = off_line(a, b, (u + 1, v + 1));
    assert(along_x == f + b && along_y == f - a && along_both == f + b - a) by (nonlinear_arith)
        requires
            f == b * u - a * v,
            along_x == b * (u + 1) - a * v,
            along_y == b * u - a * (v + 1),
            along_both == b * (u + 1) - a * (v + 1),
    ;
    assert(4 * (f * f) < d);
    if u == a {
        // The walk has all its columns: only a step along y stays near the line.
        assert(f == a * (b - v)) by (nonlinear_arith)
            requires
                f == b * u - a * v,
                u == a,
        ;
        assert(f >= a && f - a == a * (b - v - 1) && f - a >= 0) by (nonlinear_arith)
            requires
                f == a * (b - v),
                0 <= a,
                v < b,
        ;
        lemma_square_order(f - a, f);
        assert(4 * ((f - a) * (f - a)) < d);
        assert(4 * ((f + b) * (f + b)) >= d) by (nonlinear_arith)
            requires
                f >= a,
                a >= 0,
                b >= 0,
                d == a * a + b * b,
        ;
    } else if v == b {
        // The walk has all its rows: a step along x stays near the line.
        assert(f == -(b * (a - u))) by (nonlinear_arith)
            requires
                f == b * u - a * v,
                v == b,
        ;
        assert(f <= -b && f + b == -(b * (a - u - 1)) && f + b <= 0) by (nonlinear_arith)
            requires
                f == -(b * (a - u)),
                0 <= b,
                u < a,
        ;
        lemma_square_order(-(f + b), -f);
        assert((f + b) * (f + b) == (-(f + b)) * (-(f + b))) by (nonlinear_arith);
        assert(f * f == (-f) * (-f)) by (nonlinear_arith);
        assert(4 * ((f + b) * (f + b)) < d);
    } else if !near_line(a, b, (u + 1, v)) && !near_line(a, b, (u, v + 1)) {
        // Neither straight step stays near the line: the diagonal one does.
        let over = f + b;
        let under = a - f;
        assert(4 * (over * over) >= d);
        assert(4 * (under * under) >= d) by {
            assert(under * under == (f - a) * (f - a)) by (nonlinear_arith)
                requires
                    under == a - f,
            ;
        }
        assert(b > 0) by {
            if b == 0 {
                assert(over == f);
            }
        }
        assert(a > 0) by {
            if a == 0 {
                assert(f - a == f);
            }
        }
        assert(over > 0) by {
            if over <= 0 {
                // then f <= -b <= 0 and |over| <= |f|
                lemma_square_order(-over, -f);
                assert(over * over == (-over) * (-over)) by (nonlinear_arith);
                assert(f * f == (-f) * (-f)) by (nonlinear_arith);
            }
        }
        assert(under > 0) by {
            if under <= 0 {
                lemma_square_order(-under, f);
                assert(under * under == (-under) * (-under)) by (nonlinear_arith);
            }
        }
        let g = f + b - a;
        assert(2 * over >= a) by {
            if 2 * over < a {
                lemma_square_order(2 * over, a);
                assert((2 * over) * (2 * over) == 4 * (over * over)) by (nonlinear_arith);
                assert(b * b >= 0) by (nonlinear_arith);
            }
        }
        assert(2 * under >= b) by {
            if 2 * under < b {
                lemma_square_order(2 * under, b);
                assert((2 * under) * (2 * under) == 4 * (under * under)) by (nonlinear_arith);
                assert(a * a >= 0) by (nonlinear_arith);
            }
        }
        assert(4 * (g * g) < d) by {
            assert((2 * g) * (2 * g) == 4 * (g * g)) by (nonlinear_arith);
            assert(a * a > 0 && b * b > 0) by (nonlinear_arith)
                requires
                    a > 0,
                    b > 0,
            ;
            if g >= 0 {
                // g = b - under, so 0 <= 2g <= b
                lemma_square_order(2 * g, b);
            } else {
                // g = over - a, so -a <= 2g < 0
                lemma_square_order(-(2 * g), a);
                assert((2 * g) * (2 * g) == (-(2 * g)) * (-(2 * g))) by (nonlinear_arith);
            }
        }
    }
}


/// A look meets at most one thing.
pub proof fn lemma_sight_unique(
    clear: Seq<Seq<bool>>,
    o: (int, int),
    t: (int, int),
    first: Option<(int, int)>,
    second: Option<(int, int)>,
)
    requires
        is_sight(clear, o, t, first),
        is_sight(clear, o, t, second),
    ensures
        first == second,
{
    if in_bounds(clear, t) {
        let n = choose|n: nat|
            first == Some(ray_cell(o, t, n)) && #[trigger] stops(clear, o, t, n) && forall|m: nat|
                m < n ==> !#[trigger] stops(clear, o, t, m);
        let k = choose|k: nat|
            second == Some(ray_cell(o, t, k)) && #[trigger] stops(clear, o, t, k) && forall|m: nat|
                m < k ==> !#[trigger] stops(clear, o, t, m);
        if n < k {
            assert(!stops(clear, o, t, n));
        }
        if k < n {
            assert(!stops(clear, o, t, k));
        }
    }
}

/// A look at the cell one stands on meets that cell.
pub proof fn lemma_sight_of_own_cell(clear: Seq<Seq<bool>>, o: (int, int))
    requires
        in_bounds(clear, o),
    ensures
        is_sight(clear, o, o, Some(o)),
{
    assert(ray_point(span(o.0, o.0), span(o.1, o.1), 0) == (0int, 0int));
    assert(ray_cell(o, o, 0) == o);
    assert(stops(clear, o, o, 0));
}


/// Along a row, along a column and along a diagonal the ray is the straight
/// line of cells: it meets every cell between the origin and the target, one
/// after the other.
pub proof fn lemma_straight_ray(a: int, b: int, n: nat)
    requires
        0 <= a,
        0 <= b,
        a > 0 || b > 0,
        a == 0 || b == 0 || a == b,
    ensures
        ray_point(a, b, n) == (if b == 0 {
            (n as int, 0int)
        } else if a == 0 {
            (0int, n as int)
        } else {
            (n as int, n as int)
        }),
    decreases n,
{
    if n > 0 {
        lemma_straight_ray(a, b, (n - 1) as nat);
        let p = ray_point(a, b, (n - 1) as nat);
        let m = n - 1;
        if b == 0 {
            assert(off_line(a, b, (p.0 + 1, p.1)) == 0) by (nonlinear_arith)
                requires
                    b == 0,
                    p.1 == 0,
            ;
            assert(a * a + b * b > 0) by (nonlinear_arith)
                requires
                    a > 0,
                    b == 0,
            ;
        } else if a == 0 {
            assert(off_line(a, b, (p.0 + 1, p.1)) == b && off_line(a, b, (p.0, p.1 + 1)) == 0
                && a * a + b * b == b * b) by (nonlinear_arith)
                requires
                    a == 0,
                    p.0 == 0,
            ;
            assert(b * b > 0) by (nonlinear_arith)
                requires
                    b > 0,
            ;
        } else {
            assert(off_line(a, b, (p.0 + 1, p.1)) == a && off_line(a, b, (p.0, p.1 + 1)) == -a
                && a * a + b * b == 2 * (a * a) && (-a) * (-a) == a * a) by (nonlinear_arith)
                requires
                    a == b,
                    p.0 == m,
                    p.1 == m,
            ;
            assert(a * a > 0) by (nonlinear_arith)
                requires
                    a > 0,
            ;
        }
    }
}

/// How far a cell of the quarter plane lies off the line is how far the cell
/// that it stands for lies off the line from the origin to the target: the
/// cross product of the target and the cell, both seen from the origin, is
/// the same up to its sign.
pub proof fn lemma_off_line_on_the_map(o: (int, int), t: (int, int), p: (int, int))
    ensures
        ({
            let c = (o.0 + toward(o.0, t.0) * p.0, o.1 + toward(o.1, t.1) * p.1);
            let cross = (t.1 - o.1) * (c.0 - o.0) - (t.0 - o.0) * (c.1 - o.1);
            let off = off_line(span(o.0, t.0), span(o.1, t.1), p);
            cross == off || cross == -off
        }),
{
    let a = span(o.0, t.0);
    let b = span(o.1, t.1);
    let u = p.0;
    let v = p.1;
    let dx = t.0 - o.0;
    let dy = t.1 - o.1;
    let x = toward(o.0, t.0) * u;
    let y = toward(o.1, t.1) * v;
    assert(x == (if o.0 < t.0 {
        u
    } else {
        -u
    })) by (nonlinear_arith)
        requires
            x == toward(o.0, t.0) * u,
    ;
    assert(y == (if o.1 < t.1 {
        v
    } else {
        -v
    })) by (nonlinear_arith)
        requires
            y == toward(o.1, t.1) * v,
    ;
    assert(b * (-u) == -(b * u) && (-b) * u == -(b * u) && (-b) * (-u) == b * u) by (nonlinear_arith);
    assert(a * (-v) == -(a * v) && (-a) * v == -(a * v) && (-a) * (-v) == a * v) by (nonlinear_arith);
    assert(dy * x == b * u || dy * x == -(b * u));
    assert(dx * y == a * v || dx * y == -(a * v));
    assert((o.0 < t.0) == (o.1 < t.1) ==> dy * x - dx * y == b * u - a * v);
    assert((o.0 < t.0) != (o.1 < t.1) ==> dy * x - dx * y == -(b * u - a * v));
}

} // verus!
