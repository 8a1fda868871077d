//! Gap-free rasterization of a polyline.
//!
//! Consecutive points of a mapped series may lie many pixels apart. Each
//! pair is joined by a straight run of pixels: the axis with the larger
//! distance drives, one pixel per step, and the other axis follows in
//! proportion, rounded to the nearest pixel.

use crate::arith::{
    lemma_round_div_exact, lemma_round_div_fraction, round_div, rounded_quotient,
};
use crate::canvas::within;
use crate::graph::DisplayPoint;
use vstd::prelude::*;

verus! {

/// Distance between two coordinates.
pub open spec fn distance(a: usize, b: usize) -> nat {
    if a <= b {
        (b - a) as nat
    } else {
        (a - b) as nat
    }
}

/// The coordinate `k` pixels from `from` in the direction of `to`.
pub open spec fn toward(from: usize, to: usize, k: nat) -> int {
    if from <= to {
        from + k
    } else {
        from - k
    }
}

/// How far the following axis has moved after `k` of `major` steps, when it
/// has `minor` pixels to cover in all.
pub open spec fn lateral(minor: nat, major: nat, k: nat) -> nat {
    if major == 0 {
        0
    } else {
        round_div(minor * k, major)
    }
}

/// Number of steps from `a` to `b`: the larger of the two distances.
pub open spec fn segment_steps(a: DisplayPoint, b: DisplayPoint) -> nat {
    let dx = distance(a.x, b.x);
    let dy = distance(a.y, b.y);
    if dx >= dy {
        dx
    } else {
        dy
    }
}

/// Whether the columns drive the run from `a` to `b`; otherwise the rows do.
pub open spec fn x_drives(a: DisplayPoint, b: DisplayPoint) -> bool {
    distance(a.x, b.x) >= distance(a.y, b.y)
}

/// The pixel reached after `k` steps from `a` toward `b`.
pub open spec fn segment_point(a: DisplayPoint, b: DisplayPoint, k: nat) -> DisplayPoint {
    let dx = distance(a.x, b.x);
    let dy = distance(a.y, b.y);
    if x_drives(a, b) {
        DisplayPoint {
            x: toward(a.x, b.x, k) as usize,
            y: toward(a.y, b.y, lateral(dy, dx, k)) as usize,
        }
    } else {
        DisplayPoint {
            x: toward(a.x, b.x, lateral(dx, dy, k)) as usize,
            y: toward(a.y, b.y, k) as usize,
        }
    }
}

/// The run of pixels from `a` to `b`, both included. Two equal points give
/// that one pixel.
pub open spec fn segment(a: DisplayPoint, b: DisplayPoint) -> Seq<DisplayPoint> {
    Seq::new(segment_steps(a, b) + 1, |k: int| segment_point(a, b, k as nat))
}

/// The runs between each point and the next, one after the other. Fewer
/// than two points leave nothing to join.
pub open spec fn polyline(points: Seq<DisplayPoint>) -> Seq<DisplayPoint>
    decreases points.len(),
{
    if points.len() < 2 {
        Seq::empty()
    } else {
        polyline(points.drop_last()) + segment(
            points[points.len() - 2],
            points[points.len() - 1],
        )
    }
}

/// The following axis starts at rest, never outruns the driving axis and
/// arrives exactly when the driving axis does.
pub proof fn lemma_lateral_bounds(minor: nat, major: nat, k: nat)
    requires
        minor <= major,
        k <= major,
    ensures
        lateral(minor, major, k) <= minor,
        lateral(minor, major, k) <= k,
        lateral(minor, major, 0) == 0,
        lateral(minor, major, major) == minor,
{
    if major > 0 {
        assert(minor * 0 == 0 && 0 * major == 0);
        lemma_round_div_exact(0, major);
        lemma_round_div_exact(minor, major);
        lemma_round_div_fraction(minor, k, major);
        lemma_round_div_fraction(k, minor, major);
        assert(k * minor == minor * k) by (nonlinear_arith);
    }
}

/// One step of the driving axis moves the following axis by at most one
/// pixel, and never backwards.
pub proof fn lemma_lateral_step(minor: nat, major: nat, k: nat)
    requires
        minor <= major,
        k < major,
    ensures
        lateral(minor, major, k) <= lateral(minor, major, k + 1) <= lateral(minor, major, k) + 1,
{
    let d = 2 * major;
    let lo = 2 * (minor * k) + major;
    let hi = 2 * (minor * (k + 1)) + major;
    assert(minor * (k + 1) == minor * k + minor) by (nonlinear_arith);
    assert(lo <= hi <= lo + d);
    vstd::arithmetic::div_mod::lemma_div_is_ordered(lo as int, hi as int, d as int);
    vstd::arithmetic::div_mod::lemma_div_is_ordered(hi as int, (lo + d) as int, d as int);
    vstd::arithmetic::div_mod::lemma_div_plus_one(lo as int, d as int);
}

/// Every pixel of a run lies between its two ends, column by column and row
/// by row.
pub proof fn lemma_segment_point_between(a: DisplayPoint, b: DisplayPoint, k: nat)
    requires
        k <= segment_steps(a, b),
    ensures
        segment_point(a, b, k).x == toward(
            a.x,
            b.x,
            if x_drives(a, b) {
                k
            } else {
                lateral(distance(a.x, b.x), distance(a.y, b.y), k)
            },
        ),
        segment_point(a, b, k).y == toward(
            a.y,
            b.y,
            if x_drives(a, b) {
                lateral(distance(a.y, b.y), distance(a.x, b.x), k)
            } else {
                k
            },
        ),
        a.x <= b.x ==> a.x <= segment_point(a, b, k).x <= b.x,
        b.x <= a.x ==> b.x <= segment_point(a, b, k).x <= a.x,
        a.y <= b.y ==> a.y <= segment_point(a, b, k).y <= b.y,
        b.y <= a.y ==> b.y <= segment_point(a, b, k).y <= a.y,
{
    let dx = distance(a.x, b.x);
    let dy = distance(a.y, b.y);
    if x_drives(a, b) {
        lemma_lateral_bounds(dy, dx, k);
    } else {
        lemma_lateral_bounds(dx, dy, k);
    }
}

/// A run starts at its first point and ends at its second.
pub proof fn lemma_segment_ends(a: DisplayPoint, b: DisplayPoint)
    ensures
        segment(a, b).len() == segment_steps(a, b) + 1,
        segment(a, b).first() == a,
        segment(a, b).last() == b,
{
    let dx = distance(a.x, b.x);
    let dy = distance(a.y, b.y);
    let n = segment_steps(a, b);
    lemma_segment_point_between(a, b, 0);
    lemma_segment_point_between(a, b, n);
    if x_drives(a, b) {
        lemma_lateral_bounds(dy, dx, 0);
        lemma_lateral_bounds(dy, dx, n);
    } else {
        lemma_lateral_bounds(dx, dy, 0);
        lemma_lateral_bounds(dx, dy, n);
    }
}

/// A run has no gap: from each pixel to the next the driving coordinate
/// changes by exactly one, and the other coordinate by at most one.
pub proof fn lemma_segment_step(a: DisplayPoint, b: DisplayPoint, k: int)
    requires
        0 <= k < segment_steps(a, b),
    ensures
        x_drives(a, b) ==> {
            &&& distance(segment(a, b)[k].x, segment(a, b)[k + 1].x) == 1
            &&& distance(segment(a, b)[k].y, segment(a, b)[k + 1].y) <= 1
        },
        !x_drives(a, b) ==> {
            &&& distance(segment(a, b)[k].y, segment(a, b)[k + 1].y) == 1
            &&& distance(segment(a, b)[k].x, segment(a, b)[k + 1].x) <= 1
        },
{
    let dx = distance(a.x, b.x);
    let dy = distance(a.y, b.y);
    let at = k as nat;
    lemma_segment_point_between(a, b, at);
    lemma_segment_point_between(a, b, at + 1);
    if x_drives(a, b) {
        lemma_lateral_step(dy, dx, at);
        lemma_lateral_bounds(dy, dx, at);
        lemma_lateral_bounds(dy, dx, at + 1);
    } else {
        lemma_lateral_step(dx, dy, at);
        lemma_lateral_bounds(dx, dy, at);
        lemma_lateral_bounds(dx, dy, at + 1);
    }
}

/// Two points on the same pixel are joined by that pixel, once.
pub proof fn lemma_segment_of_one_pixel(a: DisplayPoint)
    ensures
        segment(a, a) == seq![a],
{
    lemma_segment_ends(a, a);
    assert(segment(a, a) =~= seq![a]);
}

/// Where the run that leaves point `i` begins in the polyline.
pub open spec fn run_start(points: Seq<DisplayPoint>, i: int) -> nat {
    polyline(points.take(i + 1)).len()
}

/// The polyline through the first `n` points opens the polyline through all
/// of them.
pub proof fn lemma_polyline_prefix(points: Seq<DisplayPoint>, n: int)
    requires
        0 <= n <= points.len(),
    ensures
        polyline(points.take(n)).is_prefix_of(polyline(points)),
    decreases points.len() - n,
{
    if n == points.len() {
        assert(points.take(n) =~= points);
    } else {
        lemma_polyline_prefix(points, n + 1);
        assert(points.take(n + 1).drop_last() =~= points.take(n));
        if n >= 1 {
            assert(polyline(points.take(n)).is_prefix_of(polyline(points.take(n + 1))));
        }
    }
}

/// The polyline holds the whole run between each point and the next, from
/// the one to the other, in the order of the points.
pub proof fn lemma_polyline_holds_run(points: Seq<DisplayPoint>, i: int)
    requires
        0 <= i,
        i + 1 < points.len(),
    ensures
        run_start(points, i) + segment_steps(points[i], points[i + 1]) + 1 == run_start(
            points,
            i + 1,
        ),
        run_start(points, i + 1) <= polyline(points).len(),
        polyline(points).subrange(run_start(points, i) as int, run_start(points, i + 1) as int)
            == segment(points[i], points[i + 1]),
{
    let upto = points.take(i + 2);
    assert(upto.drop_last() =~= points.take(i + 1));
    assert(polyline(upto) == polyline(points.take(i + 1)) + segment(points[i], points[i + 1]));
    lemma_polyline_prefix(points, i + 2);
    let start = run_start(points, i) as int;
    let end = run_start(points, i + 1) as int;
    let run = segment(points[i], points[i + 1]);
    assert(polyline(points).subrange(start, end) =~= run) by {
        assert forall|j: int| 0 <= j < end - start implies #[trigger] run[j] == polyline(
            points,
        )[start + j] by {
            assert(polyline(points)[start + j] == polyline(upto)[start + j]);
        }
    }
}

/// A polyline through two points or more ends on the last of them.
pub proof fn lemma_polyline_last(points: Seq<DisplayPoint>)
    requires
        points.len() >= 2,
    ensures
        polyline(points).len() >= 1,
        polyline(points).last() == points.last(),
{
    lemma_segment_ends(points[points.len() - 2], points[points.len() - 1]);
}

/// The whole polyline has no gap: from each pixel to the next neither
/// coordinate changes by more than one, within a run and from one run to
/// the next.
pub proof fn lemma_polyline_gap_free(points: Seq<DisplayPoint>, j: int)
    requires
        0 <= j,
        j + 1 < polyline(points).len(),
    ensures
        distance(polyline(points)[j].x, polyline(points)[j + 1].x) <= 1,
        distance(polyline(points)[j].y, polyline(points)[j + 1].y) <= 1,
    decreases points.len(),
{
    let a = points[points.len() - 2];
    let b = points[points.len() - 1];
    let head = polyline(points.drop_last());
    let run = segment(a, b);
    if j + 1 < head.len() {
        lemma_polyline_gap_free(points.drop_last(), j);
        assert(polyline(points)[j] == head[j]);
        assert(polyline(points)[j + 1] == head[j + 1]);
    } else if j < head.len() {
        lemma_polyline_last(points.drop_last());
        lemma_segment_ends(a, b);
        assert(polyline(points)[j] == head.last());
        assert(polyline(points)[j + 1] == run[0]);
        assert(points.drop_last().last() == a);
    } else {
        let k = j - head.len();
        assert(polyline(points)[j] == run[k]);
        assert(polyline(points)[j + 1] == run[k + 1]);
        lemma_segment_step(a, b, k);
    }
}

/// A polyline through points on the canvas stays on the canvas.
pub proof fn lemma_polyline_within(points: Seq<DisplayPoint>, width: nat, height: nat)
    requires
        within(points, width, height),
    ensures
        within(polyline(points), width, height),
    decreases points.len(),
{
    if points.len() >= 2 {
        let a = points[points.len() - 2];
        let b = points[points.len() - 1];
        let head = polyline(points.drop_last());
        assert(within(points.drop_last(), width, height)) by {
            assert forall|i: int| 0 <= i < points.len() - 1 implies (#[trigger] points.drop_last()[i]).x
                < width && points.drop_last()[i].y < height by {
                assert(points.drop_last()[i] == points[i]);
            }
        }
        lemma_polyline_within(points.drop_last(), width, height);
        assert forall|i: int| 0 <= i < polyline(points).len() implies (#[trigger] polyline(
            points,
        )[i]).x < width && polyline(points)[i].y < height by {
            if i >= head.len() {
                let k = (i - head.len()) as nat;
                assert(polyline(points)[i] == segment(a, b)[k as int]);
                lemma_segment_point_between(a, b, k);
            } else {
                assert(polyline(points)[i] == head[i]);
            }
        }
    }
}

fn gap(a: usize, b: usize) -> (d: usize)
    ensures
        d == distance(a, b),
{
    if a <= b {
        b - a
    } else {
        a - b
    }
}

fn advance(from: usize, to: usize, k: usize) -> (c: usize)
    requires
        k <= distance(from, to),
    ensures
        c == toward(from, to, k as nat),
{
    if from <= to {
        from + k
    } else {
        from - k
    }
}

fn follow(minor: usize, major: usize, k: usize) -> (off: usize)
    requires
        minor <= major,
        k <= major,
    ensures
        off == lateral(minor as nat, major as nat, k as nat),
{
    if major == 0 {
        0
    } else {
        proof {
            lemma_lateral_bounds(minor as nat, major as nat, k as nat);
            assert(minor * k <= u64::MAX * u64::MAX) by (nonlinear_arith)
                requires
                    minor <= u64::MAX,
                    k <= u64::MAX,
            ;
        }
        let q: u128 = rounded_quotient((minor as u128) * (k as u128), major as u128);
        q as usize
    }
}

/// The pixel reached after `k` steps from `a` toward `b`.
pub fn point_at(a: DisplayPoint, b: DisplayPoint, k: usize) -> (p: DisplayPoint)
    requires
        k <= segment_steps(a, b),
    ensures
        p == segment_point(a, b, k as nat),
{
    let dx: usize = gap(a.x, b.x);
    let dy: usize = gap(a.y, b.y);
    proof {
        lemma_segment_point_between(a, b, k as nat);
    }
    if dx >= dy {
        proof {
            lemma_lateral_bounds(dy as nat, dx as nat, k as nat);
        }
        let off: usize = follow(dy, dx, k);
        DisplayPoint { x: advance(a.x, b.x, k), y: advance(a.y, b.y, off) }
    } else {
        proof {
            lemma_lateral_bounds(dx as nat, dy as nat, k as nat);
        }
        let off: usize = follow(dx, dy, k);
        DisplayPoint { x: advance(a.x, b.x, off), y: advance(a.y, b.y, k) }
    }
}

/// Appends the run from `a` to `b`, both ends included, to `line`.
pub fn push_segment(line: &mut Vec<DisplayPoint>, a: DisplayPoint, b: DisplayPoint)
    ensures
        final(line)@ == old(line)@ + segment(a, b),
{
    let dx: usize = gap(a.x, b.x);
    let dy: usize = gap(a.y, b.y);
    let steps: usize = if dx >= dy { dx } else { dy };
    let ghost before = line@;
    let mut k: usize = 0;
    line.push(point_at(a, b, 0));
    assert(line@ =~= before + segment(a, b).take(1));
    while k < steps
        invariant
            k <= steps,
            steps == segment_steps(a, b),
            line@ == before + segment(a, b).take(k + 1),
        decreases steps - k,
    {
        k = k + 1;
        line.push(point_at(a, b, k));
        assert(line@ =~= before + segment(a, b).take(k + 1));
    }
    assert(segment(a, b).take(steps + 1) =~= segment(a, b));
}

/// Joins each point to the next by a gap-free run of pixels.
pub fn extrapolate(points: &[DisplayPoint]) -> (line: Vec<DisplayPoint>)
    ensures
        line@ == polyline(points@),
{
    let mut line: Vec<DisplayPoint> = Vec::new();
    if points.len() < 2 {
        return line;
    }
    let mut i: usize = 1;
    assert(polyline(points@.take(1)) =~= Seq::<DisplayPoint>::empty());
    while i < points.len()
        invariant
            1 <= i <= points.len(),
            line@ == polyline(points@.take(i as int)),
        decreases points.len() - i,
    {
        push_segment(&mut line, points[i - 1], points[i]);
        proof {
            let next = points@.take(i + 1);
            assert(next.drop_last() =~= points@.take(i as int));
        }
        i = i + 1;
    }
    assert(points@.take(i as int) =~= points@);
    line
}

} // verus!
