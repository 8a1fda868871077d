//! Calibration of one axis: from a range of data values and a pixel extent
//! to tick marks and a rule that places a value on a pixel.
//!
//! The tick interval is picked from the numbers 1, 2, 5, 10, 20, 50, ...: it
//! is the least of them that covers the range in at most ten steps.

use crate::arith::{
    lemma_round_div_exact, lemma_round_div_fraction, lemma_round_div_monotone, round_div,
    rounded_quotient,
};
use crate::graph::DisplayPoint;
use crate::layout::{usable_extent, H_ARROW_HALF, LEFT_SHIFT, MIN_EXTENT, RIGHT_SHIFT};
use vstd::prelude::*;

verus! {

/// Most ticks an axis carries.
pub const MAX_TICKS: usize = 10;

/// The least of 1, 2, 5, 10, 20, 50, ... that covers `range` in at most ten
/// steps.
pub open spec fn nice_interval(range: nat) -> nat
    decreases range,
{
    if range <= 10 {
        1
    } else if range <= 20 {
        2
    } else if range <= 50 {
        5
    } else {
        10 * nice_interval((range + 9) / 10)
    }
}

/// Whether `n` is one of 1, 2, 5 or ten times such a number.
pub open spec fn is_nice(n: nat) -> bool
    decreases n,
{
    n == 1 || n == 2 || n == 5 || (n >= 10 && n % 10 == 0 && is_nice(n / 10))
}

/// The interval is a nice number, ten of them cover the range, and an
/// interval over a range of more than ten is shorter than a quarter of it.
pub proof fn lemma_nice_interval_covers(range: nat)
    ensures
        is_nice(nice_interval(range)),
        range <= 10 * nice_interval(range),
        range > 10 ==> 4 * nice_interval(range) < range,
    decreases range,
{
    if range > 50 {
        let up = (range + 9) / 10;
        lemma_nice_interval_covers(up);
        assert(10 * nice_interval(up) / 10 == nice_interval(up));
    }
}

/// No nice number below the interval covers the range in ten steps.
pub proof fn lemma_nice_interval_least(range: nat, n: nat)
    requires
        is_nice(n),
        range <= 10 * n,
    ensures
        nice_interval(range) <= n,
    decreases range,
{
    if range > 50 {
        assert(n >= 10);
        lemma_nice_interval_least((range + 9) / 10, n / 10);
    }
}

/// A wider range never gets a shorter interval.
pub proof fn lemma_nice_interval_monotone(r1: nat, r2: nat)
    requires
        r1 <= r2,
    ensures
        nice_interval(r1) <= nice_interval(r2),
{
    lemma_nice_interval_covers(r2);
    lemma_nice_interval_least(r1, nice_interval(r2));
}

/// Which way an axis runs on the canvas.
#[derive(PartialEq, Eq, Structural, Clone, Copy, Debug)]
pub enum Orientation {
    Horizontal,
    Vertical,
}

/// The calibration of one axis.
///
/// Ticks are spread evenly over the usable extent: the spacing between two
/// ticks is the exact ratio of the usable extent to `tick_count`, and tick
/// `i` stands at that ratio times `i`, rounded to the nearest pixel.
#[derive(PartialEq, Eq, Structural, Clone, Copy, Debug)]
pub struct Axis {
    /// Data value at the start of the plot area.
    pub min_value: i64,
    /// Data value at the end of the plot area.
    pub max_value: i64,
    /// Data units between two ticks.
    pub tick_interval: u64,
    /// Number of ticks.
    pub tick_count: usize,
    /// Pixels of the canvas along the axis.
    pub extent: usize,
    pub orientation: Orientation,
}

impl Axis {
    /// The width of the range of values.
    pub open spec fn range(self) -> nat {
        (self.max_value - self.min_value) as nat
    }

    /// Pixels of the plot area along the axis.
    pub open spec fn usable(self) -> nat {
        usable_extent(self.extent as nat)
    }

    /// The axis is the calibration of its range and extent.
    pub open spec fn wf(self) -> bool {
        &&& self.min_value < self.max_value
        &&& self.extent >= MIN_EXTENT
        &&& self.tick_interval == nice_interval(self.range())
        &&& self.tick_count == round_div(self.range(), self.tick_interval as nat)
    }

    /// The horizontal axis that shows the values from `min_value` to
    /// `max_value` on `extent` pixels.
    pub open spec fn calibration(max_value: i64, min_value: i64, extent: usize) -> Axis {
        let range = (max_value - min_value) as nat;
        Axis {
            min_value,
            max_value,
            tick_interval: nice_interval(range) as u64,
            tick_count: round_div(range, nice_interval(range)) as usize,
            extent,
            orientation: Orientation::Horizontal,
        }
    }

    /// The same calibration for the other direction of the canvas.
    pub open spec fn rotated(self) -> Axis {
        Axis {
            orientation: match self.orientation {
                Orientation::Horizontal => Orientation::Vertical,
                Orientation::Vertical => Orientation::Horizontal,
            },
            ..self
        }
    }

    /// How far `p` lies along the axis.
    pub open spec fn along(self, p: DisplayPoint) -> usize {
        match self.orientation {
            Orientation::Horizontal => p.x,
            Orientation::Vertical => p.y,
        }
    }

    /// How far `p` lies across the axis.
    pub open spec fn across(self, p: DisplayPoint) -> usize {
        match self.orientation {
            Orientation::Horizontal => p.y,
            Orientation::Vertical => p.x,
        }
    }

    /// Distance of tick `i` from the start of the plot area, in pixels.
    pub open spec fn tick_offset(self, i: nat) -> nat {
        round_div(self.usable() * i, self.tick_count as nat)
    }

    /// The pixel, along the axis, on which `value` falls: its distance from
    /// `min_value` scaled by usable pixels per unit of range, rounded, taken
    /// back by one if it lands exactly on the extent, after the leading
    /// margin.
    pub open spec fn pixel_of(self, value: int) -> int {
        let index = round_div(((value - self.min_value) * self.usable()) as nat, self.range());
        let kept = if index == self.extent { index - 1 } else { index as int };
        kept + LEFT_SHIFT
    }

    /// The point that lies `along` the axis and `across` it.
    pub open spec fn place(self, along: int, across: int) -> DisplayPoint {
        match self.orientation {
            Orientation::Horizontal => DisplayPoint { x: along as usize, y: across as usize },
            Orientation::Vertical => DisplayPoint { x: across as usize, y: along as usize },
        }
    }

    /// The solid line, from the origin of the plot area to the far edge.
    pub open spec fn shaft(self) -> Seq<DisplayPoint> {
        Seq::new(
            (self.extent - LEFT_SHIFT) as nat,
            |k: int| self.place(LEFT_SHIFT + k, LEFT_SHIFT as int),
        )
    }

    /// The arrowhead: two strokes that fall back from the tip, one on each
    /// side of the line.
    pub open spec fn arrow(self) -> Seq<DisplayPoint> {
        Seq::new(
            2 * H_ARROW_HALF as nat,
            |k: int|
                self.place(
                    self.extent - 2 - k / 2,
                    if k % 2 == 0 {
                        LEFT_SHIFT - 1 - k / 2
                    } else {
                        LEFT_SHIFT + 1 + k / 2
                    },
                ),
        )
    }

    /// One mark per tick, on the outer side of the line.
    pub open spec fn tick_marks(self) -> Seq<DisplayPoint> {
        Seq::new(
            self.tick_count as nat,
            |i: int| self.place(LEFT_SHIFT + self.tick_offset(i as nat), LEFT_SHIFT - 1),
        )
    }

    /// Every pixel of the drawn axis: line, arrowhead, tick marks.
    pub open spec fn points(self) -> Seq<DisplayPoint> {
        self.shaft() + self.arrow() + self.tick_marks()
    }

    /// The calibration of a range is well formed, whichever way it is
    /// turned.
    pub proof fn lemma_calibration_wf(max_value: i64, min_value: i64, extent: usize)
        requires
            min_value < max_value,
            extent >= MIN_EXTENT,
        ensures
            Axis::calibration(max_value, min_value, extent).wf(),
            Axis::calibration(max_value, min_value, extent).rotated().wf(),
    {
        let range = (max_value - min_value) as nat;
        let step = nice_interval(range);
        lemma_nice_interval_covers(range);
        assert(step >= 1) by {
            if step == 0 {
                assert(!is_nice(0));
            }
        }
        assert(step <= range) by {
            if range <= 10 {
                assert(step == 1);
            }
        }
        lemma_round_div_exact(10, step);
        lemma_round_div_monotone(range, 10 * step, step);
    }

    /// A calibrated axis has between one and ten ticks, at least four of them
    /// when the range is wider than ten units.
    pub proof fn lemma_tick_count(self)
        requires
            self.wf(),
        ensures
            1 <= self.tick_count <= MAX_TICKS,
            1 <= self.tick_interval <= self.range(),
            self.range() > 10 ==> self.tick_count >= 4,
    {
        let range = self.range();
        let step = self.tick_interval as nat;
        lemma_nice_interval_covers(range);
        assert(step >= 1) by {
            if step == 0 {
                assert(!is_nice(0));
            }
        }
        lemma_round_div_exact(10, step);
        lemma_round_div_monotone(range, 10 * step, step);
        if range > 10 {
            lemma_round_div_exact(4, step);
            lemma_round_div_monotone(4 * step, range, step);
        } else {
            assert(step == 1);
            lemma_round_div_exact(range, 1);
            assert(range * 1 == range);
        }
    }

    /// Ticks stay inside the plot area and keep their order.
    pub proof fn lemma_tick_offset(self, i: nat)
        requires
            self.wf(),
            i <= self.tick_count,
        ensures
            self.tick_offset(i) <= self.usable(),
            self.tick_offset(0) == 0,
            self.tick_offset(self.tick_count as nat) == self.usable(),
            i < self.tick_count ==> self.tick_offset(i) <= self.tick_offset(i + 1),
    {
        self.lemma_tick_count();
        let n = self.tick_count as nat;
        let u = self.usable();
        lemma_round_div_fraction(i, u, n);
        assert(i * u == u * i) by (nonlinear_arith);
        assert(u * 0 == 0);
        lemma_round_div_exact(0, n);
        assert(0 * n == 0);
        lemma_round_div_exact(u, n);
        if i < n {
            assert(u * i <= u * (i + 1)) by (nonlinear_arith);
            lemma_round_div_monotone(u * i, u * (i + 1), n);
        }
    }

    /// The drawn axis stays on the canvas: along the axis it runs from the
    /// leading margin to the far edge, and across it reaches no further than
    /// the arrowhead.
    pub proof fn lemma_points_within(self, i: int)
        requires
            self.wf(),
            0 <= i < self.points().len(),
        ensures
            LEFT_SHIFT <= self.along(self.points()[i]) < self.extent,
            LEFT_SHIFT - H_ARROW_HALF <= self.across(self.points()[i]) <= LEFT_SHIFT
                + H_ARROW_HALF,
    {
        let shaft = self.shaft().len();
        let arrow = self.arrow().len();
        if i >= shaft + arrow {
            let tick = (i - shaft - arrow) as nat;
            self.lemma_tick_offset(tick);
            assert(self.points()[i] == self.tick_marks()[tick as int]);
        } else if i >= shaft {
            assert(self.points()[i] == self.arrow()[i - shaft]);
        } else {
            assert(self.points()[i] == self.shaft()[i]);
        }
    }

    /// The least value of the range falls on the first pixel of the plot
    /// area and the greatest on its last; every value between them falls
    /// between the two, so the index is never taken back.
    pub proof fn lemma_pixel_of_range(self, value: int)
        requires
            self.wf(),
            self.min_value <= value <= self.max_value,
        ensures
            self.pixel_of(self.min_value as int) == LEFT_SHIFT,
            self.pixel_of(self.max_value as int) == self.extent - RIGHT_SHIFT,
            LEFT_SHIFT <= self.pixel_of(value) <= self.extent - RIGHT_SHIFT,
            self.pixel_of(value) == LEFT_SHIFT + round_div(
                ((value - self.min_value) * self.usable()) as nat,
                self.range(),
            ),
    {
        let r = self.range();
        let u = self.usable();
        let a = (value - self.min_value) as nat;
        assert(0 * u == 0);
        lemma_round_div_exact(0, r);
        assert(0 * r == 0);
        lemma_round_div_exact(u, r);
        assert(r * u == u * r) by (nonlinear_arith);
        lemma_round_div_fraction(a, u, r);
        assert((value - self.min_value) * u == a * u);
        assert((self.max_value - self.min_value) * u == r * u);
        assert((self.min_value - self.min_value) * u == 0 * u);
    }

    /// A greater value never falls on an earlier pixel.
    pub proof fn lemma_pixel_of_monotone(self, v1: int, v2: int)
        requires
            self.wf(),
            self.min_value <= v1 <= v2 <= self.max_value,
        ensures
            self.pixel_of(v1) <= self.pixel_of(v2),
    {
        let u = self.usable();
        let a1 = (v1 - self.min_value) as nat;
        let a2 = (v2 - self.min_value) as nat;
        self.lemma_pixel_of_range(v1);
        self.lemma_pixel_of_range(v2);
        assert(a1 * u <= a2 * u) by (nonlinear_arith)
            requires
                a1 <= a2,
        ;
        assert((v1 - self.min_value) * u == a1 * u);
        assert((v2 - self.min_value) * u == a2 * u);
        lemma_round_div_monotone(a1 * u, a2 * u, self.range());
    }

    /// Calibrates an axis that shows the values from `min_value` to
    /// `max_value` on `extent` pixels. The axis comes out horizontal.
    pub fn calculate_axis(max_value: i64, min_value: i64, extent: usize) -> (axis: Axis)
        requires
            min_value < max_value,
            extent >= MIN_EXTENT,
        ensures
            axis == Axis::calibration(max_value, min_value, extent),
            axis.wf(),
    {
        let range: u64 = ((max_value as i128) - (min_value as i128)) as u64;
        let step: u64 = interval_for(range);
        proof {
            lemma_nice_interval_covers(range as nat);
            assert(step >= 1) by {
                if step == 0 {
                    assert(!is_nice(0));
                }
            }
            lemma_round_div_exact(10, step as nat);
            lemma_round_div_monotone(range as nat, 10 * step as nat, step as nat);
        }
        let count: u128 = rounded_quotient(range as u128, step as u128);
        Axis {
            min_value,
            max_value,
            tick_interval: step,
            tick_count: count as usize,
            extent,
            orientation: Orientation::Horizontal,
        }
    }

    /// The same calibration for the other direction of the canvas.
    pub fn rotate(self) -> (turned: Axis)
        ensures
            turned == self.rotated(),
    {
        let orientation = match self.orientation {
            Orientation::Horizontal => Orientation::Vertical,
            Orientation::Vertical => Orientation::Horizontal,
        };
        Axis {
            min_value: self.min_value,
            max_value: self.max_value,
            tick_interval: self.tick_interval,
            tick_count: self.tick_count,
            extent: self.extent,
            orientation,
        }
    }

    /// The spacing between two ticks in pixels, as the ratio of the pixels
    /// of the plot area to the number of ticks.
    pub fn tick_pixel_spacing(&self) -> (ratio: (usize, usize))
        requires
            self.wf(),
        ensures
            ratio.0 == self.usable(),
            ratio.1 == self.tick_count,
            ratio.1 >= 1,
    {
        proof {
            self.lemma_tick_count();
        }
        (self.extent - LEFT_SHIFT - RIGHT_SHIFT, self.tick_count)
    }

    /// The pixel, along the axis, of tick `i`.
    pub fn tick_pixel(&self, i: usize) -> (p: usize)
        requires
            self.wf(),
            i <= self.tick_count,
        ensures
            p == LEFT_SHIFT + self.tick_offset(i as nat),
            LEFT_SHIFT <= p <= self.extent - RIGHT_SHIFT,
    {
        let usable: usize = self.extent - LEFT_SHIFT - RIGHT_SHIFT;
        proof {
            self.lemma_tick_count();
            self.lemma_tick_offset(i as nat);
            assert(usable * i <= u64::MAX * 10) by (nonlinear_arith)
                requires
                    usable <= u64::MAX,
                    i <= 10,
            ;
        }
        let offset: u128 = rounded_quotient(
            (usable as u128) * (i as u128),
            self.tick_count as u128,
        );
        LEFT_SHIFT + offset as usize
    }

    /// The pixel, along the axis, on which `value` falls.
    pub fn pixel(&self, value: i64) -> (p: usize)
        requires
            self.wf(),
            self.min_value <= value <= self.max_value,
        ensures
            p == self.pixel_of(value as int),
            LEFT_SHIFT <= p <= self.extent - RIGHT_SHIFT,
    {
        let usable: usize = self.extent - LEFT_SHIFT - RIGHT_SHIFT;
        let range: u128 = ((self.max_value as i128) - (self.min_value as i128)) as u128;
        let ahead: u128 = ((value as i128) - (self.min_value as i128)) as u128;
        proof {
            self.lemma_pixel_of_range(value as int);
            assert(ahead * usable <= u64::MAX * u64::MAX) by (nonlinear_arith)
                requires
                    ahead <= u64::MAX,
                    usable <= u64::MAX,
            ;
            assert((value - self.min_value) * self.usable() == ahead * usable);
        }
        let index: u128 = rounded_quotient(ahead * (usable as u128), range);
        let kept: u128 = if index == self.extent as u128 { index - 1 } else { index };
        kept as usize + LEFT_SHIFT
    }

    /// The point that lies `along` the axis and `across` it.
    pub fn put(&self, along: usize, across: usize) -> (p: DisplayPoint)
        ensures
            p == self.place(along as int, across as int),
    {
        match self.orientation {
            Orientation::Horizontal => DisplayPoint { x: along, y: across },
            Orientation::Vertical => DisplayPoint { x: across, y: along },
        }
    }

    /// Every pixel of the drawn axis: line, arrowhead, tick marks.
    pub fn create_points(&self) -> (points: Vec<DisplayPoint>)
        requires
            self.wf(),
        ensures
            points@ == self.points(),
    {
        let mut points: Vec<DisplayPoint> = Vec::new();
        let mut along: usize = LEFT_SHIFT;
        while along < self.extent
            invariant
                self.wf(),
                LEFT_SHIFT <= along <= self.extent,
                points@ == self.shaft().take(along - LEFT_SHIFT),
            decreases self.extent - along,
        {
            points.push(self.put(along, LEFT_SHIFT));
            along = along + 1;
            assert(points@ =~= self.shaft().take(along - LEFT_SHIFT));
        }
        assert(points@ =~= self.shaft());
        let mut back: usize = 0;
        while back < H_ARROW_HALF
            invariant
                self.wf(),
                back <= H_ARROW_HALF,
                points@ == self.shaft() + self.arrow().take(2 * back),
            decreases H_ARROW_HALF - back,
        {
            points.push(self.put(self.extent - 2 - back, LEFT_SHIFT - 1 - back));
            points.push(self.put(self.extent - 2 - back, LEFT_SHIFT + 1 + back));
            back = back + 1;
            assert(points@ =~= self.shaft() + self.arrow().take(2 * back));
        }
        assert(points@ =~= self.shaft() + self.arrow());
        let mut i: usize = 0;
        while i < self.tick_count
            invariant
                self.wf(),
                i <= self.tick_count,
                points@ == self.shaft() + self.arrow() + self.tick_marks().take(i as int),
            decreases self.tick_count - i,
        {
            let at: usize = self.tick_pixel(i);
            points.push(self.put(at, LEFT_SHIFT - 1));
            i = i + 1;
            assert(points@ =~= self.shaft() + self.arrow() + self.tick_marks().take(i as int));
        }
        assert(points@ =~= self.points());
        points
    }
}

/// Computes the tick interval for a range.
fn interval_for(range: u64) -> (step: u64)
    requires
        range >= 1,
    ensures
        step == nice_interval(range as nat),
{
    let mut unit: u64 = 1;
    let mut rest: u64 = range;
    while rest > 50
        invariant
            rest >= 1,
            unit >= 1,
            unit * (rest - 1) < range,
            nice_interval(range as nat) == unit * nice_interval(rest as nat),
        decreases rest,
    {
        let up: u64 = (rest - 1) / 10 + 1;
        assert(up == (rest + 9) / 10);
        assert((10 * unit) * (up - 1) <= unit * (rest - 1) && unit * 50 <= unit * (rest - 1))
            by (nonlinear_arith)
            requires
                10 * (up - 1) <= rest - 1,
                50 <= rest - 1,
                unit >= 1,
        ;
        assert(unit * (10 * nice_interval(up as nat)) == (10 * unit) * nice_interval(up as nat))
            by (nonlinear_arith);
        unit = unit * 10;
        rest = up;
    }
    proof {
        if rest > 10 {
            assert(unit * 10 <= unit * (rest - 1)) by (nonlinear_arith)
                requires
                    10 <= rest - 1,
                    unit >= 1,
            ;
        }
        assert(unit * 1 == unit && unit * 2 == 2 * unit && unit * 5 == 5 * unit);
    }
    if rest <= 10 {
        unit
    } else if rest <= 20 {
        2 * unit
    } else {
        5 * unit
    }
}

} // verus!
