//! Series, canvas and the rendering pipeline.

use crate::axis::{Axis, Orientation};
use crate::bitmap::{
    color_value, encodable, encode, lemma_encode_len, palette_index, palette_with, BitMap,
    BitMapView, HEADER_SIZE, PALETTE_CAPACITY,
};
use crate::canvas::{lemma_paint_covers, paint, paint_points, pixel_index, within};
use crate::layout::{H_ARROW_HALF, LEFT_SHIFT, MIN_EXTENT, RIGHT_SHIFT};
use crate::line::{extrapolate, lemma_polyline_within, polyline};
use vstd::prelude::*;

verus! {

/// Why a series or a chart could not be made.
#[derive(PartialEq, Eq, Structural, Clone, Copy, Debug)]
pub enum GraphError {
    /// A series needs two points at least.
    NotEnoughPoints,
    /// The canvas is narrower or lower than the margins need.
    NotEnoughSpace,
    /// Every point of the series is the same point.
    NonUniquePoints,
    /// The palette has no free place for one more color.
    PaletteFull,
}

impl GraphError {
    /// The message of each error.
    pub open spec fn message(self) -> Seq<char> {
        match self {
            GraphError::NotEnoughPoints => "There are not enough points to display on graph."@,
            GraphError::NotEnoughSpace => "There are not enough width and height to form graph with axis."@,
            GraphError::NonUniquePoints => "There are only one unique point. Can't construct line."@,
            GraphError::PaletteFull => "There are no free places for a color in palette."@,
        }
    }

    /// The message of the error.
    pub fn description(&self) -> (text: &'static str)
        ensures
            text@ == self.message(),
    {
        match self {
            GraphError::NotEnoughPoints => "There are not enough points to display on graph.",
            GraphError::NotEnoughSpace => "There are not enough width and height to form graph with axis.",
            GraphError::NonUniquePoints => "There are only one unique point. Can't construct line.",
            GraphError::PaletteFull => "There are no free places for a color in palette.",
        }
    }

    /// The message of the error, owned.
    pub fn to_string(&self) -> (text: String)
        ensures
            text@ == self.message(),
    {
        self.description().to_owned()
    }
}

/// The encoded image, or the reason there is none.
pub type GraphResult = Result<Vec<u8>, GraphError>;

/// A data point, in whole units of the caller's choice.
#[derive(PartialEq, Eq, Structural, Clone, Copy, Debug)]
pub struct Point {
    pub x: i64,
    pub y: i64,
}

impl From<(i64, i64)> for Point {
    fn from(t: (i64, i64)) -> (p: Point) {
        Point { x: t.0, y: t.1 }
    }
}

impl vstd::std_specs::convert::FromSpecImpl<(i64, i64)> for Point {
    open spec fn obeys_from_spec() -> bool {
        true
    }

    open spec fn from_spec(t: (i64, i64)) -> Point {
        Point { x: t.0, y: t.1 }
    }
}

impl<'a> From<&'a (i64, i64)> for Point {
    fn from(t: &'a (i64, i64)) -> (p: Point) {
        Point { x: t.0, y: t.1 }
    }
}

impl<'a> vstd::std_specs::convert::FromSpecImpl<&'a (i64, i64)> for Point {
    open spec fn obeys_from_spec() -> bool {
        true
    }

    open spec fn from_spec(t: &'a (i64, i64)) -> Point {
        Point { x: t.0, y: t.1 }
    }
}

/// A position on the canvas: column `x`, row `y`, origin at the top left.
#[derive(PartialEq, Eq, Structural, Clone, Copy, Debug)]
pub struct DisplayPoint {
    pub x: usize,
    pub y: usize,
}

/// Whether every point of the sequence equals the first.
pub open spec fn all_same(points: Seq<Point>) -> bool {
    forall|i: int| 0 <= i < points.len() ==> #[trigger] points[i] == points[0]
}

/// Whether `lo` and `hi` are the least and the greatest `x` of the points.
pub open spec fn bounds_x(points: Seq<Point>, lo: int, hi: int) -> bool {
    &&& forall|i: int| 0 <= i < points.len() ==> lo <= (#[trigger] points[i]).x <= hi
    &&& exists|i: int| 0 <= i < points.len() && (#[trigger] points[i]).x == lo
    &&& exists|i: int| 0 <= i < points.len() && (#[trigger] points[i]).x == hi
}

/// Whether `lo` and `hi` are the least and the greatest `y` of the points.
pub open spec fn bounds_y(points: Seq<Point>, lo: int, hi: int) -> bool {
    &&& forall|i: int| 0 <= i < points.len() ==> lo <= (#[trigger] points[i]).y <= hi
    &&& exists|i: int| 0 <= i < points.len() && (#[trigger] points[i]).y == lo
    &&& exists|i: int| 0 <= i < points.len() && (#[trigger] points[i]).y == hi
}

/// The least coordinate of a set of points is not above the greatest.
pub proof fn lemma_bounds_ordered(points: Seq<Point>, min_x: int, max_x: int, min_y: int, max_y: int)
    requires
        bounds_x(points, min_x, max_x),
        bounds_y(points, min_y, max_y),
    ensures
        min_x <= max_x,
        min_y <= max_y,
{
    let i = choose|i: int| 0 <= i < points.len() && (#[trigger] points[i]).x == min_x;
    assert(min_x <= points[i].x <= max_x);
    let j = choose|j: int| 0 <= j < points.len() && (#[trigger] points[j]).y == min_y;
    assert(min_y <= points[j].y <= max_y);
}

/// What a series holds.
pub struct SerieView {
    pub points: Seq<Point>,
    pub color: Seq<char>,
    pub max_x: int,
    pub max_y: int,
    pub min_x: int,
    pub min_y: int,
}

/// A stream of points to plot as one line, with its bounds.
#[derive(Debug)]
pub struct Serie<'a> {
    pub points: Vec<Point>,
    color: &'a str,
    max_x: i64,
    max_y: i64,
    min_x: i64,
    min_y: i64,
}

impl<'a> View for Serie<'a> {
    type V = SerieView;

    closed spec fn view(&self) -> SerieView {
        SerieView {
            points: self.points@,
            color: self.color@,
            max_x: self.max_x as int,
            max_y: self.max_y as int,
            min_x: self.min_x as int,
            min_y: self.min_y as int,
        }
    }
}

impl<'a> Serie<'a> {
    /// The series has two points or more, not all the same, and its bounds
    /// are the least and greatest coordinates among them.
    pub open spec fn wf(&self) -> bool {
        &&& self@.points.len() >= 2
        &&& !all_same(self@.points)
        &&& bounds_x(self@.points, self@.min_x, self@.max_x)
        &&& bounds_y(self@.points, self@.min_y, self@.max_y)
    }

    /// Makes a series of the points, to be drawn in `color`.
    ///
    /// Fewer than two points are refused, and so are points that are all the
    /// same: they give a line no direction.
    pub fn new(points: Vec<Point>, color: &'a str) -> (result: Result<Self, GraphError>)
        ensures
            points@.len() < 2 ==> result == Err::<Self, GraphError>(GraphError::NotEnoughPoints),
            points@.len() >= 2 && all_same(points@) ==> result == Err::<Self, GraphError>(
                GraphError::NonUniquePoints,
            ),
            points@.len() >= 2 && !all_same(points@) ==> result is Ok,
            result matches Ok(serie) ==> {
                &&& serie.wf()
                &&& serie@.points == points@
                &&& serie@.color == color@
                &&& forall|i: int|
                    0 <= i < points@.len() ==> {
                        &&& serie@.min_x <= (#[trigger] points@[i]).x <= serie@.max_x
                        &&& serie@.min_y <= points@[i].y <= serie@.max_y
                    }
            },
    {
        if points.len() < 2 {
            return Err(GraphError::NotEnoughPoints);
        }
        let first: Point = points[0];
        let mut differs: bool = false;
        let mut i: usize = 1;
        while i < points.len()
            invariant
                1 <= i <= points.len(),
                first == points@[0],
                differs <==> exists|j: int| 0 <= j < i && #[trigger] points@[j] != points@[0],
            decreases points.len() - i,
        {
            if points[i].x != first.x || points[i].y != first.y {
                differs = true;
            }
            i = i + 1;
        }
        if !differs {
            return Err(GraphError::NonUniquePoints);
        }
        let (max_x, min_x, max_y, min_y) = Self::calculate_max_min(&points);
        Ok(Serie { points, color, max_x, max_y, min_x, min_y })
    }

    /// Scans the points once for the greatest and least of each coordinate,
    /// in the order greatest `x`, least `x`, greatest `y`, least `y`. Each
    /// bound starts at the far end of the number range and is relaxed by
    /// every point, so no points leave the bounds at those ends.
    fn calculate_max_min(points: &Vec<Point>) -> (bounds: (i64, i64, i64, i64))
        ensures
            points@.len() == 0 ==> bounds == (i64::MIN, i64::MAX, i64::MIN, i64::MAX),
            points@.len() > 0 ==> bounds_x(points@, bounds.1 as int, bounds.0 as int),
            points@.len() > 0 ==> bounds_y(points@, bounds.3 as int, bounds.2 as int),
    {
        let mut min_x: i64 = i64::MAX;
        let mut max_x: i64 = i64::MIN;
        let mut min_y: i64 = i64::MAX;
        let mut max_y: i64 = i64::MIN;
        let mut i: usize = 0;
        while i < points.len()
            invariant
                i <= points.len(),
                i == 0 ==> (max_x, min_x, max_y, min_y) == (i64::MIN, i64::MAX, i64::MIN, i64::MAX),
                i > 0 ==> bounds_x(points@.take(i as int), min_x as int, max_x as int),
                i > 0 ==> bounds_y(points@.take(i as int), min_y as int, max_y as int),
            decreases points.len() - i,
        {
            let p: Point = points[i];
            let ghost before = points@.take(i as int);
            let ghost after = points@.take(i + 1);
            proof {
                assert(after[i as int] == p);
                assert forall|j: int| 0 <= j < i implies #[trigger] after[j] == before[j] by {}
                if i > 0 {
                    let wx = choose|j: int| 0 <= j < i && (#[trigger] before[j]).x == min_x;
                    assert(after[wx].x == min_x);
                    let vx = choose|j: int| 0 <= j < i && (#[trigger] before[j]).x == max_x;
                    assert(after[vx].x == max_x);
                    let wy = choose|j: int| 0 <= j < i && (#[trigger] before[j]).y == min_y;
                    assert(after[wy].y == min_y);
                    let vy = choose|j: int| 0 <= j < i && (#[trigger] before[j]).y == max_y;
                    assert(after[vy].y == max_y);
                }
            }
            if p.x > max_x {
                max_x = p.x;
            }
            if p.x < min_x {
                min_x = p.x;
            }
            if p.y > max_y {
                max_y = p.y;
            }
            if p.y < min_y {
                min_y = p.y;
            }
            i = i + 1;
        }
        assert(points@.take(i as int) =~= points@);
        (max_x, min_x, max_y, min_y)
    }

    /// The color in which the series is drawn.
    pub fn color(&self) -> (color: &'a str)
        ensures
            color@ == self@.color,
    {
        self.color
    }

    /// The greatest `x` among the points.
    pub fn max_x(&self) -> (v: i64)
        ensures
            v == self@.max_x,
    {
        self.max_x
    }

    /// The greatest `y` among the points.
    pub fn max_y(&self) -> (v: i64)
        ensures
            v == self@.max_y,
    {
        self.max_y
    }

    /// The least `x` among the points.
    pub fn min_x(&self) -> (v: i64)
        ensures
            v == self@.min_x,
    {
        self.min_x
    }

    /// The least `y` among the points.
    pub fn min_y(&self) -> (v: i64)
        ensures
            v == self@.min_y,
    {
        self.min_y
    }
}

/// The range that an axis shows for data between `lo` and `hi`. Data that
/// does not vary in a dimension has no range of its own there: it is shown
/// on a range one unit wide.
pub open spec fn shown_range(lo: i64, hi: i64) -> (i64, i64) {
    if lo < hi {
        (lo, hi)
    } else if lo < i64::MAX {
        (lo, (lo + 1) as i64)
    } else {
        ((lo - 1) as i64, lo)
    }
}

/// The horizontal axis of a series on a canvas `width` pixels wide.
pub open spec fn axis_x_of(serie: SerieView, width: nat) -> Axis {
    let (lo, hi) = shown_range(serie.min_x as i64, serie.max_x as i64);
    Axis::calibration(hi, lo, width as usize)
}

/// The vertical axis of a series on a canvas `height` pixels high.
pub open spec fn axis_y_of(serie: SerieView, height: nat) -> Axis {
    let (lo, hi) = shown_range(serie.min_y as i64, serie.max_y as i64);
    Axis::calibration(hi, lo, height as usize).rotated()
}

/// A dashed line across an axis at the pixel `at` along it: every odd pixel
/// from the leading margin up to `until`, which is left out.
pub open spec fn dashes(axis: Axis, at: int, until: int) -> Seq<DisplayPoint> {
    Seq::new(
        ((until - LEFT_SHIFT) / 2) as nat,
        |k: int| axis.place(at, LEFT_SHIFT + 1 + 2 * k),
    )
}

/// The dashed lines through the first `ticks` ticks of an axis.
pub open spec fn net(axis: Axis, until: int, ticks: nat) -> Seq<DisplayPoint>
    decreases ticks,
{
    if ticks == 0 {
        Seq::empty()
    } else {
        net(axis, until, (ticks - 1) as nat) + dashes(
            axis,
            LEFT_SHIFT + axis.tick_offset((ticks - 1) as nat),
            until,
        )
    }
}

/// The minor grid: a dashed line through every tick of the horizontal axis,
/// then one through every tick of the vertical axis. The lines stop short
/// of the far edges by half an arrowhead.
pub open spec fn minor_net(axis_x: Axis, axis_y: Axis, width: nat, height: nat) -> Seq<
    DisplayPoint,
> {
    net(axis_x, height - H_ARROW_HALF, axis_x.tick_count as nat) + net(
        axis_y,
        width - H_ARROW_HALF,
        axis_y.tick_count as nat,
    )
}

/// The pixels of the data points under the two axes.
pub open spec fn mapped(points: Seq<Point>, axis_x: Axis, axis_y: Axis) -> Seq<DisplayPoint> {
    Seq::new(
        points.len(),
        |i: int|
            DisplayPoint {
                x: axis_x.pixel_of(points[i].x as int) as usize,
                y: axis_y.pixel_of(points[i].y as int) as usize,
            },
    )
}

/// The buffer once both axes and the minor grid are painted.
pub open spec fn with_axes(chart: ChartView, axis_x: Axis, axis_y: Axis) -> Seq<u8> {
    let first = paint(chart.pixels, chart.width, axis_x.points(), chart.axis_color);
    let second = paint(first, chart.width, axis_y.points(), chart.axis_color);
    paint(
        second,
        chart.width,
        minor_net(axis_x, axis_y, chart.width, chart.height),
        chart.axis_color,
    )
}

/// The chart once a series is drawn on it with the palette index
/// `line_color`: the axes of the series are kept, they and the grid are
/// painted in the axis color, and over them the gap-free line through the
/// pixels of the data points.
pub open spec fn rendered(chart: ChartView, serie: SerieView, line_color: u8) -> ChartView {
    let axis_x = axis_x_of(serie, chart.width);
    let axis_y = axis_y_of(serie, chart.height);
    ChartView {
        pixels: paint(
            with_axes(chart, axis_x, axis_y),
            chart.width,
            polyline(mapped(serie.points, axis_x, axis_y)),
            line_color,
        ),
        palette: palette_with(chart.palette, color_value(serie.color)),
        axis_x: Some(axis_x),
        axis_y: Some(axis_y),
        ..chart
    }
}

/// The axes of a well-formed series are well formed, as long as the canvas
/// in their direction, and wide enough to show every point.
pub proof fn lemma_axes_of(serie: SerieView, width: nat, height: nat)
    requires
        bounds_x(serie.points, serie.min_x, serie.max_x),
        bounds_y(serie.points, serie.min_y, serie.max_y),
        i64::MIN <= serie.min_x && serie.max_x <= i64::MAX,
        i64::MIN <= serie.min_y && serie.max_y <= i64::MAX,
        MIN_EXTENT <= width <= usize::MAX,
        MIN_EXTENT <= height <= usize::MAX,
    ensures
        axis_x_of(serie, width).wf(),
        axis_x_of(serie, width).extent == width,
        axis_x_of(serie, width).orientation == Orientation::Horizontal,
        axis_y_of(serie, height).wf(),
        axis_y_of(serie, height).extent == height,
        axis_y_of(serie, height).orientation == Orientation::Vertical,
        forall|i: int|
            0 <= i < serie.points.len() ==> {
                &&& axis_x_of(serie, width).min_value <= (#[trigger] serie.points[i]).x
                    <= axis_x_of(serie, width).max_value
                &&& axis_y_of(serie, height).min_value <= serie.points[i].y <= axis_y_of(
                    serie,
                    height,
                ).max_value
            },
{
    lemma_bounds_ordered(serie.points, serie.min_x, serie.max_x, serie.min_y, serie.max_y);
    let (lo_x, hi_x) = shown_range(serie.min_x as i64, serie.max_x as i64);
    let (lo_y, hi_y) = shown_range(serie.min_y as i64, serie.max_y as i64);
    Axis::lemma_calibration_wf(hi_x, lo_x, width as usize);
    Axis::lemma_calibration_wf(hi_y, lo_y, height as usize);
}

/// A drawn axis lies on every canvas that is as long as the axis and has
/// room for the margins.
pub proof fn lemma_axis_within(axis: Axis, width: nat, height: nat)
    requires
        axis.wf(),
        width >= MIN_EXTENT,
        height >= MIN_EXTENT,
        axis.orientation == Orientation::Horizontal ==> axis.extent == width,
        axis.orientation == Orientation::Vertical ==> axis.extent == height,
    ensures
        within(axis.points(), width, height),
{
    assert forall|i: int| 0 <= i < axis.points().len() implies (#[trigger] axis.points()[i]).x
        < width && axis.points()[i].y < height by {
        axis.lemma_points_within(i);
    }
}

/// The dashed lines of an axis lie on the canvas.
pub proof fn lemma_net_within(axis: Axis, until: int, ticks: nat, width: nat, height: nat)
    requires
        axis.wf(),
        ticks <= axis.tick_count,
        until >= LEFT_SHIFT,
        width >= MIN_EXTENT,
        height >= MIN_EXTENT,
        axis.orientation == Orientation::Horizontal ==> axis.extent == width && until <= height,
        axis.orientation == Orientation::Vertical ==> axis.extent == height && until <= width,
    ensures
        within(net(axis, until, ticks), width, height),
    decreases ticks,
{
    if ticks > 0 {
        let head = net(axis, until, (ticks - 1) as nat);
        let at = LEFT_SHIFT + axis.tick_offset((ticks - 1) as nat);
        lemma_net_within(axis, until, (ticks - 1) as nat, width, height);
        axis.lemma_tick_offset((ticks - 1) as nat);
        assert forall|i: int| 0 <= i < net(axis, until, ticks).len() implies (#[trigger] net(
            axis,
            until,
            ticks,
        )[i]).x < width && net(axis, until, ticks)[i].y < height by {
            if i >= head.len() {
                let k = i - head.len();
                assert(net(axis, until, ticks)[i] == dashes(axis, at, until)[k]);
                assert(LEFT_SHIFT + 1 + 2 * k < until);
            } else {
                assert(net(axis, until, ticks)[i] == head[i]);
            }
        }
    }
}

/// The pixels of data points inside the range of both axes lie in the plot
/// area.
pub proof fn lemma_mapped_within(points: Seq<Point>, axis_x: Axis, axis_y: Axis)
    requires
        axis_x.wf(),
        axis_y.wf(),
        forall|i: int|
            0 <= i < points.len() ==> {
                &&& axis_x.min_value <= (#[trigger] points[i]).x <= axis_x.max_value
                &&& axis_y.min_value <= points[i].y <= axis_y.max_value
            },
    ensures
        forall|i: int|
            0 <= i < points.len() ==> {
                &&& LEFT_SHIFT <= (#[trigger] mapped(points, axis_x, axis_y)[i]).x <= axis_x.extent
                    - RIGHT_SHIFT
                &&& LEFT_SHIFT <= mapped(points, axis_x, axis_y)[i].y <= axis_y.extent
                    - RIGHT_SHIFT
            },
        within(mapped(points, axis_x, axis_y), axis_x.extent as nat, axis_y.extent as nat),
{
    assert forall|i: int| 0 <= i < points.len() implies {
        &&& LEFT_SHIFT <= (#[trigger] mapped(points, axis_x, axis_y)[i]).x <= axis_x.extent
            - RIGHT_SHIFT
        &&& LEFT_SHIFT <= mapped(points, axis_x, axis_y)[i].y <= axis_y.extent - RIGHT_SHIFT
    } by {
        axis_x.lemma_pixel_of_range(points[i].x as int);
        axis_y.lemma_pixel_of_range(points[i].y as int);
    }
}

/// A data point at the least value of both axes falls on the first pixel of
/// the plot area in both directions, and one at the greatest value of both
/// on the last: the leading margin, and the extent less the trailing margin.
pub proof fn lemma_mapped_corners(points: Seq<Point>, axis_x: Axis, axis_y: Axis, i: int)
    requires
        axis_x.wf(),
        axis_y.wf(),
        0 <= i < points.len(),
    ensures
        points[i] == (Point { x: axis_x.min_value, y: axis_y.min_value }) ==> mapped(
            points,
            axis_x,
            axis_y,
        )[i] == (DisplayPoint { x: LEFT_SHIFT, y: LEFT_SHIFT }),
        points[i] == (Point { x: axis_x.max_value, y: axis_y.max_value }) ==> mapped(
            points,
            axis_x,
            axis_y,
        )[i] == (DisplayPoint {
            x: (axis_x.extent - RIGHT_SHIFT) as usize,
            y: (axis_y.extent - RIGHT_SHIFT) as usize,
        }),
{
    axis_x.lemma_pixel_of_range(axis_x.min_value as int);
    axis_y.lemma_pixel_of_range(axis_y.min_value as int);
}

/// On the drawn chart every pixel of the line lies on the canvas and has the
/// color of the series.
pub proof fn lemma_rendered_line(chart: ChartView, serie: SerieView, line_color: u8, k: int)
    requires
        MIN_EXTENT <= chart.width <= usize::MAX,
        MIN_EXTENT <= chart.height <= usize::MAX,
        chart.pixels.len() == chart.width * chart.height,
        bounds_x(serie.points, serie.min_x, serie.max_x),
        bounds_y(serie.points, serie.min_y, serie.max_y),
        i64::MIN <= serie.min_x && serie.max_x <= i64::MAX,
        i64::MIN <= serie.min_y && serie.max_y <= i64::MAX,
        0 <= k < polyline(
            mapped(
                serie.points,
                axis_x_of(serie, chart.width),
                axis_y_of(serie, chart.height),
            ),
        ).len(),
    ensures
        ({
            let line = polyline(
                mapped(
                    serie.points,
                    axis_x_of(serie, chart.width),
                    axis_y_of(serie, chart.height),
                ),
            );
            &&& line[k].x < chart.width
            &&& line[k].y < chart.height
            &&& 0 <= pixel_index(line[k], chart.width) < chart.pixels.len()
            &&& rendered(chart, serie, line_color).pixels[pixel_index(line[k], chart.width)]
                == line_color
        }),
{
    let axis_x = axis_x_of(serie, chart.width);
    let axis_y = axis_y_of(serie, chart.height);
    let line = polyline(mapped(serie.points, axis_x, axis_y));
    lemma_axes_of(serie, chart.width, chart.height);
    lemma_mapped_within(serie.points, axis_x, axis_y);
    lemma_polyline_within(mapped(serie.points, axis_x, axis_y), chart.width, chart.height);
    let p = line[k];
    let w = chart.width;
    let h = chart.height;
    assert(0 <= p.y * w + p.x < w * h) by (nonlinear_arith)
        requires
            0 <= p.x < w,
            0 <= p.y < h,
    ;
    lemma_paint_covers(
        with_axes(chart, axis_x, axis_y),
        w,
        line,
        line_color,
        pixel_index(p, w),
    );
}

/// Picks the range that an axis shows for data between `lo` and `hi`.
fn range_to_show(lo: i64, hi: i64) -> (range: (i64, i64))
    requires
        lo <= hi,
    ensures
        range == shown_range(lo, hi),
        range.0 < range.1,
        range.0 <= lo,
        hi <= range.1,
{
    if lo < hi {
        (lo, hi)
    } else if lo < i64::MAX {
        (lo, lo + 1)
    } else {
        (lo - 1, lo)
    }
}

/// Appends a dashed line through every tick of the axis.
fn push_net(net_points: &mut Vec<DisplayPoint>, axis: &Axis, until: usize)
    requires
        axis.wf(),
        until >= LEFT_SHIFT,
    ensures
        final(net_points)@ == old(net_points)@ + net(*axis, until as int, axis.tick_count as nat),
{
    let ghost before = net_points@;
    let mut i: usize = 0;
    assert(net_points@ =~= before + net(*axis, until as int, 0));
    while i < axis.tick_count
        invariant
            axis.wf(),
            until >= LEFT_SHIFT,
            i <= axis.tick_count,
            net_points@ == before + net(*axis, until as int, i as nat),
        decreases axis.tick_count - i,
    {
        let shift: usize = axis.tick_pixel(i);
        let ghost done = net_points@;
        let mut j: usize = LEFT_SHIFT;
        assert(net_points@ =~= done + dashes(*axis, shift as int, j as int));
        while j < until
            invariant
                LEFT_SHIFT <= j <= until,
                net_points@ == done + dashes(*axis, shift as int, j as int),
            decreases until - j,
        {
            if j % 2 != 0 {
                net_points.push(axis.put(shift, j));
            }
            j = j + 1;
            assert(net_points@ =~= done + dashes(*axis, shift as int, j as int));
        }
        i = i + 1;
        assert(net_points@ =~= before + net(*axis, until as int, i as nat));
    }
}

/// What a chart holds.
pub struct ChartView {
    pub width: nat,
    pub height: nat,
    /// Palette index of the background.
    pub background_color: u8,
    /// Palette index of the axes and the grid.
    pub axis_color: u8,
    /// One palette index per pixel, row by row from the top left.
    pub pixels: Seq<u8>,
    /// The registered colors.
    pub palette: Seq<u32>,
    pub axis_x: Option<Axis>,
    pub axis_y: Option<Axis>,
}

impl ChartView {
    /// The image that the chart hands to the encoder.
    pub open spec fn image(self) -> BitMapView {
        BitMapView {
            width: self.width,
            height: self.height,
            palette: self.palette,
            pixels: self.pixels,
        }
    }
}

/// A canvas on which one series is drawn.
#[derive(Debug)]
pub struct Chart {
    width: usize,
    height: usize,
    background_color: u8,
    axis_color: u8,
    pixs: Vec<u8>,
    picture: BitMap,
    axis_x: Option<Axis>,
    axis_y: Option<Axis>,
}

impl View for Chart {
    type V = ChartView;

    closed spec fn view(&self) -> ChartView {
        ChartView {
            width: self.width as nat,
            height: self.height as nat,
            background_color: self.background_color,
            axis_color: self.axis_color,
            pixels: self.pixs@,
            palette: self.picture@.palette,
            axis_x: self.axis_x,
            axis_y: self.axis_y,
        }
    }
}

impl Chart {
    /// The image inside the chart has the size of the chart.
    pub closed spec fn consistent(&self) -> bool {
        &&& self.picture.wf()
        &&& self.picture@.width == self.width
        &&& self.picture@.height == self.height
    }

    /// The canvas has room for the margins, a pixel for each place, and no
    /// pixel or color index that the palette does not hold.
    pub open spec fn wf(&self) -> bool {
        &&& self.consistent()
        &&& self@.width >= MIN_EXTENT
        &&& self@.height >= MIN_EXTENT
        &&& encodable(self@.width, self@.height)
        &&& self@.pixels.len() == self@.width * self@.height
        &&& self@.palette.len() <= PALETTE_CAPACITY
        &&& self@.background_color < self@.palette.len()
        &&& self@.axis_color < self@.palette.len()
        &&& forall|i: int| 0 <= i < self@.pixels.len() ==> #[trigger] self@.pixels[i] < self@.palette.len()
    }

    /// Makes a chart of `width` by `height` pixels, filled with the
    /// background color.
    ///
    /// A canvas too small for the margins is refused. The size must be one
    /// that can be encoded.
    pub fn new(width: usize, height: usize, background_color: &str, axis_color: &str) -> (result:
        Result<Self, GraphError>)
        requires
            width >= MIN_EXTENT && height >= MIN_EXTENT ==> encodable(width as nat, height as nat),
        ensures
            width < MIN_EXTENT || height < MIN_EXTENT ==> result == Err::<Self, GraphError>(
                GraphError::NotEnoughSpace,
            ),
            width >= MIN_EXTENT && height >= MIN_EXTENT ==> result is Ok,
            result matches Ok(chart) ==> {
                &&& chart.wf()
                &&& chart@ == (ChartView {
                    width: width as nat,
                    height: height as nat,
                    background_color: 0,
                    axis_color: if color_value(axis_color@) == color_value(background_color@) {
                        0u8
                    } else {
                        1u8
                    },
                    pixels: Seq::new((width * height) as nat, |i: int| 0u8),
                    palette: palette_with(
                        seq![color_value(background_color@)],
                        color_value(axis_color@),
                    ),
                    axis_x: None,
                    axis_y: None,
                })
            },
    {
        if width < MIN_EXTENT || height < MIN_EXTENT {
            return Err(GraphError::NotEnoughSpace);
        }
        let mut picture = BitMap::new(width, height);
        let background_color_number: u8 = picture.add_color(background_color).unwrap();
        let ghost one = picture@.palette;
        assert(one =~= seq![color_value(background_color@)]);
        proof {
            if one.contains(color_value(axis_color@)) {
                assert(one[0] == color_value(axis_color@));
                assert(one.index_of(color_value(axis_color@)) == 0);
            }
        }
        let axis_color_number: u8 = picture.add_color(axis_color).unwrap();
        let size: usize = width * height;
        let pixs: Vec<u8> = vec![background_color_number; size];
        let chart = Chart {
            width,
            height,
            background_color: background_color_number,
            axis_color: axis_color_number,
            pixs,
            picture,
            axis_x: None,
            axis_y: None,
        };
        assert(chart@.pixels =~= Seq::new((width * height) as nat, |i: int| 0u8));
        Ok(chart)
    }

    /// Width of the canvas in pixels.
    pub fn width(&self) -> (w: usize)
        ensures
            w == self@.width,
    {
        self.width
    }

    /// Height of the canvas in pixels.
    pub fn height(&self) -> (h: usize)
        ensures
            h == self@.height,
    {
        self.height
    }

    /// Palette index of the background.
    pub fn background_color(&self) -> (index: u8)
        ensures
            index == self@.background_color,
    {
        self.background_color
    }

    /// Palette index of the axes and the grid.
    pub fn axis_color(&self) -> (index: u8)
        ensures
            index == self@.axis_color,
    {
        self.axis_color
    }

    /// The horizontal axis, once a series is drawn.
    pub fn axis_x(&self) -> (axis: Option<Axis>)
        ensures
            axis == self@.axis_x,
    {
        self.axis_x
    }

    /// The vertical axis, once a series is drawn.
    pub fn axis_y(&self) -> (axis: Option<Axis>)
        ensures
            axis == self@.axis_y,
    {
        self.axis_y
    }

    /// The palette index at column `x`, row `y`.
    pub fn pixel(&self, x: usize, y: usize) -> (index: u8)
        requires
            self.wf(),
            x < self@.width,
            y < self@.height,
        ensures
            index == self@.pixels[y * self@.width + x],
    {
        let total: usize = self.pixs.len();
        assert(0 <= y * self.width + x < total) by (nonlinear_arith)
            requires
                x < self.width,
                y < self.height,
                total == self.width * self.height,
        ;
        self.pixs[y * self.width + x]
    }

    /// Paints the points in the color at palette index `color`.
    pub fn draw_pixels(&mut self, points: Vec<DisplayPoint>, color: u8)
        requires
            old(self).wf(),
            color < old(self)@.palette.len(),
            within(points@, old(self)@.width, old(self)@.height),
        ensures
            final(self).wf(),
            final(self)@ == (ChartView {
                pixels: paint(old(self)@.pixels, old(self)@.width, points@, color),
                ..old(self)@
            }),
    {
        paint_points(&mut self.pixs, self.width, self.height, &points, color);
    }
    /// The minor grid of the two axes on this canvas.
    pub fn get_minor_net(&self, axis_x: &Axis, axis_y: &Axis) -> (v: Vec<DisplayPoint>)
        requires
            self.wf(),
            axis_x.wf(),
            axis_y.wf(),
        ensures
            v@ == minor_net(*axis_x, *axis_y, self@.width, self@.height),
    {
        let mut v: Vec<DisplayPoint> = Vec::new();
        push_net(&mut v, axis_x, self.height - H_ARROW_HALF);
        push_net(&mut v, axis_y, self.width - H_ARROW_HALF);
        v
    }

    /// Calibrates both axes for the series, keeps them, and paints them and
    /// the minor grid in the axis color.
    pub fn draw_axes(&mut self, serie: &Serie<'_>)
        requires
            old(self).wf(),
            serie.wf(),
        ensures
            final(self).wf(),
            final(self)@ == (ChartView {
                pixels: with_axes(
                    old(self)@,
                    axis_x_of(serie@, old(self)@.width),
                    axis_y_of(serie@, old(self)@.height),
                ),
                axis_x: Some(axis_x_of(serie@, old(self)@.width)),
                axis_y: Some(axis_y_of(serie@, old(self)@.height)),
                ..old(self)@
            }),
    {
        proof {
            lemma_bounds_ordered(serie@.points, serie@.min_x, serie@.max_x, serie@.min_y, serie@.max_y);
        }
        let (lo_x, hi_x) = range_to_show(serie.min_x, serie.max_x);
        let (lo_y, hi_y) = range_to_show(serie.min_y, serie.max_y);
        let axis_x = Axis::calculate_axis(hi_x, lo_x, self.width);
        let axis_y = Axis::calculate_axis(hi_y, lo_y, self.height).rotate();
        let minor_net = self.get_minor_net(&axis_x, &axis_y);
        let axis_color = self.axis_color;
        proof {
            lemma_axis_within(axis_x, self@.width, self@.height);
            lemma_axis_within(axis_y, self@.width, self@.height);
            lemma_net_within(
                axis_x,
                self@.height - H_ARROW_HALF,
                axis_x.tick_count as nat,
                self@.width,
                self@.height,
            );
            lemma_net_within(
                axis_y,
                self@.width - H_ARROW_HALF,
                axis_y.tick_count as nat,
                self@.width,
                self@.height,
            );
        }
        self.draw_pixels(axis_x.create_points(), axis_color);
        self.draw_pixels(axis_y.create_points(), axis_color);
        self.draw_pixels(minor_net, axis_color);
        self.axis_x = Some(axis_x);
        self.axis_y = Some(axis_y);
    }

    /// The pixels of the points of the series under the axes of the chart.
    pub fn serie_to_points(&self, serie: &Serie<'_>) -> (points: Vec<DisplayPoint>)
        requires
            self.wf(),
            serie.wf(),
            self@.axis_x == Some(axis_x_of(serie@, self@.width)),
            self@.axis_y == Some(axis_y_of(serie@, self@.height)),
        ensures
            points@ == mapped(serie@.points, self@.axis_x.unwrap(), self@.axis_y.unwrap()),
            within(points@, self@.width, self@.height),
    {
        let axis_x = self.axis_x.unwrap();
        let axis_y = self.axis_y.unwrap();
        let mut points: Vec<DisplayPoint> = Vec::new();
        let mut i: usize = 0;
        proof {
            lemma_axes_of(serie@, self@.width, self@.height);
            lemma_mapped_within(serie@.points, axis_x, axis_y);
        }
        while i < serie.points.len()
            invariant
                i <= serie.points.len(),
                serie.wf(),
                axis_x == axis_x_of(serie@, self@.width),
                axis_y == axis_y_of(serie@, self@.height),
                axis_x.wf(),
                axis_y.wf(),
                points@ == mapped(serie@.points, axis_x, axis_y).take(i as int),
            decreases serie.points.len() - i,
        {
            let p: Point = serie.points[i];
            points.push(DisplayPoint { x: axis_x.pixel(p.x), y: axis_y.pixel(p.y) });
            i = i + 1;
            assert(points@ =~= mapped(serie@.points, axis_x, axis_y).take(i as int));
        }
        assert(points@ =~= mapped(serie@.points, axis_x, axis_y));
        points
    }

    /// Draws the series on the chart and encodes the image.
    ///
    /// The color of the series is registered first. If the palette has no
    /// place for it, nothing is drawn.
    pub fn create_bmp_vec(&mut self, serie: Serie<'_>) -> (result: GraphResult)
        requires
            old(self).wf(),
            serie.wf(),
        ensures
            final(self).wf(),
            match palette_index(old(self)@.palette, color_value(serie@.color)) {
                None => {
                    &&& result == Err::<Vec<u8>, GraphError>(GraphError::PaletteFull)
                    &&& final(self)@ == old(self)@
                },
                Some(line_color) => {
                    &&& final(self)@ == rendered(old(self)@, serie@, line_color)
                    &&& result matches Ok(bytes) && bytes@ == encode(final(self)@.image())
                    &&& result matches Ok(bytes) && bytes@.len() == HEADER_SIZE + old(self)@.width
                        * old(self)@.height
                    &&& result matches Ok(bytes) && forall|i: int|
                        HEADER_SIZE <= i < bytes@.len() ==> #[trigger] bytes@[i] < final(
                            self
                        )@.palette.len()
                },
            },
    {
        let points_color_number: u8 = match self.picture.add_color(serie.color) {
            Some(index) => index,
            None => {
                return Err(GraphError::PaletteFull);
            },
        };
        self.draw_axes(&serie);
        let function = self.serie_to_points(&serie);
        proof {
            lemma_polyline_within(function@, self@.width, self@.height);
        }
        let func_points = extrapolate(function.as_slice());
        self.draw_pixels(func_points, points_color_number);
        self.picture.add_pixels(&self.pixs);
        let bytes = self.picture.to_vec();
        proof {
            lemma_encode_len(self@.image());
        }
        Ok(bytes)
    }
}

} // verus!