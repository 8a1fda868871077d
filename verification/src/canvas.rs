//! Painting on a buffer of palette indices.
//!
//! The buffer holds one byte per pixel, row by row from the top left. To
//! paint a list of points is to give the pixel under each of them one color;
//! how often or in what order a pixel is named makes no difference.

use crate::graph::DisplayPoint;
use vstd::prelude::*;

verus! {

/// Whether every point lies on a canvas of the given size.
pub open spec fn within(points: Seq<DisplayPoint>, width: nat, height: nat) -> bool {
    forall|i: int|
        0 <= i < points.len() ==> (#[trigger] points[i]).x < width && points[i].y < height
}

/// The place of a pixel in the buffer, which runs row by row from the top.
pub open spec fn pixel_index(p: DisplayPoint, width: nat) -> int {
    p.y * width + p.x
}

/// Whether one of the points falls on place `i` of the buffer.
pub open spec fn covered(points: Seq<DisplayPoint>, width: nat, i: int) -> bool {
    exists|k: int| 0 <= k < points.len() && pixel_index(#[trigger] points[k], width) == i
}

/// The buffer after the points are painted in `color`: a pixel under one of
/// the points takes the color, every other pixel stays as it is.
pub open spec fn paint(pixels: Seq<u8>, width: nat, points: Seq<DisplayPoint>, color: u8) -> Seq<
    u8,
> {
    Seq::new(pixels.len(), |i: int| if covered(points, width, i) { color } else { pixels[i] })
}

/// Painting the points one after the other is painting them all.
pub proof fn lemma_paint_next(
    pixels: Seq<u8>,
    width: nat,
    points: Seq<DisplayPoint>,
    k: int,
    color: u8,
)
    requires
        0 <= k < points.len(),
        0 <= pixel_index(points[k], width) < pixels.len(),
    ensures
        paint(pixels, width, points.take(k + 1), color) == paint(
            pixels,
            width,
            points.take(k),
            color,
        ).update(pixel_index(points[k], width), color),
{
    let before = points.take(k);
    let after = points.take(k + 1);
    let at = pixel_index(points[k], width);
    assert forall|i: int| 0 <= i < pixels.len() implies covered(after, width, i) == (covered(
        before,
        width,
        i,
    ) || i == at) by {
        if covered(before, width, i) {
            let w = choose|w: int| 0 <= w < before.len() && pixel_index(#[trigger] before[w], width) == i;
            assert(after[w] == before[w]);
        }
        if i == at {
            assert(after[k] == points[k]);
        }
        if covered(after, width, i) {
            let w = choose|w: int| 0 <= w < after.len() && pixel_index(#[trigger] after[w], width) == i;
            if w < k {
                assert(before[w] == after[w]);
            }
        }
    }
    assert(paint(pixels, width, after, color) =~= paint(pixels, width, before, color).update(
        at,
        color,
    ));
}

/// Every pixel under one of the points has the color, and every other pixel
/// is what it was.
pub proof fn lemma_paint_covers(
    pixels: Seq<u8>,
    width: nat,
    points: Seq<DisplayPoint>,
    color: u8,
    i: int,
)
    requires
        0 <= i < pixels.len(),
    ensures
        paint(pixels, width, points, color).len() == pixels.len(),
        covered(points, width, i) ==> paint(pixels, width, points, color)[i] == color,
        !covered(points, width, i) ==> paint(pixels, width, points, color)[i] == pixels[i],
        forall|k: int|
            0 <= k < points.len() && pixel_index(#[trigger] points[k], width) == i ==> paint(
                pixels,
                width,
                points,
                color,
            )[i] == color,
{
}

/// Painting the same points in the same color once more changes nothing.
pub proof fn lemma_paint_idempotent(
    pixels: Seq<u8>,
    width: nat,
    points: Seq<DisplayPoint>,
    color: u8,
)
    ensures
        paint(paint(pixels, width, points, color), width, points, color) == paint(
            pixels,
            width,
            points,
            color,
        ),
{
    assert(paint(paint(pixels, width, points, color), width, points, color) =~= paint(
        pixels,
        width,
        points,
        color,
    ));
}

/// A point that occurs twice among the points is painted as if it occurred
/// once: only whether a pixel lies under a point counts.
pub proof fn lemma_paint_twice(
    pixels: Seq<u8>,
    width: nat,
    points: Seq<DisplayPoint>,
    p: DisplayPoint,
    color: u8,
)
    requires
        points.contains(p),
    ensures
        paint(pixels, width, points.push(p), color) == paint(pixels, width, points, color),
{
    let more = points.push(p);
    let at = points.index_of(p);
    assert forall|i: int| 0 <= i < pixels.len() implies covered(more, width, i) == covered(
        points,
        width,
        i,
    ) by {
        if covered(points, width, i) {
            let k = choose|k: int| 0 <= k < points.len() && pixel_index(#[trigger] points[k], width) == i;
            assert(more[k] == points[k]);
        }
        if covered(more, width, i) {
            let k = choose|k: int| 0 <= k < more.len() && pixel_index(#[trigger] more[k], width) == i;
            if k == points.len() {
                assert(points[at] == p);
            } else {
                assert(points[k] == more[k]);
            }
        }
    }
    assert(paint(pixels, width, more, color) =~= paint(pixels, width, points, color));
}

/// Paints the points into a buffer of `width` by `height` pixels.
pub fn paint_points(
    pixels: &mut Vec<u8>,
    width: usize,
    height: usize,
    points: &Vec<DisplayPoint>,
    color: u8,
)
    requires
        old(pixels)@.len() == width * height,
        within(points@, width as nat, height as nat),
    ensures
        final(pixels)@ == paint(old(pixels)@, width as nat, points@, color),
{
    let total: usize = pixels.len();
    let mut k: usize = 0;
    assert(pixels@ =~= paint(old(pixels)@, width as nat, points@.take(0), color));
    while k < points.len()
        invariant
            k <= points.len(),
            total == width * height,
            pixels@.len() == width * height,
            old(pixels)@.len() == width * height,
            within(points@, width as nat, height as nat),
            pixels@ == paint(old(pixels)@, width as nat, points@.take(k as int), color),
        decreases points.len() - k,
    {
        let p: DisplayPoint = points[k];
        assert(0 <= p.y * width + p.x < width * height) by (nonlinear_arith)
            requires
                p.x < width,
                p.y < height,
        ;
        proof {
            lemma_paint_next(old(pixels)@, width as nat, points@, k as int, color);
        }
        let i: usize = p.y * width + p.x;
        pixels.set(i, color);
        k = k + 1;
    }
    assert(points@.take(k as int) =~= points@);
}

} // verus!
