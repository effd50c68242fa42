//! Lane geometry that needs no arithmetic on coordinates: selecting decoded
//! lanes, turning polylines into end-to-end lines, and masking a grey image
//! down to its lower half.
use crate::frame::{GrayFrame, GrayView};
use vstd::prelude::*;

verus! {

/// Fewest points a decoded lane must have to be reported.
pub const MIN_LANE_POINTS: usize = 5;

/// A lane as a polyline of image points (bottom first), with the decoder's
/// confidence and the lane's index relative to the ego lane. `P` is the
/// coordinate type and `C` the confidence type.
pub struct LanePolyline<P, C> {
    pub points: Vec<(P, P)>,
    pub confidence: C,
    pub lane_index: i32,
}

/// The line from the first to the last point of a polyline.
pub open spec fn end_to_end<P, C>(l: LanePolyline<P, C>) -> (P, P, P, P) {
    let f = l.points@[0];
    let e = l.points@.last();
    (f.0, f.1, e.0, e.1)
}

/// The end-to-end lines of the lanes with at least two points, in order.
pub open spec fn lines_of<P, C>(lanes: Seq<LanePolyline<P, C>>) -> Seq<(P, P, P, P)>
    decreases lanes.len(),
{
    if lanes.len() == 0 {
        Seq::empty()
    } else {
        let r = lines_of(lanes.drop_last());
        if lanes.last().points@.len() >= 2 {
            r.push(end_to_end(lanes.last()))
        } else {
            r
        }
    }
}

/// The lanes with at least `min` points, in order.
pub open spec fn lanes_with_points<P, C>(lanes: Seq<LanePolyline<P, C>>, min: nat) -> Seq<
    LanePolyline<P, C>,
>
    decreases lanes.len(),
{
    if lanes.len() == 0 {
        Seq::empty()
    } else {
        let r = lanes_with_points(lanes.drop_last(), min);
        if lanes.last().points@.len() >= min {
            r.push(lanes.last())
        } else {
            r
        }
    }
}

/// `keep_detected_lanes` keeps exactly the lanes with at least `min`
/// points, in their order: its result is the filter of the input by that
/// condition (so every such lane is kept, and only those).
pub proof fn law_kept_lanes_are_the_long_ones<P, C>(lanes: Seq<LanePolyline<P, C>>, min: nat)
    ensures
        lanes_with_points(lanes, min) == lanes.filter(
            |l: LanePolyline<P, C>| l.points@.len() >= min,
        ),
    decreases lanes.len(),
{
    reveal(Seq::filter);
    if lanes.len() > 0 {
        law_kept_lanes_are_the_long_ones(lanes.drop_last(), min);
    }
}

/// `polylines_to_lines` gives, for each lane with `m >= 2` points and in
/// lane order, the line from its first point `p[0]` to its last point
/// `p[m - 1]`; lanes with fewer points give nothing.
pub proof fn law_lines_join_first_and_last_points<P, C>(lanes: Seq<LanePolyline<P, C>>)
    ensures
        lines_of(lanes) == lanes.filter(|l: LanePolyline<P, C>| l.points@.len() >= 2).map_values(
            |l: LanePolyline<P, C>|
                (
                    l.points@[0].0,
                    l.points@[0].1,
                    l.points@[l.points@.len() - 1].0,
                    l.points@[l.points@.len() - 1].1,
                ),
        ),
    decreases lanes.len(),
{
    reveal(Seq::filter);
    if lanes.len() > 0 {
        law_lines_join_first_and_last_points(lanes.drop_last());
        let f = |l: LanePolyline<P, C>|
            (
                l.points@[0].0,
                l.points@[0].1,
                l.points@[l.points@.len() - 1].0,
                l.points@[l.points@.len() - 1].1,
            );
        let fl = lanes.drop_last().filter(|l: LanePolyline<P, C>| l.points@.len() >= 2);
        if lanes.last().points@.len() >= 2 {
            assert(fl.push(lanes.last()).map_values(f) =~= fl.map_values(f).push(f(lanes.last())));
        }
    }
}

/// Turns each lane with at least two points into the line from its first
/// to its last point; lanes with fewer points are skipped.
pub fn polylines_to_lines<P: Copy, C>(lanes: &[LanePolyline<P, C>]) -> (lines: Vec<(P, P, P, P)>)
    ensures
        lines@ == lines_of(lanes@),
{
    let n = lanes.len();
    let mut lines: Vec<(P, P, P, P)> = Vec::new();
    let mut i: usize = 0;
    assert(lanes@.take(0) =~= Seq::<LanePolyline<P, C>>::empty());
    while i < n
        invariant
            n == lanes@.len(),
            i <= n,
            lines@ == lines_of(lanes@.take(i as int)),
        decreases n - i,
    {
        assert(lanes@.take(i + 1).drop_last() =~= lanes@.take(i as int));
        let lane = &lanes[i];
        let m = lane.points.len();
        if m >= 2 {
            let first = lane.points[0];
            let last = lane.points[m - 1];
            lines.push((first.0, first.1, last.0, last.1));
        }
        i = i + 1;
    }
    assert(lanes@.take(n as int) =~= lanes@);
    lines
}

/// Keeps the decoded lanes that have at least `MIN_LANE_POINTS` points, in
/// order.
pub fn keep_detected_lanes<P, C>(lanes: Vec<LanePolyline<P, C>>) -> (kept: Vec<LanePolyline<P, C>>)
    ensures
        kept@ == lanes_with_points(lanes@, MIN_LANE_POINTS as nat),
{
    let ghost all = lanes@;
    let mut rest = lanes;
    // Taken from the back, then put back in order.
    let mut reversed: Vec<LanePolyline<P, C>> = Vec::new();
    assert(all.take(all.len() as int) =~= all);
    while rest.len() > 0
        invariant
            rest@ == all.take(rest@.len() as int),
            rest@.len() <= all.len(),
            lanes_with_points(all, MIN_LANE_POINTS as nat) == lanes_with_points(
                rest@,
                MIN_LANE_POINTS as nat,
            ) + reversed@.reverse(),
        decreases rest@.len(),
    {
        let ghost before = rest@;
        let ghost old_rev = reversed@;
        let lane = rest.pop().unwrap();
        assert(before.drop_last() =~= rest@);
        assert(rest@ =~= all.take(rest@.len() as int));
        if lane.points.len() >= MIN_LANE_POINTS {
            reversed.push(lane);
            assert(reversed@.reverse() =~= seq![lane] + old_rev.reverse());
            assert(lanes_with_points(before, MIN_LANE_POINTS as nat) =~= lanes_with_points(
                rest@,
                MIN_LANE_POINTS as nat,
            ).push(lane));
            assert(lanes_with_points(all, MIN_LANE_POINTS as nat) =~= lanes_with_points(
                rest@,
                MIN_LANE_POINTS as nat,
            ) + reversed@.reverse());
        }
    }
    let mut kept: Vec<LanePolyline<P, C>> = Vec::new();
    while reversed.len() > 0
        invariant
            lanes_with_points(all, MIN_LANE_POINTS as nat) == kept@ + reversed@.reverse(),
        decreases reversed@.len(),
    {
        let ghost before = reversed@;
        let lane = reversed.pop().unwrap();
        assert(before == reversed@.push(lane));
        assert(before.reverse() =~= seq![lane] + reversed@.reverse());
        kept.push(lane);
    }
    assert(reversed@.reverse() =~= Seq::<LanePolyline<P, C>>::empty());
    kept
}

/// The value of pixel `i` (row `i / width`, column `i % width`) of the
/// region-of-interest mask of `img`: the image's pixel in the lower half of
/// the `width` x `height` area (rows from `height / 2` on), 0 above it.
pub open spec fn roi_value(img: GrayView, width: nat, height: nat, i: int) -> u8 {
    let row = i / (width as int);
    let col = i % (width as int);
    if row >= height / 2 {
        img.pixels[row * img.width + col]
    } else {
        0
    }
}

proof fn lemma_roi_index(i: int, w: int, h: int, iw: int, ih: int)
    requires
        0 <= i < w * h,
        0 < w <= iw,
        h <= ih,
    ensures
        0 <= i / w < h,
        0 <= i % w < w,
        0 <= (i / w) * iw + i % w < iw * ih,
{
    assert(0 <= i / w < h) by (nonlinear_arith)
        requires
            0 <= i < w * h,
            0 < w,
    ;
    assert(0 <= i % w < w) by (nonlinear_arith)
        requires
            0 < w,
            0 <= i,
    ;
    let r = i / w;
    let c = i % w;
    assert(0 <= r * iw + c < iw * ih) by (nonlinear_arith)
        requires
            0 <= r < h,
            h <= ih,
            0 <= c < w,
            w <= iw,
    ;
}

/// The mask by pixel coordinates: pixel `(x, y)` of the `width` x
/// `height` mask (index `y * width + x`) is 0 in the rows above
/// `height / 2` and is pixel `(x, y)` of `img` (index `y * img.width + x`)
/// from that row down.
pub proof fn law_roi_by_coordinates(img: GrayView, width: nat, height: nat, x: nat, y: nat)
    requires
        x < width,
        y < height,
    ensures
        roi_value(img, width, height, (y * width + x) as int) == if y >= height / 2 {
            img.pixels[(y * img.width + x) as int]
        } else {
            0
        },
{
    vstd::arithmetic::div_mod::lemma_fundamental_div_mod_converse(
        (y * width + x) as int,
        width as int,
        y as int,
        x as int,
    );
}

/// Masks `img` to the lower half of the `width` x `height` area: the result
/// is a `width` x `height` image that copies `img` in rows `height / 2` and
/// below and is 0 above.
pub fn apply_roi(img: &GrayFrame, width: u32, height: u32) -> (mask: GrayFrame)
    requires
        width == 0 || height == 0 || (width <= img@.width && height <= img@.height),
        width * height <= usize::MAX,
    ensures
        mask@.width == width,
        mask@.height == height,
        forall|i: int|
            0 <= i < width * height ==> #[trigger] mask@.pixels[i] == roi_value(
                img@,
                width as nat,
                height as nat,
                i,
            ),
{
    let src = img.pixels();
    let iw = img.width() as usize;
    let ih = img.height() as usize;
    let w = width as usize;
    let h = height as usize;
    let n: usize = w * h;
    let src_len = src.len();
    let mut pixels: Vec<u8> = Vec::new();
    let mut i: usize = 0;
    while i < n
        invariant
            n == w * h,
            w == width,
            h == height,
            iw == img@.width,
            ih == img@.height,
            src@ == img@.pixels,
            src@.len() == img@.width * img@.height,
            src_len == src@.len(),
            w == 0 || h == 0 || (w <= iw && h <= ih),
            i <= n,
            pixels@.len() == i,
            forall|k: int|
                0 <= k < i ==> #[trigger] pixels@[k] == roi_value(img@, width as nat, height as nat, k),
        decreases n - i,
    {
        assert(w > 0 && h > 0) by (nonlinear_arith)
            requires
                i < n,
                n == w * h,
        ;
        proof {
            lemma_roi_index(i as int, w as int, h as int, iw as int, ih as int);
        }
        let row = i / w;
        let col = i % w;
        let value = if row >= h / 2 {
            src[row * iw + col]
        } else {
            0u8
        };
        pixels.push(value);
        i = i + 1;
    }
    match GrayFrame::from_raw(width, height, pixels) {
        Some(mask) => mask,
        None => {
            assert(false);
            GrayFrame::from_raw(width, height, Vec::new()).unwrap()
        },
    }
}

} // verus!
