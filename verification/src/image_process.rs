use vstd::prelude::*;

use crate::raster::Pixel;
use crate::raster::Raster;
use crate::Configuration;

verus! {

/// The two background classifications that are ever used: a light
/// background is one whose pixels sit at or above 200 on every channel, a
/// dark one at or below 55.
#[derive(Debug, Clone, Copy, PartialEq, Eq, Structural)]
pub enum BackgroundMask {
    Light,
    Dark,
}

/// A pixel the mask treats as background: already transparent, or within
/// the mask's threshold on all three color channels.
pub open spec fn ignorable_spec(p: Pixel, mask: BackgroundMask) -> bool {
    if p.a == 0 {
        true
    } else {
        match mask {
            BackgroundMask::Light => p.r >= 200 && p.g >= 200 && p.b >= 200,
            BackgroundMask::Dark => p.r <= 55 && p.g <= 55 && p.b <= 55,
        }
    }
}

pub fn is_ignorable(p: &Pixel, mask: &BackgroundMask) -> (r: bool)
    ensures
        r == ignorable_spec(*p, *mask),
{
    if p.a == 0 {
        return true;
    }
    match mask {
        BackgroundMask::Light => p.r >= 200 && p.g >= 200 && p.b >= 200,
        BackgroundMask::Dark => p.r <= 55 && p.g <= 55 && p.b <= 55,
    }
}

pub fn is_transparent(p: &Pixel) -> (r: bool)
    ensures
        r == p.is_transparent_spec(),
{
    p.a == 0
}

/// What a filled pixel is overwritten with: fully transparent, recolored to
/// a fixed magenta marker for visual debugging only.
pub open spec fn marker_spec() -> Pixel {
    Pixel { r: 255, g: 0, b: 255, a: 0 }
}

pub fn mark_pixel(point: &mut Pixel)
    ensures
        *final(point) == marker_spec(),
{
    point.r = 255;
    point.g = 0;
    point.b = 255;
    point.a = 0;
}

/// The pixel at column `x` of row `y` in a row-major view of the given
/// width.
pub open spec fn pix_at(s: Seq<Pixel>, w: u32, x: u32, y: u32) -> Pixel {
    s[y * w + x]
}

/// Whether all four corner pixels are ignorable under the mask.
pub open spec fn corners_ignorable(s: Seq<Pixel>, w: u32, h: u32, mask: BackgroundMask) -> bool {
    &&& ignorable_spec(pix_at(s, w, 0, 0), mask)
    &&& ignorable_spec(pix_at(s, w, (w - 1) as u32, 0), mask)
    &&& ignorable_spec(pix_at(s, w, 0, (h - 1) as u32), mask)
    &&& ignorable_spec(pix_at(s, w, (w - 1) as u32, (h - 1) as u32), mask)
}

/// Mask selection is a function of the four corner pixels alone, in fixed
/// priority order: light first, then dark, else none.
pub open spec fn select_mask_spec(s: Seq<Pixel>, w: u32, h: u32) -> Option<BackgroundMask> {
    if corners_ignorable(s, w, h, BackgroundMask::Light) {
        Some(BackgroundMask::Light)
    } else if corners_ignorable(s, w, h, BackgroundMask::Dark) {
        Some(BackgroundMask::Dark)
    } else {
        None
    }
}

/// Samples the four corners and picks the first qualifying mask.
pub fn select_mask(img: &Raster) -> (m: Option<BackgroundMask>)
    requires
        img.wf(),
        img.width > 0,
        img.height > 0,
    ensures
        m == select_mask_spec(img.pixels@, img.width, img.height),
{
    let w = img.width;
    let h = img.height;
    let c00 = img.get(0, 0);
    let c10 = img.get(w - 1, 0);
    let c01 = img.get(0, h - 1);
    let c11 = img.get(w - 1, h - 1);
    if is_ignorable(&c00, &BackgroundMask::Light) && is_ignorable(&c10, &BackgroundMask::Light)
        && is_ignorable(&c01, &BackgroundMask::Light) && is_ignorable(
        &c11,
        &BackgroundMask::Light,
    ) {
        Some(BackgroundMask::Light)
    } else if is_ignorable(&c00, &BackgroundMask::Dark) && is_ignorable(
        &c10,
        &BackgroundMask::Dark,
    ) && is_ignorable(&c01, &BackgroundMask::Dark) && is_ignorable(&c11, &BackgroundMask::Dark) {
        Some(BackgroundMask::Dark)
    } else {
        None
    }
}

/// The pixels of the central quadrant: width and height are halved and the
/// window starts one quarter of the original dimensions from the origin.
pub open spec fn crop_view(img: Raster) -> Seq<Pixel> {
    Seq::new(
        ((img.width / 2) * (img.height / 2)) as nat,
        |i: int|
            pix_at(
                img.pixels@,
                img.width,
                ((img.width / 2) / 2 + (i % (img.width / 2) as int)) as u32,
                ((img.height / 2) / 2 + (i / (img.width / 2) as int)) as u32,
            ),
    )
}

/// Reduces the raster to its central quadrant.
pub fn crop_center(img: &Raster) -> (r: Raster)
    requires
        img.wf(),
        img.width >= 2,
        img.height >= 2,
    ensures
        r.wf(),
        r.width == img.width / 2,
        r.height == img.height / 2,
        r.pixels@ == crop_view(*img),
        forall|x: u32, y: u32|
            x < img.width / 2 && y < img.height / 2 ==> #[trigger] r.pixel_at(x, y)
                == img.pixel_at(((img.width / 2) / 2 + x) as u32, ((img.height / 2) / 2 + y) as u32),
{
    let nw: u32 = img.width / 2;
    let nh: u32 = img.height / 2;
    let ox: u32 = nw / 2;
    let oy: u32 = nh / 2;
    let mut pixels: Vec<Pixel> = Vec::new();
    let mut y: u32 = 0;
    while y < nh
        invariant
            img.wf(),
            nw == img.width / 2,
            nh == img.height / 2,
            ox == nw / 2,
            oy == nh / 2,
            img.width >= 2,
            img.height >= 2,
            y <= nh,
            pixels@.len() == y * nw,
            forall|i: int|
                0 <= i < pixels@.len() ==> #[trigger] pixels@[i] == pix_at(
                    img.pixels@,
                    img.width,
                    (ox + (i % nw as int)) as u32,
                    (oy + (i / nw as int)) as u32,
                ),
        decreases nh - y,
    {
        let mut x: u32 = 0;
        while x < nw
            invariant
                img.wf(),
                nw == img.width / 2,
                nh == img.height / 2,
                ox == nw / 2,
                oy == nh / 2,
                img.width >= 2,
                img.height >= 2,
                y < nh,
                x <= nw,
                pixels@.len() == y * nw + x,
                forall|i: int|
                    0 <= i < pixels@.len() ==> #[trigger] pixels@[i] == pix_at(
                        img.pixels@,
                        img.width,
                        (ox + (i % nw as int)) as u32,
                        (oy + (i / nw as int)) as u32,
                    ),
            decreases nw - x,
        {
            proof {
                assert(y * nw + x < nh * nw) by (nonlinear_arith)
                    requires
                        x < nw,
                        y < nh,
                ;
                assert(ox + x < img.width);
                assert(oy + y < img.height);
                vstd::arithmetic::div_mod::lemma_fundamental_div_mod_converse(
                    (y * nw + x) as int,
                    nw as int,
                    y as int,
                    x as int,
                );
            }
            let p: Pixel = img.get(ox + x, oy + y);
            pixels.push(p);
            x = x + 1;
        }
        proof {
            assert(y * nw + nw == (y + 1) * nw) by (nonlinear_arith);
        }
        y = y + 1;
    }
    proof {
        assert(pixels@.len() == nh * nw);
        assert(nw * nh == nh * nw) by (nonlinear_arith);
        assert(pixels@ =~= crop_view(*img));
    }
    let r = Raster::new(nw, nh, pixels);
    proof {
        assert forall|x: u32, y: u32| x < nw && y < nh implies #[trigger] r.pixel_at(x, y)
            == img.pixel_at((ox + x) as u32, (oy + y) as u32) by {
            assert(y * nw + x < nh * nw) by (nonlinear_arith)
                requires
                    x < nw,
                    y < nh,
            ;
            vstd::arithmetic::div_mod::lemma_fundamental_div_mod_converse(
                (y * nw + x) as int,
                nw as int,
                y as int,
                x as int,
            );
        }
    }
    r
}

/// One pixel location: column, then row.
#[derive(Debug, Clone, Copy, PartialEq, Eq, Structural)]
pub struct Point(pub u32, pub u32);

pub open spec fn in_bounds(w: u32, h: u32, p: Point) -> bool {
    p.0 < w && p.1 < h
}

pub open spec fn is_corner(w: u32, h: u32, p: Point) -> bool {
    (p.0 == 0 || p.0 == w - 1) && (p.1 == 0 || p.1 == h - 1)
}

/// Four-connected neighborhood.
pub open spec fn adjacent(p: Point, q: Point) -> bool {
    ||| (p.0 == q.0 && (p.1 + 1 == q.1 || q.1 + 1 == p.1))
    ||| (p.1 == q.1 && (p.0 + 1 == q.0 || q.0 + 1 == p.0))
}

pub open spec fn at(s: Seq<Pixel>, w: u32, p: Point) -> Pixel {
    pix_at(s, w, p.0, p.1)
}

/// An opaque pixel that the mask classifies as background: the kind of
/// pixel the flood fill spreads through.
pub open spec fn ign_op(s: Seq<Pixel>, w: u32, mask: BackgroundMask, p: Point) -> bool {
    at(s, w, p).a != 0 && ignorable_spec(at(s, w, p), mask)
}

/// A chain of in-bounds, opaque, ignorable pixels that starts at a corner
/// and steps through 4-connected neighbors.
pub open spec fn is_path(
    s: Seq<Pixel>,
    w: u32,
    h: u32,
    mask: BackgroundMask,
    path: Seq<Point>,
) -> bool {
    &&& path.len() > 0
    &&& is_corner(w, h, path[0])
    &&& forall|i: int|
        0 <= i < path.len() ==> in_bounds(w, h, #[trigger] path[i]) && ign_op(s, w, mask, path[i])
    &&& forall|i: int| 0 <= i < path.len() - 1 ==> adjacent(#[trigger] path[i], path[i + 1])
}

/// Reachable from a corner through ignorable opaque pixels.
pub open spec fn reachable(s: Seq<Pixel>, w: u32, h: u32, mask: BackgroundMask, p: Point) -> bool {
    exists|path: Seq<Point>| is_path(s, w, h, mask, path) && path.last() == p
}

/// A pixel the fill has already forced transparent: opaque in the original
/// view, transparent in the current one.
pub open spec fn filled(s0: Seq<Pixel>, cur: Seq<Pixel>, w: u32, p: Point) -> bool {
    at(s0, w, p).a != 0 && at(cur, w, p).a == 0
}

proof fn lemma_reach_corner(s: Seq<Pixel>, w: u32, h: u32, mask: BackgroundMask, c: Point)
    requires
        in_bounds(w, h, c),
        is_corner(w, h, c),
        ign_op(s, w, mask, c),
    ensures
        reachable(s, w, h, mask, c),
{
    let path = seq![c];
    assert(is_path(s, w, h, mask, path));
    assert(path.last() == c);
}

proof fn lemma_reach_step(s: Seq<Pixel>, w: u32, h: u32, mask: BackgroundMask, q: Point, p: Point)
    requires
        reachable(s, w, h, mask, q),
        adjacent(q, p),
        in_bounds(w, h, p),
        ign_op(s, w, mask, p),
    ensures
        reachable(s, w, h, mask, p),
{
    let path = choose|path: Seq<Point>| is_path(s, w, h, mask, path) && path.last() == q;
    let extended = path.push(p);
    assert(extended[0] == path[0]);
    assert(forall|i: int| 0 <= i < path.len() ==> extended[i] == #[trigger] path[i]);
    assert(adjacent(extended[path.len() - 1], extended[path.len() as int]));
    assert(is_path(s, w, h, mask, extended));
    assert(extended.last() == p);
}

/// Once the frontier is empty, the filled region is closed: walking any
/// path from a corner stays inside it.
proof fn lemma_reachable_filled(
    s0: Seq<Pixel>,
    cur: Seq<Pixel>,
    w: u32,
    h: u32,
    mask: BackgroundMask,
    path: Seq<Point>,
)
    requires
        is_path(s0, w, h, mask, path),
        forall|c: Point|
            in_bounds(w, h, c) && is_corner(w, h, c) && ign_op(s0, w, mask, c)
                ==> #[trigger] filled(s0, cur, w, c),
        forall|q: Point, r: Point|
            in_bounds(w, h, q) && in_bounds(w, h, r) && filled(s0, cur, w, q) && #[trigger] adjacent(
                q,
                r,
            ) && ign_op(s0, w, mask, r) ==> filled(s0, cur, w, r),
    ensures
        filled(s0, cur, w, path.last()),
    decreases path.len(),
{
    if path.len() == 1 {
        assert(in_bounds(w, h, path[0]) && ign_op(s0, w, mask, path[0]));
    } else {
        let pre = path.drop_last();
        assert(pre[0] == path[0]);
        assert(forall|i: int| 0 <= i < pre.len() ==> pre[i] == #[trigger] path[i]);
        assert(is_path(s0, w, h, mask, pre));
        lemma_reachable_filled(s0, cur, w, h, mask, pre);
        assert(adjacent(path[path.len() - 2], path[path.len() - 1]));
        assert(pre.last() == path[path.len() - 2]);
        assert(path.last() == path[path.len() - 1]);
    }
}

proof fn lemma_opaque_update(s: Seq<Pixel>, i: int, p: Pixel)
    requires
        0 <= i < s.len(),
    ensures
        crate::kmeans::opaque_count(s.update(i, p)) == crate::kmeans::opaque_count(s) - (
        if s[i].a != 0 {
            1int
        } else {
            0int
        }) + (if p.a != 0 {
            1int
        } else {
            0int
        }),
    decreases s.len(),
{
    if i == s.len() - 1 {
        assert(s.update(i, p).drop_last() =~= s.drop_last());
        assert(s.update(i, p).last() == p);
    } else {
        assert(s.update(i, p).drop_last() =~= s.drop_last().update(i, p));
        assert(s.update(i, p).last() == s.last());
        lemma_opaque_update(s.drop_last(), i, p);
    }
}

proof fn lemma_opaque_nonneg(s: Seq<Pixel>)
    ensures
        crate::kmeans::opaque_count(s) >= 0,
    decreases s.len(),
{
    if s.len() > 0 {
        lemma_opaque_nonneg(s.drop_last());
    }
}
proof fn lemma_pix_index_injective(w: u32, p: Point, r: Point)
    requires
        w > 0,
        p.0 < w,
        r.0 < w,
        p.1 * w + p.0 == r.1 * w + r.0,
    ensures
        p == r,
{
    vstd::arithmetic::div_mod::lemma_fundamental_div_mod_converse(
        (p.1 * w + p.0) as int,
        w as int,
        p.1 as int,
        p.0 as int,
    );
    vstd::arithmetic::div_mod::lemma_fundamental_div_mod_converse(
        (r.1 * w + r.0) as int,
        w as int,
        r.1 as int,
        r.0 as int,
    );
}

/// Overwriting one pixel changes the row-major view at that point alone.
proof fn lemma_at_update(s: Seq<Pixel>, w: u32, h: u32, p: Point, v: Pixel, r: Point)
    requires
        s.len() == w * h,
        w > 0,
        in_bounds(w, h, p),
        in_bounds(w, h, r),
    ensures
        r == p ==> at(s.update(p.1 * w + p.0, v), w, r) == v,
        r != p ==> at(s.update(p.1 * w + p.0, v), w, r) == at(s, w, r),
{
    assert(p.1 * w + p.0 < w * h) by (nonlinear_arith)
        requires
            p.0 < w,
            p.1 < h,
    ;
    assert(r.1 * w + r.0 < w * h) by (nonlinear_arith)
        requires
            r.0 < w,
            r.1 < h,
    ;
    if r != p && p.1 * w + p.0 == r.1 * w + r.0 {
        lemma_pix_index_injective(w, p, r);
    }
}

proof fn lemma_contains_push(s: Seq<Point>, x: Point, y: Point)
    requires
        s.contains(y) || y == x,
    ensures
        s.push(x).contains(y),
{
    if y == x {
        assert(s.push(x)[s.len() as int] == y);
    } else {
        let j = choose|j: int| 0 <= j < s.len() && s[j] == y;
        assert(s.push(x)[j] == y);
    }
}

/// Pushes the point onto the traversal stack unless its pixel is already
/// transparent.
fn push_if_opaque(points: &mut Vec<Point>, img: &Raster, x: u32, y: u32)
    requires
        img.wf(),
        x < img.width,
        y < img.height,
    ensures
        img.pixel_at(x, y).a != 0 ==> final(points)@.contains(Point(x, y)),
        img.pixel_at(x, y).a == 0 ==> final(points)@ == old(points)@,
        forall|q: Point| old(points)@.contains(q) ==> final(points)@.contains(q),
        forall|q: Point|
            final(points)@.contains(q) ==> old(points)@.contains(q) || q == Point(x, y),
{
    let np: Pixel = img.get(x, y);
    if !is_transparent(&np) {
        let ghost before = points@;
        points.push(Point(x, y));
        proof {
            lemma_contains_push(before, Point(x, y), Point(x, y));
            assert forall|q: Point| before.contains(q) implies points@.contains(q) by {
                lemma_contains_push(before, Point(x, y), q);
            }
            assert forall|q: Point| points@.contains(q) implies before.contains(q) || q == Point(
                x,
                y,
            ) by {
                let j = choose|j: int| 0 <= j < points@.len() && points@[j] == q;
                if j < before.len() {
                    assert(before[j] == q);
                }
            }
        }
    }
}

/// Flood fill from the four corners: a 4-connected, stack-based traversal
/// that forces every pixel reachable through ignorable opaque pixels fully
/// transparent and touches nothing else. Each pixel goes from opaque to
/// transparent at most once and is thereafter excluded by the transparency
/// guard, which bounds the traversal by the pixel count.
pub fn flood_fill(img: &mut Raster, mask: BackgroundMask)
    requires
        old(img).wf(),
        old(img).width > 0,
        old(img).height > 0,
    ensures
        final(img).wf(),
        final(img).width == old(img).width,
        final(img).height == old(img).height,
        // a pixel changes only from ignorable opaque to the transparent
        // marker, and only when it is reachable from a corner
        forall|p: Point|
            in_bounds(old(img).width, old(img).height, p) && #[trigger] at(
                final(img).pixels@,
                old(img).width,
                p,
            ) != at(old(img).pixels@, old(img).width, p) ==> ign_op(
                old(img).pixels@,
                old(img).width,
                mask,
                p,
            ) && at(final(img).pixels@, old(img).width, p) == marker_spec() && reachable(
                old(img).pixels@,
                old(img).width,
                old(img).height,
                mask,
                p,
            ),
        // a transparent pixel never reverts
        forall|p: Point|
            in_bounds(old(img).width, old(img).height, p) && at(
                old(img).pixels@,
                old(img).width,
                p,
            ).a == 0 ==> #[trigger] at(final(img).pixels@, old(img).width, p) == at(
                old(img).pixels@,
                old(img).width,
                p,
            ),
        // every pixel reachable from a corner ends transparent
        forall|p: Point|
            in_bounds(old(img).width, old(img).height, p) && #[trigger] reachable(
                old(img).pixels@,
                old(img).width,
                old(img).height,
                mask,
                p,
            ) ==> at(final(img).pixels@, old(img).width, p).a == 0,
{
    let w: u32 = img.width;
    let h: u32 = img.height;
    let ghost s0 = img.pixels@;
    let mut points: Vec<Point> = Vec::new();
    points.push(Point(0, 0));
    points.push(Point(w - 1, 0));
    points.push(Point(0, h - 1));
    points.push(Point(w - 1, h - 1));
    proof {
        assert forall|c: Point| in_bounds(w, h, c) && is_corner(w, h, c) implies points@.contains(
            c,
        ) by {
            if c.1 == 0 {
                if c.0 == 0 {
                    assert(points@[0] == c);
                } else {
                    assert(points@[1] == c);
                }
            } else {
                if c.0 == 0 {
                    assert(points@[2] == c);
                } else {
                    assert(points@[3] == c);
                }
            }
        }
    }
    while points.len() > 0
        invariant
            img.wf(),
            img.width == w,
            img.height == h,
            w > 0,
            h > 0,
            s0 == old(img).pixels@,
            s0.len() == img.pixels@.len(),
            forall|p: Point|
                in_bounds(w, h, p) ==> (#[trigger] at(img.pixels@, w, p) == at(s0, w, p) || (at(
                    s0,
                    w,
                    p,
                ).a != 0 && ignorable_spec(at(s0, w, p), mask) && at(img.pixels@, w, p)
                    == marker_spec() && reachable(s0, w, h, mask, p))),
            forall|j: int|
                0 <= j < points@.len() ==> in_bounds(w, h, #[trigger] points@[j]) && (is_corner(
                    w,
                    h,
                    points@[j],
                ) || exists|q: Point|
                    in_bounds(w, h, q) && adjacent(q, points@[j]) && filled(
                        s0,
                        img.pixels@,
                        w,
                        q,
                    )),
            forall|q: Point, r: Point|
                in_bounds(w, h, q) && in_bounds(w, h, r) && filled(s0, img.pixels@, w, q)
                    && #[trigger] adjacent(q, r) && ign_op(s0, w, mask, r) && !filled(
                    s0,
                    img.pixels@,
                    w,
                    r,
                ) ==> points@.contains(r),
            forall|c: Point|
                in_bounds(w, h, c) && is_corner(w, h, c) && ign_op(s0, w, mask, c) && !(
                #[trigger] filled(s0, img.pixels@, w, c)) ==> points@.contains(c),
        decreases crate::kmeans::opaque_count(img.pixels@), points@.len(),
    {
        let ghost stack_before = points@;
        let ghost cur_before = img.pixels@;
        proof {
            lemma_opaque_nonneg(cur_before);
        }
        let p: Point = match points.pop() {
            Some(point) => point,
            None => vstd::pervasive::unreached(),
        };
        proof {
            assert(stack_before.last() == p);
            assert(in_bounds(w, h, p));
            assert forall|r: Point| stack_before.contains(r) && r != p implies points@.contains(
                r,
            ) by {
                let j = choose|j: int| 0 <= j < stack_before.len() && stack_before[j] == r;
                assert(j < stack_before.len() - 1);
                assert(points@[j] == r);
            }
        }
        let px: Pixel = img.get(p.0, p.1);
        if !is_transparent(&px) && is_ignorable(&px, &mask) {
            proof {
                // the popped pixel is still untouched, so its original value
                // is opaque and ignorable
                assert(at(cur_before, w, p) == px);
                assert(at(cur_before, w, p) == at(s0, w, p));
                assert(ign_op(s0, w, mask, p));
                // reachable: as a corner, or through the filled neighbor
                // that put it on the stack
                if is_corner(w, h, p) {
                    lemma_reach_corner(s0, w, h, mask, p);
                } else {
                    let q = choose|q: Point|
                        in_bounds(w, h, q) && adjacent(q, p) && filled(s0, cur_before, w, q);
                    assert(at(cur_before, w, q) != at(s0, w, q));
                    assert(reachable(s0, w, h, mask, q));
                    lemma_reach_step(s0, w, h, mask, q, p);
                }
                assert(reachable(s0, w, h, mask, p));
            }
            let mut marked: Pixel = px;
            mark_pixel(&mut marked);
            proof {
                img.lemma_idx_in_range(p.0, p.1);
                lemma_opaque_update(cur_before, p.1 * w + p.0, marked);
            }
            img.set(p.0, p.1, marked);
            let ghost cur_marked = img.pixels@;
            proof {
                assert(cur_marked == cur_before.update(p.1 * w + p.0, marked));
                assert forall|r: Point| in_bounds(w, h, r) implies #[trigger] at(
                    cur_marked,
                    w,
                    r,
                ) == (if r == p {
                    marked
                } else {
                    at(cur_before, w, r)
                }) by {
                    lemma_at_update(cur_before, w, h, p, marked, r);
                }
                assert(filled(s0, cur_marked, w, p));
                assert(crate::kmeans::opaque_count(cur_marked) < crate::kmeans::opaque_count(
                    cur_before,
                ));
                lemma_opaque_nonneg(cur_marked);
            }
            let ghost st_a = points@;
            if 0 < p.0 {
                push_if_opaque(&mut points, img, p.0 - 1, p.1);
            }
            let ghost st_b = points@;
            if p.0 < w - 1 {
                push_if_opaque(&mut points, img, p.0 + 1, p.1);
            }
            let ghost st_c = points@;
            if 0 < p.1 {
                push_if_opaque(&mut points, img, p.0, p.1 - 1);
            }
            let ghost st_d = points@;
            if p.1 < h - 1 {
                push_if_opaque(&mut points, img, p.0, p.1 + 1);
            }
            proof {
                let st_e = points@;
                let left = Point((p.0 - 1) as u32, p.1);
                let right = Point((p.0 + 1) as u32, p.1);
                let up = Point(p.0, (p.1 - 1) as u32);
                let down = Point(p.0, (p.1 + 1) as u32);
                // whatever was on the stack before the pushes is still there
                assert forall|r: Point| st_a.contains(r) implies st_e.contains(r) by {
                    assert(st_b.contains(r));
                    assert(st_c.contains(r));
                    assert(st_d.contains(r));
                }
                // and everything on it now was there before or neighbors p
                assert forall|r: Point| st_e.contains(r) implies st_a.contains(r) || r == left || r
                    == right || r == up || r == down by {
                    if st_d.contains(r) {
                        if st_c.contains(r) {
                            if st_b.contains(r) {
                            }
                        }
                    }
                }
                // the still-opaque in-bounds neighbors of p are on the stack
                assert(0 < p.0 && at(cur_marked, w, left).a != 0 ==> st_e.contains(left)) by {
                    if 0 < p.0 && at(cur_marked, w, left).a != 0 {
                        assert(st_b.contains(left));
                        assert(st_c.contains(left));
                        assert(st_d.contains(left));
                    }
                }
                assert(p.0 < w - 1 && at(cur_marked, w, right).a != 0 ==> st_e.contains(right))
                    by {
                    if p.0 < w - 1 && at(cur_marked, w, right).a != 0 {
                        assert(st_c.contains(right));
                        assert(st_d.contains(right));
                    }
                }
                assert(0 < p.1 && at(cur_marked, w, up).a != 0 ==> st_e.contains(up)) by {
                    if 0 < p.1 && at(cur_marked, w, up).a != 0 {
                        assert(st_d.contains(up));
                    }
                }
                assert(p.1 < h - 1 && at(cur_marked, w, down).a != 0 ==> st_e.contains(down));
                // the pixel invariant: only p changed, to the marker
                assert forall|r: Point| in_bounds(w, h, r) implies (#[trigger] at(
                    cur_marked,
                    w,
                    r,
                ) == at(s0, w, r) || (at(s0, w, r).a != 0 && ignorable_spec(at(s0, w, r), mask)
                    && at(cur_marked, w, r) == marker_spec() && reachable(s0, w, h, mask, r))) by {
                    if r != p {
                        assert(at(cur_marked, w, r) == at(cur_before, w, r));
                    }
                }
                // every stack entry is a corner or neighbors a filled pixel
                assert forall|j: int| 0 <= j < st_e.len() implies in_bounds(
                    w,
                    h,
                    #[trigger] st_e[j],
                ) && (is_corner(w, h, st_e[j]) || exists|q: Point|
                    in_bounds(w, h, q) && adjacent(q, st_e[j]) && filled(
                        s0,
                        cur_marked,
                        w,
                        q,
                    )) by {
                    let r = st_e[j];
                    assert(st_e.contains(r));
                    if st_a.contains(r) {
                        let jj = choose|jj: int| 0 <= jj < st_a.len() && st_a[jj] == r;
                        assert(stack_before[jj] == r);
                        assert(in_bounds(w, h, r));
                        if !is_corner(w, h, r) {
                            let q = choose|q: Point|
                                in_bounds(w, h, q) && adjacent(q, r) && filled(
                                    s0,
                                    cur_before,
                                    w,
                                    q,
                                );
                            assert(at(cur_marked, w, q).a == 0);
                            assert(filled(s0, cur_marked, w, q));
                        }
                    } else {
                        // a freshly pushed neighbor: p itself is its filled
                        // witness
                        assert(r == left || r == right || r == up || r == down);
                        assert(adjacent(p, r));
                        assert(in_bounds(w, h, r));
                        assert(filled(s0, cur_marked, w, p));
                    }
                }
                // the frontier invariant
                assert forall|q: Point, r: Point|
                    in_bounds(w, h, q) && in_bounds(w, h, r) && filled(s0, cur_marked, w, q)
                        && #[trigger] adjacent(q, r) && ign_op(s0, w, mask, r) && !filled(
                        s0,
                        cur_marked,
                        w,
                        r,
                    ) implies st_e.contains(r) by {
                    assert(r != p);
                    assert(at(cur_marked, w, r) == at(cur_before, w, r));
                    assert(at(s0, w, r).a != 0);
                    assert(at(cur_marked, w, r).a != 0);
                    if q == p {
                        // r is one of the four in-bounds neighbors and is
                        // still opaque, so it was pushed just now
                        if r.1 == p.1 && r.0 + 1 == p.0 {
                            assert(r == left);
                            assert(st_e.contains(r));
                        } else if r.1 == p.1 && p.0 + 1 == r.0 {
                            assert(r == right);
                            assert(st_e.contains(r));
                        } else if r.0 == p.0 && r.1 + 1 == p.1 {
                            assert(r == up);
                            assert(st_e.contains(r));
                        } else {
                            assert(r.0 == p.0 && p.1 + 1 == r.1);
                            assert(r == down);
                            assert(st_e.contains(r));
                        }
                    } else {
                        assert(at(cur_marked, w, q) == at(cur_before, w, q));
                        assert(filled(s0, cur_before, w, q));
                        assert(!filled(s0, cur_before, w, r));
                        assert(stack_before.contains(r));
                        assert(st_a.contains(r));
                    }
                }
                // corner coverage
                assert forall|c: Point|
                    in_bounds(w, h, c) && is_corner(w, h, c) && ign_op(s0, w, mask, c) && !(
                    #[trigger] filled(s0, cur_marked, w, c)) implies st_e.contains(c) by {
                    assert(c != p);
                    assert(at(cur_marked, w, c) == at(cur_before, w, c));
                    assert(!filled(s0, cur_before, w, c));
                    assert(stack_before.contains(c));
                    assert(st_a.contains(c));
                }
            }
        } else {
            proof {
                // nothing changed; a skipped point covers nothing: it is
                // either already filled or not ignorable at all
                assert forall|q: Point, r: Point|
                    in_bounds(w, h, q) && in_bounds(w, h, r) && filled(s0, img.pixels@, w, q)
                        && #[trigger] adjacent(q, r) && ign_op(s0, w, mask, r) && !filled(
                        s0,
                        img.pixels@,
                        w,
                        r,
                    ) implies points@.contains(r) by {
                    if r == p {
                        assert(at(img.pixels@, w, p) == at(s0, w, p) || filled(
                            s0,
                            img.pixels@,
                            w,
                            p,
                        ));
                        assert(false);
                    } else {
                        assert(stack_before.contains(r));
                    }
                }
                assert forall|c: Point|
                    in_bounds(w, h, c) && is_corner(w, h, c) && ign_op(s0, w, mask, c) && !(
                    #[trigger] filled(s0, img.pixels@, w, c)) implies points@.contains(c) by {
                    if c == p {
                        assert(false);
                    } else {
                        assert(stack_before.contains(c));
                    }
                }
            }
        }
    }
    proof {
        // the frontier is gone: the filled region is closed under the
        // fill's own spreading rule, so every reachable pixel is filled
        let cur = img.pixels@;
        assert forall|p: Point|
            in_bounds(w, h, p) && #[trigger] reachable(s0, w, h, mask, p) implies at(
            cur,
            w,
            p,
        ).a == 0 by {
            let path = choose|path: Seq<Point>|
                is_path(s0, w, h, mask, path) && path.last() == p;
            assert forall|c: Point|
                in_bounds(w, h, c) && is_corner(w, h, c) && ign_op(s0, w, mask, c) implies (
            #[trigger] filled(s0, cur, w, c)) by {
                if !filled(s0, cur, w, c) {
                    assert(points@.contains(c));
                }
            }
            assert forall|q: Point, r: Point|
                in_bounds(w, h, q) && in_bounds(w, h, r) && filled(s0, cur, w, q)
                    && #[trigger] adjacent(q, r) && ign_op(s0, w, mask, r) implies filled(
                s0,
                cur,
                w,
                r,
            ) by {
                if !filled(s0, cur, w, r) {
                    assert(points@.contains(r));
                }
            }
            lemma_reachable_filled(s0, cur, w, h, mask, path);
        }
    }
}

/// Width of the raster the background detector works on, after the
/// optional crop.
pub open spec fn base_width(img: Raster, cropping: bool) -> u32 {
    if cropping {
        (img.width / 2) as u32
    } else {
        img.width
    }
}

pub open spec fn base_height(img: Raster, cropping: bool) -> u32 {
    if cropping {
        (img.height / 2) as u32
    } else {
        img.height
    }
}

/// The pixels the background detector works on, after the optional crop.
pub open spec fn base_pixels(img: Raster, cropping: bool) -> Seq<Pixel> {
    if cropping {
        crop_view(img)
    } else {
        img.pixels@
    }
}

/// Detects and removes a uniform background: optionally crops to the
/// central quadrant, samples the four corners to pick a mask, and flood
/// fills the background region to transparent. Absence of a qualifying
/// mask is a normal outcome and leaves the raster unmodified after the
/// optional crop.
pub fn process_image(image: Raster, config: &Configuration) -> (r: Raster)
    requires
        image.wf(),
        image.width > 0,
        image.height > 0,
        config.is_cropping ==> image.width >= 2 && image.height >= 2,
    ensures
        r.wf(),
        r.width == base_width(image, config.is_cropping),
        r.height == base_height(image, config.is_cropping),
        ({
            let bs = base_pixels(image, config.is_cropping);
            let bw = base_width(image, config.is_cropping);
            let bh = base_height(image, config.is_cropping);
            match select_mask_spec(bs, bw, bh) {
                None => r.pixels@ == bs,
                Some(m) => {
                    &&& forall|p: Point|
                        in_bounds(bw, bh, p) && #[trigger] at(r.pixels@, bw, p) != at(bs, bw, p)
                            ==> ign_op(bs, bw, m, p) && at(r.pixels@, bw, p) == marker_spec()
                            && reachable(bs, bw, bh, m, p)
                    &&& forall|p: Point|
                        in_bounds(bw, bh, p) && at(bs, bw, p).a == 0 ==> #[trigger] at(
                            r.pixels@,
                            bw,
                            p,
                        ) == at(bs, bw, p)
                    &&& forall|p: Point|
                        in_bounds(bw, bh, p) && #[trigger] reachable(bs, bw, bh, m, p) ==> at(
                            r.pixels@,
                            bw,
                            p,
                        ).a == 0
                },
            }
        }),
{
    let mut img: Raster = if config.is_cropping {
        crop_center(&image)
    } else {
        image
    };
    let mask: Option<BackgroundMask> = select_mask(&img);
    match mask {
        Some(selected_mask) => {
            flood_fill(&mut img, selected_mask);
            img
        },
        None => img,
    }
}

} // verus!
