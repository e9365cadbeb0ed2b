use vstd::prelude::*;
use crate::raster::{lemma_raster_ext, lemma_slot_encode, slot, Image, Raster};

verus! {

/// A pixel-exact rearrangement of a raster: the quarter turns, the mirror
/// flips and an axis-aligned crop.
pub enum Mapping {
    Rot90,
    Rot180,
    Rot270,
    FlipH,
    FlipV,
    Crop { x0: usize, y0: usize, w: usize, h: usize },
}

pub open spec fn out_width(m: Mapping, w: nat, h: nat) -> nat {
    match m {
        Mapping::Rot90 => h,
        Mapping::Rot270 => h,
        Mapping::Crop { w: cw, .. } => cw as nat,
        _ => w,
    }
}

pub open spec fn out_height(m: Mapping, w: nat, h: nat) -> nat {
    match m {
        Mapping::Rot90 => w,
        Mapping::Rot270 => w,
        Mapping::Crop { h: ch, .. } => ch as nat,
        _ => h,
    }
}

/// The source pixel that lands on output pixel `(ox, oy)`.
pub open spec fn source_of(m: Mapping, w: int, h: int, ox: int, oy: int) -> (int, int) {
    match m {
        Mapping::Rot90 => (oy, h - 1 - ox),
        Mapping::Rot180 => (w - 1 - ox, h - 1 - oy),
        Mapping::Rot270 => (w - 1 - oy, ox),
        Mapping::FlipH => (w - 1 - ox, oy),
        Mapping::FlipV => (ox, h - 1 - oy),
        Mapping::Crop { x0, y0, .. } => (x0 + ox, y0 + oy),
    }
}

/// A crop must lie inside the source; the other mappings always fit.
pub open spec fn fits(m: Mapping, w: nat, h: nat) -> bool {
    match m {
        Mapping::Crop { x0, y0, w: cw, h: ch } => x0 + cw <= w && y0 + ch <= h,
        _ => true,
    }
}

/// The raster obtained by applying `m` to `r`.
pub open spec fn remap<T>(r: Raster<T>, m: Mapping) -> Raster<T> {
    let ow = out_width(m, r.width, r.height);
    let oh = out_height(m, r.width, r.height);
    Raster {
        width: ow,
        height: oh,
        px: Seq::new(
            3 * ow * oh,
            |k: int|
                {
                    let s = source_of(m, r.width as int, r.height as int, (k / 3) % (ow as int), (k / 3) / (ow as int));
                    r.px[slot(r.width as int, s.0, s.1, k % 3)]
                },
        ),
    }
}

pub open spec fn rotated90<T>(r: Raster<T>) -> Raster<T> {
    remap(r, Mapping::Rot90)
}

pub open spec fn rotated180<T>(r: Raster<T>) -> Raster<T> {
    remap(r, Mapping::Rot180)
}

pub open spec fn rotated270<T>(r: Raster<T>) -> Raster<T> {
    remap(r, Mapping::Rot270)
}

pub open spec fn flipped_h<T>(r: Raster<T>) -> Raster<T> {
    remap(r, Mapping::FlipH)
}

pub open spec fn flipped_v<T>(r: Raster<T>) -> Raster<T> {
    remap(r, Mapping::FlipV)
}

pub open spec fn cropped<T>(r: Raster<T>, x0: usize, y0: usize, w: usize, h: usize) -> Raster<T> {
    remap(r, Mapping::Crop { x0, y0, w, h })
}

/// Each output pixel of a mapping is the source pixel that `source_of`
/// names, and that source pixel is inside the source raster.
pub proof fn lemma_remap_at<T>(r: Raster<T>, m: Mapping, x: int, y: int, c: int)
    requires
        r.wf(),
        fits(m, r.width, r.height),
        remap(r, m).in_bounds(x, y, c),
    ensures
        remap(r, m).wf(),
        r.in_bounds(source_of(m, r.width as int, r.height as int, x, y).0, source_of(m, r.width as int, r.height as int, x, y).1, c),
        remap(r, m).at(x, y, c) == r.at(
            source_of(m, r.width as int, r.height as int, x, y).0,
            source_of(m, r.width as int, r.height as int, x, y).1,
            c,
        ),
{
    let ow = out_width(m, r.width, r.height) as int;
    let oh = out_height(m, r.width, r.height) as int;
    lemma_slot_encode(ow, oh, x, y, c);
}

pub proof fn lemma_remap_wf<T>(r: Raster<T>, m: Mapping)
    ensures
        remap(r, m).wf(),
{
}

/// Apply `m` to `img`, building the output row by row.
fn remap_image<T: Copy>(img: &Image<T>, m: Mapping) -> (out: Image<T>)
    requires
        img@.wf(),
        fits(m, img@.width, img@.height),
    ensures
        out@ == remap(img@, m),
{
    let w = img.width;
    let h = img.height;
    let (ow, oh): (usize, usize) = match m {
        Mapping::Rot90 => (h, w),
        Mapping::Rot270 => (h, w),
        Mapping::Crop { w: cw, h: ch, .. } => (cw, ch),
        _ => (w, h),
    };
    let ghost target = remap(img@, m);
    assert(ow * oh <= w * h) by (nonlinear_arith)
        requires
            (ow == w && oh == h) || (ow == h && oh == w) || (ow <= w && oh <= h),
    ;
    let len = img.data.len();
    assert(3 * w * h == len);
    let mut data: Vec<T> = Vec::new();
    let mut oy: usize = 0;
    while oy < oh
        invariant
            img@.wf(),
            fits(m, img@.width, img@.height),
            w == img.width,
            h == img.height,
            ow as nat == out_width(m, w as nat, h as nat),
            oh as nat == out_height(m, w as nat, h as nat),
            target == remap(img@, m),
            len == img.data@.len(),
            oy <= oh,
            data@.len() == 3 * (oy * ow),
            forall|k: int| 0 <= k < data@.len() ==> #[trigger] data@[k] == target.px[k],
        decreases oh - oy,
    {
        let mut ox: usize = 0;
        while ox < ow
            invariant
                img@.wf(),
                fits(m, img@.width, img@.height),
                w == img.width,
                h == img.height,
                ow as nat == out_width(m, w as nat, h as nat),
                oh as nat == out_height(m, w as nat, h as nat),
                target == remap(img@, m),
                len == img.data@.len(),
                oy < oh,
                ox <= ow,
                data@.len() == 3 * (oy * ow + ox),
                forall|k: int| 0 <= k < data@.len() ==> #[trigger] data@[k] == target.px[k],
            decreases ow - ox,
        {
            let (sx, sy): (usize, usize) = match m {
                Mapping::Rot90 => (oy, h - 1 - ox),
                Mapping::Rot180 => (w - 1 - ox, h - 1 - oy),
                Mapping::Rot270 => (w - 1 - oy, ox),
                Mapping::FlipH => (w - 1 - ox, oy),
                Mapping::FlipV => (ox, h - 1 - oy),
                Mapping::Crop { x0, y0, .. } => (x0 + ox, y0 + oy),
            };
            proof {
                assert((sx as int, sy as int) == source_of(m, w as int, h as int, ox as int, oy as int));
                lemma_remap_at(img@, m, ox as int, oy as int, 0);
                lemma_remap_at(img@, m, ox as int, oy as int, 1);
                lemma_remap_at(img@, m, ox as int, oy as int, 2);
                lemma_slot_encode(w as int, h as int, sx as int, sy as int, 2);
                lemma_slot_encode(ow as int, oh as int, ox as int, oy as int, 0);
                lemma_slot_encode(ow as int, oh as int, ox as int, oy as int, 2);
            }
            let base = 3 * (sy * w + sx);
            data.push(img.data[base]);
            data.push(img.data[base + 1]);
            data.push(img.data[base + 2]);
            ox = ox + 1;
        }
        assert(3 * (oy * ow + ow) == 3 * ((oy + 1) * ow)) by (nonlinear_arith);
        oy = oy + 1;
    }
    assert(3 * (oh * ow) == 3 * ow * oh) by (nonlinear_arith);
    assert(data@ =~= target.px);
    Image { width: ow, height: oh, data }
}

/// Rotate a quarter turn clockwise: output pixel `(x, y)` is source pixel
/// `(y, height - 1 - x)`.
pub fn rotate90<T: Copy>(img: &Image<T>) -> (out: Image<T>)
    requires
        img@.wf(),
    ensures
        out@ == rotated90(img@),
{
    remap_image(img, Mapping::Rot90)
}

/// Rotate a half turn.
pub fn rotate180<T: Copy>(img: &Image<T>) -> (out: Image<T>)
    requires
        img@.wf(),
    ensures
        out@ == rotated180(img@),
{
    remap_image(img, Mapping::Rot180)
}

/// Rotate a quarter turn counter-clockwise: output pixel `(x, y)` is
/// source pixel `(width - 1 - y, x)`.
pub fn rotate270<T: Copy>(img: &Image<T>) -> (out: Image<T>)
    requires
        img@.wf(),
    ensures
        out@ == rotated270(img@),
{
    remap_image(img, Mapping::Rot270)
}

/// Mirror left to right.
pub fn flip_h<T: Copy>(img: &Image<T>) -> (out: Image<T>)
    requires
        img@.wf(),
    ensures
        out@ == flipped_h(img@),
{
    remap_image(img, Mapping::FlipH)
}

/// Mirror top to bottom.
pub fn flip_v<T: Copy>(img: &Image<T>) -> (out: Image<T>)
    requires
        img@.wf(),
    ensures
        out@ == flipped_v(img@),
{
    remap_image(img, Mapping::FlipV)
}

/// Copy the `w` x `h` window whose top-left pixel is `(x0, y0)`.
pub fn crop<T: Copy>(img: &Image<T>, x0: usize, y0: usize, w: usize, h: usize) -> (out: Image<T>)
    requires
        img@.wf(),
        x0 + w <= img.width,
        y0 + h <= img.height,
    ensures
        out@ == cropped(img@, x0, y0, w, h),
{
    remap_image(img, Mapping::Crop { x0, y0, w, h })
}

pub open spec fn clamp_int(v: int, lo: int, hi: int) -> int {
    if v < lo {
        lo
    } else if v > hi {
        hi
    } else {
        v
    }
}

pub open spec fn min_int(a: int, b: int) -> int {
    if a <= b {
        a
    } else {
        b
    }
}

pub open spec fn max_int(a: int, b: int) -> int {
    if a >= b {
        a
    } else {
        b
    }
}

/// The pixel window of a crop whose corner and size, in pixels, were
/// rounded from the normalized crop rectangle: the corner is clamped into
/// the image, the size is at least 8 pixels but never past the image edge.
pub fn crop_window(width: usize, height: usize, rx: i64, ry: i64, rw: i64, rh: i64) -> (win: (usize, usize, usize, usize))
    requires
        0 < width <= i64::MAX,
        0 < height <= i64::MAX,
    ensures
        win.0 == clamp_int(rx as int, 0, width - 1),
        win.1 == clamp_int(ry as int, 0, height - 1),
        win.2 == min_int(max_int(rw as int, 8), width - win.0),
        win.3 == min_int(max_int(rh as int, 8), height - win.1),
        win.0 + win.2 <= width,
        win.1 + win.3 <= height,
{
    let x0: usize = if rx < 0 {
        0
    } else if rx > width as i64 - 1 {
        width - 1
    } else {
        rx as usize
    };
    let y0: usize = if ry < 0 {
        0
    } else if ry > height as i64 - 1 {
        height - 1
    } else {
        ry as usize
    };
    let cw0: i64 = if rw < 8 {
        8
    } else {
        rw
    };
    let ch0: i64 = if rh < 8 {
        8
    } else {
        rh
    };
    let cw: usize = if cw0 <= (width - x0) as i64 {
        cw0 as usize
    } else {
        width - x0
    };
    let ch: usize = if ch0 <= (height - y0) as i64 {
        ch0 as usize
    } else {
        height - y0
    };
    (x0, y0, cw, ch)
}

/// Quarter turns (`quarter_turns % 4` of them, clockwise) followed by the
/// optional horizontal and vertical mirror.
pub open spec fn oriented<T>(r: Raster<T>, quarter_turns: u32, mirror_h: bool, mirror_v: bool) -> Raster<T> {
    let turned = if quarter_turns % 4 == 1 {
        rotated90(r)
    } else if quarter_turns % 4 == 2 {
        rotated180(r)
    } else if quarter_turns % 4 == 3 {
        rotated270(r)
    } else {
        r
    };
    let mirrored = if mirror_h {
        flipped_h(turned)
    } else {
        turned
    };
    if mirror_v {
        flipped_v(mirrored)
    } else {
        mirrored
    }
}

/// The exact part of the orientation step of a recipe: quarter turns, then
/// the flips. (Straightening by a free angle resamples and is done by the
/// caller.)
pub fn orient<T: Copy>(img: Image<T>, quarter_turns: u32, mirror_h: bool, mirror_v: bool) -> (out: Image<T>)
    requires
        img@.wf(),
    ensures
        out@ == oriented(img@, quarter_turns, mirror_h, mirror_v),
        out@.wf(),
{
    let mut im = img;
    let q = quarter_turns % 4;
    if q == 1 {
        im = rotate90(&im);
    } else if q == 2 {
        im = rotate180(&im);
    } else if q == 3 {
        im = rotate270(&im);
    }
    proof {
        lemma_remap_wf(img@, Mapping::Rot90);
        lemma_remap_wf(img@, Mapping::Rot180);
        lemma_remap_wf(img@, Mapping::Rot270);
    }
    let ghost turned = im@;
    if mirror_h {
        im = flip_h(&im);
    }
    proof {
        lemma_remap_wf(turned, Mapping::FlipH);
    }
    let ghost mirrored = im@;
    if mirror_v {
        im = flip_v(&im);
    }
    proof {
        lemma_remap_wf(mirrored, Mapping::FlipV);
    }
    im
}

/// Where each pixel of an oriented raster comes from. With `q = quarter_turns % 4`
/// the result is `width x height` for an even `q` and `height x width` for an
/// odd one; its pixel `(x, y)` is found by first taking back the mirrors in
/// the result (`x` becomes `W - 1 - x` when mirrored horizontally, `y`
/// becomes `H - 1 - y` when mirrored vertically) and then taking back `q`
/// clockwise quarter turns. In particular one quarter turn followed by a
/// horizontal mirror is the transpose: pixel `(x, y)` is source pixel `(y, x)`.
pub proof fn law_orient_pixels<T>(r: Raster<T>, quarter_turns: u32, mirror_h: bool, mirror_v: bool, x: int, y: int, c: int)
    requires
        r.wf(),
    ensures
        ({
            let o = oriented(r, quarter_turns, mirror_h, mirror_v);
            let q = quarter_turns % 4;
            let w = r.width as int;
            let h = r.height as int;
            let ow = if q == 1 || q == 3 { h } else { w };
            let oh = if q == 1 || q == 3 { w } else { h };
            let mx = if mirror_h { ow - 1 - x } else { x };
            let my = if mirror_v { oh - 1 - y } else { y };
            let src = if q == 1 {
                (my, h - 1 - mx)
            } else if q == 2 {
                (w - 1 - mx, h - 1 - my)
            } else if q == 3 {
                (w - 1 - my, mx)
            } else {
                (mx, my)
            };
            &&& o.wf()
            &&& o.width == ow
            &&& o.height == oh
            &&& (0 <= x < ow && 0 <= y < oh && 0 <= c < 3 ==> r.in_bounds(src.0, src.1, c) && o.at(x, y, c) == r.at(src.0, src.1, c))
        }),
{
    let q = quarter_turns % 4;
    let t = if q == 1 {
        rotated90(r)
    } else if q == 2 {
        rotated180(r)
    } else if q == 3 {
        rotated270(r)
    } else {
        r
    };
    let m = if mirror_h { flipped_h(t) } else { t };
    let o = if mirror_v { flipped_v(m) } else { m };
    assert(o == oriented(r, quarter_turns, mirror_h, mirror_v));
    lemma_remap_wf(r, Mapping::Rot90);
    lemma_remap_wf(r, Mapping::Rot180);
    lemma_remap_wf(r, Mapping::Rot270);
    lemma_remap_wf(t, Mapping::FlipH);
    lemma_remap_wf(m, Mapping::FlipV);
    let ow = o.width as int;
    let oh = o.height as int;
    if 0 <= x < ow && 0 <= y < oh && 0 <= c < 3 {
        let mx = if mirror_h { ow - 1 - x } else { x };
        let my = if mirror_v { oh - 1 - y } else { y };
        if mirror_v {
            lemma_remap_at(m, Mapping::FlipV, x, y, c);
        }
        assert(o.at(x, y, c) == m.at(x, my, c));
        assert(m.in_bounds(x, my, c));
        if mirror_h {
            lemma_remap_at(t, Mapping::FlipH, x, my, c);
        }
        assert(m.at(x, my, c) == t.at(mx, my, c));
        assert(t.in_bounds(mx, my, c));
        if q == 1 {
            lemma_remap_at(r, Mapping::Rot90, mx, my, c);
        } else if q == 2 {
            lemma_remap_at(r, Mapping::Rot180, mx, my, c);
        } else if q == 3 {
            lemma_remap_at(r, Mapping::Rot270, mx, my, c);
        }
    }
}

/// A quarter turn clockwise followed by a quarter turn counter-clockwise
/// (in either order) gives back the original raster.
pub proof fn law_quarter_turns_cancel<T>(r: Raster<T>)
    requires
        r.wf(),
    ensures
        rotated270(rotated90(r)) == r,
        rotated90(rotated270(r)) == r,
{
    let a = rotated90(r);
    let b = rotated270(a);
    lemma_remap_wf(r, Mapping::Rot90);
    lemma_remap_wf(a, Mapping::Rot270);
    assert forall|x: int, y: int, c: int| #[trigger] b.in_bounds(x, y, c) implies b.at(x, y, c) == r.at(x, y, c) by {
        lemma_remap_at(a, Mapping::Rot270, x, y, c);
        lemma_remap_at(r, Mapping::Rot90, a.width - 1 - y, x, c);
    }
    lemma_raster_ext(b, r);
    let d = rotated270(r);
    let e = rotated90(d);
    lemma_remap_wf(r, Mapping::Rot270);
    lemma_remap_wf(d, Mapping::Rot90);
    assert forall|x: int, y: int, c: int| #[trigger] e.in_bounds(x, y, c) implies e.at(x, y, c) == r.at(x, y, c) by {
        lemma_remap_at(d, Mapping::Rot90, x, y, c);
        lemma_remap_at(r, Mapping::Rot270, y, d.height - 1 - x, c);
    }
    lemma_raster_ext(e, r);
}

/// Two quarter turns make a half turn.
pub proof fn law_two_quarter_turns<T>(r: Raster<T>)
    requires
        r.wf(),
    ensures
        rotated90(rotated90(r)) == rotated180(r),
{
    let a = rotated90(r);
    let b = rotated90(a);
    let h = rotated180(r);
    lemma_remap_wf(r, Mapping::Rot90);
    lemma_remap_wf(a, Mapping::Rot90);
    lemma_remap_wf(r, Mapping::Rot180);
    assert forall|x: int, y: int, c: int| #[trigger] b.in_bounds(x, y, c) implies b.at(x, y, c) == h.at(x, y, c) by {
        lemma_remap_at(a, Mapping::Rot90, x, y, c);
        lemma_remap_at(r, Mapping::Rot90, y, a.height - 1 - x, c);
        lemma_remap_at(r, Mapping::Rot180, x, y, c);
    }
    lemma_raster_ext(b, h);
}

/// Half turns, horizontal mirrors and vertical mirrors each undo
/// themselves.
pub proof fn law_half_turn_and_mirrors_are_involutions<T>(r: Raster<T>)
    requires
        r.wf(),
    ensures
        rotated180(rotated180(r)) == r,
        flipped_h(flipped_h(r)) == r,
        flipped_v(flipped_v(r)) == r,
{
    let a = rotated180(r);
    let b = rotated180(a);
    lemma_remap_wf(r, Mapping::Rot180);
    lemma_remap_wf(a, Mapping::Rot180);
    assert forall|x: int, y: int, c: int| #[trigger] b.in_bounds(x, y, c) implies b.at(x, y, c) == r.at(x, y, c) by {
        lemma_remap_at(a, Mapping::Rot180, x, y, c);
        lemma_remap_at(r, Mapping::Rot180, a.width - 1 - x, a.height - 1 - y, c);
    }
    lemma_raster_ext(b, r);
    let fa = flipped_h(r);
    let fb = flipped_h(fa);
    lemma_remap_wf(r, Mapping::FlipH);
    lemma_remap_wf(fa, Mapping::FlipH);
    assert forall|x: int, y: int, c: int| #[trigger] fb.in_bounds(x, y, c) implies fb.at(x, y, c) == r.at(x, y, c) by {
        lemma_remap_at(fa, Mapping::FlipH, x, y, c);
        lemma_remap_at(r, Mapping::FlipH, fa.width - 1 - x, y, c);
    }
    lemma_raster_ext(fb, r);
    let va = flipped_v(r);
    let vb = flipped_v(va);
    lemma_remap_wf(r, Mapping::FlipV);
    lemma_remap_wf(va, Mapping::FlipV);
    assert forall|x: int, y: int, c: int| #[trigger] vb.in_bounds(x, y, c) implies vb.at(x, y, c) == r.at(x, y, c) by {
        lemma_remap_at(va, Mapping::FlipV, x, y, c);
        lemma_remap_at(r, Mapping::FlipV, x, va.height - 1 - y, c);
    }
    lemma_raster_ext(vb, r);
}

/// Mirroring both ways is a half turn.
pub proof fn law_both_mirrors_make_half_turn<T>(r: Raster<T>)
    requires
        r.wf(),
    ensures
        flipped_v(flipped_h(r)) == rotated180(r),
{
    let a = flipped_h(r);
    let b = flipped_v(a);
    let h = rotated180(r);
    lemma_remap_wf(r, Mapping::FlipH);
    lemma_remap_wf(a, Mapping::FlipV);
    lemma_remap_wf(r, Mapping::Rot180);
    assert forall|x: int, y: int, c: int| #[trigger] b.in_bounds(x, y, c) implies b.at(x, y, c) == h.at(x, y, c) by {
        lemma_remap_at(a, Mapping::FlipV, x, y, c);
        lemma_remap_at(r, Mapping::FlipH, x, a.height - 1 - y, c);
        lemma_remap_at(r, Mapping::Rot180, x, y, c);
    }
    lemma_raster_ext(b, h);
}

/// Cropping the whole raster changes nothing.
pub proof fn law_full_crop_is_identity<T>(r: Raster<T>, w: usize, h: usize)
    requires
        r.wf(),
        w == r.width,
        h == r.height,
    ensures
        cropped(r, 0, 0, w, h) == r,
{
    let m = Mapping::Crop { x0: 0, y0: 0, w, h };
    let a = cropped(r, 0, 0, w, h);
    lemma_remap_wf(r, m);
    assert forall|x: int, y: int, c: int| #[trigger] a.in_bounds(x, y, c) implies a.at(x, y, c) == r.at(x, y, c) by {
        lemma_remap_at(r, m, x, y, c);
    }
    lemma_raster_ext(a, r);
}

} // verus!
