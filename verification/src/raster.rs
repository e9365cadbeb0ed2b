use vstd::prelude::*;
use vstd::arithmetic::div_mod::lemma_fundamental_div_mod;
use vstd::arithmetic::div_mod::lemma_fundamental_div_mod_converse;

verus! {

/// Mathematical picture of a three-channel raster: channel `c` of pixel
/// `(x, y)` is `px[3 * (y * width + x) + c]`.
pub struct Raster<T> {
    pub width: nat,
    pub height: nat,
    pub px: Seq<T>,
}

/// Position of channel `c` of pixel `(x, y)` in a row-major, three-channel
/// buffer whose rows are `w` pixels wide.
pub open spec fn slot(w: int, x: int, y: int, c: int) -> int {
    3 * (y * w + x) + c
}

impl<T> Raster<T> {
    pub open spec fn wf(self) -> bool {
        self.px.len() == 3 * self.width * self.height
    }

    pub open spec fn at(self, x: int, y: int, c: int) -> T {
        self.px[slot(self.width as int, x, y, c)]
    }

    pub open spec fn in_bounds(self, x: int, y: int, c: int) -> bool {
        0 <= x < self.width && 0 <= y < self.height && 0 <= c < 3
    }
}

/// The slot of an in-range pixel channel lies inside the buffer, and the
/// slot decodes back to the pixel and channel.
pub proof fn lemma_slot_encode(w: int, h: int, x: int, y: int, c: int)
    requires
        0 <= x < w,
        0 <= y < h,
        0 <= c < 3,
    ensures
        0 <= slot(w, x, y, c) < 3 * w * h,
        slot(w, x, y, c) % 3 == c,
        (slot(w, x, y, c) / 3) % w == x,
        (slot(w, x, y, c) / 3) / w == y,
        y * w + x < w * h,
        y * w <= w * h - w,
{
    let k = slot(w, x, y, c);
    let p = y * w + x;
    assert(0 <= y * w) by (nonlinear_arith)
        requires
            0 <= y,
            0 <= w,
    ;
    assert(y * w + x < w * h) by (nonlinear_arith)
        requires
            0 <= x < w,
            0 <= y < h,
    ;
    assert(y * w <= w * h - w) by (nonlinear_arith)
        requires
            0 <= y < h,
            0 <= w,
    ;
    assert(3 * (y * w + x) + c < 3 * w * h) by (nonlinear_arith)
        requires
            y * w + x < w * h,
            0 <= c < 3,
    ;
    lemma_fundamental_div_mod_converse(k, 3, p, c);
    lemma_fundamental_div_mod_converse(p, w, y, x);
}

/// Every buffer position decomposes into a pixel and a channel.
pub proof fn lemma_slot_decode(w: int, h: int, k: int)
    requires
        0 < w,
        0 <= h,
        0 <= k < 3 * w * h,
    ensures
        0 <= (k / 3) % w < w,
        0 <= (k / 3) / w < h,
        0 <= k % 3 < 3,
        k == slot(w, (k / 3) % w, (k / 3) / w, k % 3),
{
    let p = k / 3;
    lemma_fundamental_div_mod(k, 3);
    lemma_fundamental_div_mod(p, w);
    assert(0 <= k % 3 < 3);
    assert(0 <= p);
    assert(p < w * h) by (nonlinear_arith)
        requires
            k == 3 * p + k % 3,
            0 <= k % 3 < 3,
            k < 3 * w * h,
    ;
    assert(0 <= p % w < w);
    assert(0 <= p / w < h) by (nonlinear_arith)
        requires
            p == w * (p / w) + p % w,
            0 <= p % w < w,
            0 <= p < w * h,
            0 < w,
    ;
    assert(k == slot(w, p % w, p / w, k % 3)) by (nonlinear_arith)
        requires
            k == 3 * p + k % 3,
            p == w * (p / w) + p % w,
    ;
}

/// Two well-formed rasters of the same size that agree on every pixel
/// channel are equal.
pub proof fn lemma_raster_ext<T>(a: Raster<T>, b: Raster<T>)
    requires
        a.wf(),
        b.wf(),
        a.width == b.width,
        a.height == b.height,
        forall|x: int, y: int, c: int| #[trigger]
            a.in_bounds(x, y, c) ==> a.at(x, y, c) == b.at(x, y, c),
    ensures
        a == b,
{
    if a.width == 0 {
        assert(a.px.len() == 0) by (nonlinear_arith)
            requires
                a.px.len() == 3 * a.width * a.height,
                a.width == 0,
        ;
        assert(a.px =~= b.px);
    } else {
        assert forall|k: int| 0 <= k < a.px.len() implies a.px[k] == b.px[k] by {
            lemma_slot_decode(a.width as int, a.height as int, k);
            let x = (k / 3) % (a.width as int);
            let y = (k / 3) / (a.width as int);
            assert(a.in_bounds(x, y, k % 3));
        }
        assert(a.px =~= b.px);
    }
}

/// Interleaved three-channel image, row-major. The engine works on `f32`
/// light values; everything here only moves pixels, so any copyable
/// channel type will do.
#[derive(Clone)]
pub struct Image<T> {
    pub width: usize,
    pub height: usize,
    pub data: Vec<T>,
}

impl<T> View for Image<T> {
    type V = Raster<T>;

    open spec fn view(&self) -> Raster<T> {
        Raster { width: self.width as nat, height: self.height as nat, px: self.data@ }
    }
}

impl<T: Copy> Image<T> {
    /// A `width` x `height` image with every channel set to `fill`.
    pub fn new(width: usize, height: usize, fill: T) -> (img: Self)
        requires
            3 * width * height <= usize::MAX,
        ensures
            img@.wf(),
            img.width == width,
            img.height == height,
            forall|i: int| 0 <= i < img.data@.len() ==> #[trigger] img.data@[i] == fill,
    {
        assert(3 * width * height == 3 * (width * height)) by (nonlinear_arith);
        assert(width * height <= usize::MAX) by (nonlinear_arith)
            requires
                3 * width * height <= usize::MAX,
        ;
        let n: usize = 3 * (width * height);
        let mut data: Vec<T> = Vec::with_capacity(n);
        let mut i: usize = 0;
        while i < n
            invariant
                i <= n,
                data@.len() == i,
                forall|j: int| 0 <= j < i ==> #[trigger] data@[j] == fill,
            decreases n - i,
        {
            data.push(fill);
            i = i + 1;
        }
        Image { width, height, data }
    }

    /// The three channels of pixel `(x, y)`.
    pub fn px(&self, x: usize, y: usize) -> (p: [T; 3])
        requires
            self@.wf(),
            x < self.width,
            y < self.height,
        ensures
            p@ == seq![self@.at(x as int, y as int, 0), self@.at(x as int, y as int, 1), self@.at(x as int, y as int, 2)],
    {
        proof {
            lemma_slot_encode(self.width as int, self.height as int, x as int, y as int, 2);
        }
        let len = self.data.len();
        let i = 3 * (y * self.width + x);
        [self.data[i], self.data[i + 1], self.data[i + 2]]
    }

    /// Overwrite the three channels of pixel `(x, y)`.
    pub fn set(&mut self, x: usize, y: usize, p: [T; 3])
        requires
            old(self)@.wf(),
            x < old(self).width,
            y < old(self).height,
        ensures
            final(self).width == old(self).width,
            final(self).height == old(self).height,
            final(self).data@ == old(self).data@.update(slot(old(self).width as int, x as int, y as int, 0), p[0])
                .update(slot(old(self).width as int, x as int, y as int, 1), p[1])
                .update(slot(old(self).width as int, x as int, y as int, 2), p[2]),
    {
        proof {
            lemma_slot_encode(self.width as int, self.height as int, x as int, y as int, 2);
        }
        let len = self.data.len();
        let i = 3 * (y * self.width + x);
        self.data.set(i, p[0]);
        self.data.set(i + 1, p[1]);
        self.data.set(i + 2, p[2]);
    }
}

} // verus!
