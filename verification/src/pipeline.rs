use vstd::prelude::*;
use vstd::arithmetic::div_mod::lemma_fundamental_div_mod;
use vstd::arithmetic::div_mod::lemma_fundamental_div_mod_converse;
use vstd::utf8::encode_utf8;
use crate::thumbs::{fnv1a, fnv1a_feed, FNV_OFFSET};

verus! {

/// Plane `s` (`h` rows of `w` values) read column by column: entry
/// `x * h + y` of the result is entry `y * w + x` of `s`.
pub open spec fn transposed<T>(s: Seq<T>, w: nat, h: nat) -> Seq<T> {
    Seq::new(w * h, |i: int| s[(i % (h as int)) * (w as int) + i / (h as int)])
}

proof fn lemma_plane_index(w: int, h: int, x: int, y: int)
    requires
        0 <= x < w,
        0 <= y < h,
    ensures
        0 <= x * h + y < w * h,
        0 <= y * w + x < w * h,
        (x * h + y) % h == y,
        (x * h + y) / h == x,
{
    assert(0 <= x * h + y < w * h) by (nonlinear_arith)
        requires
            0 <= x < w,
            0 <= y < h,
    ;
    assert(0 <= y * w + x < w * h) by (nonlinear_arith)
        requires
            0 <= x < w,
            0 <= y < h,
    ;
    lemma_fundamental_div_mod_converse(x * h + y, h, x, y);
}

/// Swap the rows and columns of a single-channel `w` x `h` plane.
pub fn transpose<T: Copy>(src: &Vec<T>, w: usize, h: usize) -> (out: Vec<T>)
    requires
        src@.len() == w * h,
    ensures
        out@ == transposed(src@, w as nat, h as nat),
        forall|x: int, y: int| 0 <= x < w && 0 <= y < h ==> #[trigger] out@[x * h + y] == src@[y * w + x],
{
    let ghost target = transposed(src@, w as nat, h as nat);
    let len = src.len();
    let mut out: Vec<T> = Vec::with_capacity(len);
    let mut x: usize = 0;
    while x < w
        invariant
            src@.len() == w * h,
            len == src@.len(),
            target == transposed(src@, w as nat, h as nat),
            x <= w,
            out@.len() == x * h,
            forall|k: int| 0 <= k < out@.len() ==> #[trigger] out@[k] == target[k],
        decreases w - x,
    {
        let mut y: usize = 0;
        while y < h
            invariant
                src@.len() == w * h,
                len == src@.len(),
                target == transposed(src@, w as nat, h as nat),
                x < w,
                y <= h,
                out@.len() == x * h + y,
                forall|k: int| 0 <= k < out@.len() ==> #[trigger] out@[k] == target[k],
            decreases h - y,
        {
            proof {
                lemma_plane_index(w as int, h as int, x as int, y as int);
            }
            out.push(src[y * w + x]);
            y = y + 1;
        }
        assert(x * h + h == (x + 1) * h) by (nonlinear_arith);
        x = x + 1;
    }
    assert(out@ =~= target);
    proof {
        assert forall|x: int, y: int| 0 <= x < w && 0 <= y < h implies #[trigger] out@[x * h + y] == src@[y * w + x] by {
            lemma_plane_index(w as int, h as int, x, y);
        }
    }
    out
}

/// Transposing a plane and then transposing the result back gives the
/// original plane.
pub proof fn law_transpose_twice<T>(s: Seq<T>, w: nat, h: nat)
    requires
        s.len() == w * h,
    ensures
        transposed(transposed(s, w, h), h, w) == s,
{
    let t = transposed(s, w, h);
    let u = transposed(t, h, w);
    assert(h * w == w * h) by (nonlinear_arith);
    assert forall|j: int| 0 <= j < s.len() implies u[j] == s[j] by {
        assert(w > 0) by (nonlinear_arith)
            requires
                0 <= j < w * h,
        ;
        lemma_fundamental_div_mod(j, w as int);
        let y = j / (w as int);
        let x = j % (w as int);
        assert(0 <= x < w);
        assert(0 <= y < h) by (nonlinear_arith)
            requires
                j == w * y + x,
                0 <= x < w,
                0 <= j < w * h,
        ;
        lemma_plane_index(w as int, h as int, x, y);
        assert(j == y * w + x) by (nonlinear_arith)
            requires
                j == w * y + x,
        ;
    }
    assert(u =~= s);
}

/// The 16-bit noise word of the film-grain effect at pixel `(x, y)`: an
/// integer hash, so the grain pattern is the same on every render.
pub open spec fn grain_noise_spec(x: u32, y: u32) -> u32 {
    let h0 = x.wrapping_mul(374_761_393).wrapping_add(y.wrapping_mul(668_265_263));
    let h1 = (h0 ^ (h0 >> 13u32)).wrapping_mul(1_274_126_177);
    (h1 ^ (h1 >> 16u32)) & 0xFFFFu32
}

pub fn grain_noise(x: u32, y: u32) -> (n: u32)
    ensures
        n == grain_noise_spec(x, y),
        n < 65536,
{
    let h0 = x.wrapping_mul(374_761_393).wrapping_add(y.wrapping_mul(668_265_263));
    let h1 = (h0 ^ (h0 >> 13u32)).wrapping_mul(1_274_126_177);
    let n = (h1 ^ (h1 >> 16u32)) & 0xFFFFu32;
    assert(n & 0xFFFFu32 == n ==> n < 65536) by (bit_vector);
    assert((h1 ^ (h1 >> 16u32)) & 0xFFFFu32 < 65536) by (bit_vector);
    n
}

/// Key of the cached pre-tone stage: FNV-1a of the JSON text that lists
/// the recipe parts ahead of the tone controls.
pub fn stage_key(stage_json: &str) -> (k: u64)
    ensures
        k == fnv1a(FNV_OFFSET, encode_utf8(stage_json@)),
{
    fnv1a_feed(FNV_OFFSET, stage_json.as_bytes())
}

} // verus!
