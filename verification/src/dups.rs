use vstd::prelude::*;
use vstd::arithmetic::power2::{lemma2_to64, lemma_pow2_adds, lemma_pow2_pos, lemma_pow2_unfold, pow2};
use vstd::arithmetic::div_mod::{lemma_fundamental_div_mod, lemma_fundamental_div_mod_converse, lemma_mod_multiples_vanish};

verus! {

/// Number of set bits.
pub open spec fn popcount(x: u64) -> nat
    decreases x,
{
    if x == 0 {
        0
    } else {
        (x % 2) as nat + popcount(x / 2)
    }
}

proof fn lemma_popcount_bound(x: u64, k: nat)
    requires
        x < pow2(k),
    ensures
        popcount(x) <= k,
    decreases k,
{
    if k == 0 {
        lemma2_to64();
    } else if x > 0 {
        lemma_pow2_unfold(k);
        lemma_popcount_bound(x / 2, (k - 1) as nat);
    }
}

/// Number of set bits (`u64::count_ones`).
pub fn count_ones(x: u64) -> (n: u32)
    ensures
        n == popcount(x),
{
    proof {
        lemma2_to64();
        lemma_popcount_bound(x, 64);
    }
    let mut y = x;
    let mut n: u32 = 0;
    while y != 0
        invariant
            n + popcount(y) == popcount(x),
            popcount(x) <= 64,
        decreases y,
    {
        assert(y & 1 == y % 2) by (bit_vector);
        assert(y >> 1 == y / 2) by (bit_vector);
        n = n + (y & 1) as u32;
        y = y >> 1;
    }
    n
}

/// Bit `k` (row `k / 8`, column `k % 8`) of a difference hash: whether a
/// pixel of the 9 x 8 plane is brighter than its right neighbour.
pub open spec fn dhash_bit(px: Seq<u8>, k: int) -> bool {
    px[(k / 8) * 9 + k % 8] > px[(k / 8) * 9 + k % 8 + 1]
}

/// The first `k` bits of the difference hash of a 9 x 8 luma plane, as a
/// number.
pub open spec fn dhash_value(px: Seq<u8>, k: nat) -> nat
    decreases k,
{
    if k == 0 {
        0
    } else {
        dhash_value(px, (k - 1) as nat) + if dhash_bit(px, k - 1) {
            pow2((k - 1) as nat)
        } else {
            0
        }
    }
}

proof fn lemma_dhash_bound(px: Seq<u8>, k: nat)
    ensures
        dhash_value(px, k) < pow2(k),
    decreases k,
{
    if k == 0 {
        lemma2_to64();
    } else {
        lemma_dhash_bound(px, (k - 1) as nat);
        lemma_pow2_unfold(k);
    }
}

/// 64-bit difference hash of a 9 x 8 luma plane (rows of 9 pixels): bit
/// `y * 8 + x` is set when pixel `(x, y)` is brighter than pixel `(x + 1, y)`.
pub fn dhash_bits(px: &Vec<u8>) -> (bits: u64)
    requires
        px@.len() == 72,
    ensures
        bits == dhash_value(px@, 64),
        forall|x: int, y: int|
            0 <= x < 8 && 0 <= y < 8 ==> (#[trigger] hash_bit_at(bits, x, y) <==> px@[y * 9 + x] > px@[y * 9 + x + 1]),
{
    proof {
        lemma2_to64();
    }
    let mut bits: u64 = 0;
    let mut bit: u64 = 1;
    let mut k: usize = 0;
    while k < 64
        invariant
            px@.len() == 72,
            k <= 64,
            bits == dhash_value(px@, k as nat),
            k < 64 ==> bit == pow2(k as nat),
            pow2(64) == 0x1_0000_0000_0000_0000,
        decreases 64 - k,
    {
        proof {
            lemma_dhash_bound(px@, k as nat);
            lemma_pow2_unfold((k + 1) as nat);
            if k + 1 < 64 {
                vstd::arithmetic::power2::lemma_pow2_strictly_increases((k + 1) as nat, 64);
            }
        }
        let i = (k / 8) * 9 + k % 8;
        if px[i] > px[i + 1] {
            bits = bits + bit;
        }
        if k < 63 {
            bit = bit * 2;
        }
        k = k + 1;
    }
    proof {
        assert forall|x: int, y: int| 0 <= x < 8 && 0 <= y < 8 implies (#[trigger] hash_bit_at(bits, x, y)
            <==> px@[y * 9 + x] > px@[y * 9 + x + 1]) by {
            law_dhash_compares_right_neighbours(px@, x, y);
            let sh = (y * 8 + x) as u64;
            vstd::bits::lemma_u64_shr_is_div(bits, sh);
            let t = bits >> sh;
            assert(t & 1u64 == t % 2) by (bit_vector);
        }
    }
    bits
}

/// Whether bit `y * 8 + x` of a hash, the bit of pixel `(x, y)`, is set.
pub open spec fn hash_bit_at(h: u64, x: int, y: int) -> bool {
    (h >> ((y * 8 + x) as u64)) & 1u64 == 1u64
}

/// Bit `k` of the first `n` hash bits, read off the number, is the
/// comparison that bit `k` records.
proof fn lemma_dhash_bit_of_value(px: Seq<u8>, n: nat, k: nat)
    requires
        k < n,
    ensures
        (dhash_value(px, n) / pow2(k)) % 2 == (if dhash_bit(px, k as int) { 1int } else { 0int }),
    decreases n,
{
    let m = (n - 1) as nat;
    let v = dhash_value(px, m);
    let b: int = if dhash_bit(px, m as int) { 1 } else { 0 };
    lemma_dhash_bound(px, m);
    lemma_pow2_pos(k);
    assert(dhash_value(px, n) == v + b * pow2(m));
    if k == m {
        lemma_fundamental_div_mod_converse(dhash_value(px, n) as int, pow2(k) as int, b, v as int);
        lemma_fundamental_div_mod_converse(b, 2, 0, b);
    } else {
        lemma_dhash_bit_of_value(px, m, k);
        let e = (m - k) as nat;
        lemma_pow2_adds(k, e);
        lemma_pow2_unfold(e);
        let p = pow2(k) as int;
        let q = v as int / p;
        let r = v as int % p;
        lemma_fundamental_div_mod(v as int, p);
        let half = pow2((e - 1) as nat) as int;
        assert(pow2(m) == p * (2 * half)) by {
            assert(pow2(e) == 2 * pow2((e - 1) as nat));
        }
        assert(dhash_value(px, n) == (q + 2 * (b * half)) * p + r) by (nonlinear_arith)
            requires
                dhash_value(px, n) == v + b * pow2(m),
                pow2(m) == p * (2 * half),
                v == p * q + r,
        ;
        lemma_fundamental_div_mod_converse(dhash_value(px, n) as int, p, q + 2 * (b * half), r);
        lemma_mod_multiples_vanish(b * half, q, 2);
    }
}

/// What a difference hash says about the plane it came from: for every
/// pixel `(x, y)` of the left 8 columns of a 9 x 8 plane, bit `y * 8 + x`
/// of the hash is set exactly when that pixel is brighter than its right
/// neighbour `(x + 1, y)`, and no other pixel decides that bit.
pub proof fn law_dhash_compares_right_neighbours(px: Seq<u8>, x: int, y: int)
    requires
        px.len() == 72,
        0 <= x < 8,
        0 <= y < 8,
    ensures
        (dhash_value(px, 64) / pow2((y * 8 + x) as nat)) % 2 == 1 <==> px[y * 9 + x] > px[y * 9 + x + 1],
{
    let k = y * 8 + x;
    lemma_fundamental_div_mod_converse(k, 8, y, x);
    lemma_dhash_bit_of_value(px, 64, k as nat);
}

/// Two perceptual hashes count as near duplicates when they differ in at
/// most `threshold` bits.
pub open spec fn near(h: Seq<u64>, threshold: u32, i: int, j: int) -> bool {
    0 <= i < h.len() && 0 <= j < h.len() && popcount(h[i] ^ h[j]) <= threshold
}

/// `p` walks from photo to photo over near-duplicate pairs.
pub open spec fn is_walk(h: Seq<u64>, threshold: u32, p: Seq<int>) -> bool {
    &&& p.len() >= 1
    &&& forall|k: int| 0 <= k < p.len() ==> 0 <= #[trigger] p[k] < h.len()
    &&& forall|k: int| 0 <= k < p.len() - 1 ==> near(h, threshold, #[trigger] p[k], p[k + 1])
}

/// Photos `i` and `j` are in one duplicate cluster: a chain of near
/// duplicates links them.
pub open spec fn linked(h: Seq<u64>, threshold: u32, i: int, j: int) -> bool {
    exists|p: Seq<int>| #[trigger] is_walk(h, threshold, p) && p[0] == i && p.last() == j
}

proof fn lemma_near_symmetric(h: Seq<u64>, threshold: u32, i: int, j: int)
    requires
        near(h, threshold, i, j),
    ensures
        near(h, threshold, j, i),
{
    let a = h[i];
    let b = h[j];
    assert(a ^ b == b ^ a) by (bit_vector);
}

proof fn lemma_linked_refl(h: Seq<u64>, threshold: u32, i: int)
    requires
        0 <= i < h.len(),
    ensures
        linked(h, threshold, i, i),
{
    let p = seq![i];
    assert(is_walk(h, threshold, p));
}

proof fn lemma_linked_edge(h: Seq<u64>, threshold: u32, i: int, j: int)
    requires
        near(h, threshold, i, j),
    ensures
        linked(h, threshold, i, j),
{
    let p = seq![i, j];
    assert(is_walk(h, threshold, p));
}

#[verifier::rlimit(40)]
proof fn lemma_linked_trans(h: Seq<u64>, threshold: u32, i: int, j: int, k: int)
    requires
        linked(h, threshold, i, j),
        linked(h, threshold, j, k),
    ensures
        linked(h, threshold, i, k),
{
    let p = choose|p: Seq<int>| #[trigger] is_walk(h, threshold, p) && p[0] == i && p.last() == j;
    let q = choose|q: Seq<int>| #[trigger] is_walk(h, threshold, q) && q[0] == j && q.last() == k;
    let r = p + q.drop_first();
    assert forall|m: int| 0 <= m < r.len() - 1 implies near(h, threshold, #[trigger] r[m], r[m + 1]) by {
        if m < p.len() - 1 {
            assert(r[m] == p[m] && r[m + 1] == p[m + 1]);
        } else if m == p.len() - 1 {
            assert(r[m] == q[0]);
            assert(r[m + 1] == q[1]);
        } else {
            assert(r[m] == q[m - p.len() + 1]);
            assert(r[m + 1] == q[m - p.len() + 2]);
        }
    }
    assert forall|m: int| 0 <= m < r.len() implies 0 <= #[trigger] r[m] < h.len() by {
        if m < p.len() {
            assert(r[m] == p[m]);
        } else {
            assert(r[m] == q[m - p.len() + 1]);
        }
    }
    assert(is_walk(h, threshold, r));
    if q.len() == 1 {
        assert(r.last() == p.last());
    } else {
        assert(r.last() == q.last());
    }
}

proof fn lemma_linked_symm(h: Seq<u64>, threshold: u32, i: int, j: int)
    requires
        linked(h, threshold, i, j),
    ensures
        linked(h, threshold, j, i),
{
    let p = choose|p: Seq<int>| #[trigger] is_walk(h, threshold, p) && p[0] == i && p.last() == j;
    let r = p.reverse();
    assert forall|m: int| 0 <= m < r.len() - 1 implies near(h, threshold, #[trigger] r[m], r[m + 1]) by {
        let a = p.len() - 2 - m;
        assert(r[m] == p[a + 1]);
        assert(r[m + 1] == p[a]);
        assert(near(h, threshold, p[a], p[a + 1]));
        lemma_near_symmetric(h, threshold, p[a], p[a + 1]);
    }
    assert forall|m: int| 0 <= m < r.len() implies 0 <= #[trigger] r[m] < h.len() by {
        assert(r[m] == p[p.len() - 1 - m]);
    }
    assert(is_walk(h, threshold, r));
    assert(r[0] == j);
    assert(r.last() == i);
}

/// The union-find forest invariant. `rep` is each element's root, `ht` a
/// height that grows strictly toward the root, bounded by the number of
/// unions done so far.
#[verifier::opaque]
spec fn forest(h: Seq<u64>, threshold: u32, p: Seq<usize>, rep: Seq<int>, ht: Seq<nat>, unions: nat) -> bool {
    let n = h.len();
    &&& p.len() == n
    &&& rep.len() == n
    &&& ht.len() == n
    &&& forall|i: int| 0 <= i < n ==> #[trigger] p[i] < n
    &&& forall|i: int| 0 <= i < n ==> 0 <= #[trigger] rep[i] < n
    &&& forall|i: int| 0 <= i < n ==> rep[p[i] as int] == #[trigger] rep[i]
    &&& forall|i: int| 0 <= i < n ==> p[#[trigger] rep[i]] == rep[i]
    &&& forall|i: int| 0 <= i < n && #[trigger] p[i] == i ==> rep[i] == i
    &&& forall|i: int| 0 <= i < n && #[trigger] p[i] != i ==> ht[p[i] as int] > ht[i]
    &&& forall|i: int| 0 <= i < n ==> #[trigger] ht[i] <= unions
    &&& forall|i: int| 0 <= i < n ==> linked(h, threshold, i, #[trigger] rep[i])
}

/// Root of `i`'s tree, halving the path on the way up.
fn find(
    parent: &mut Vec<usize>,
    i: usize,
    Ghost(h): Ghost<Seq<u64>>,
    Ghost(threshold): Ghost<u32>,
    Ghost(rep): Ghost<Seq<int>>,
    Ghost(ht): Ghost<Seq<nat>>,
    Ghost(unions): Ghost<nat>,
) -> (r: usize)
    requires
        forest(h, threshold, old(parent)@, rep, ht, unions),
        i < h.len(),
    ensures
        forest(h, threshold, final(parent)@, rep, ht, unions),
        r == rep[i as int],
        r < h.len(),
        final(parent)@.len() == h.len(),
{
    reveal(forest);
    let mut x = i;
    while parent[x] != x
        invariant
            forest(h, threshold, parent@, rep, ht, unions),
            parent@.len() == h.len(),
            x < h.len(),
            rep[x as int] == rep[i as int],
        decreases unions - ht[x as int],
    {
        proof {
            reveal(forest);
        }
        let px = parent[x];
        let ppx = parent[px];
        let ghost p0 = parent@;
        parent.set(x, ppx);
        proof {
            let n = h.len();
            let p1 = parent@;
            assert(forall|k: int| 0 <= k < n && k != x ==> p1[k] == p0[k]);
            assert forall|k: int| 0 <= k < n implies p1[#[trigger] rep[k]] == rep[k] by {
                if rep[k] == x as int {
                    assert(p0[x as int] == x);
                }
            }
            assert forall|k: int| 0 <= k < n && #[trigger] p1[k] != k implies ht[p1[k] as int] > ht[k] by {
                if k == x as int {
                    if p0[px as int] != px {
                        assert(ht[ppx as int] > ht[px as int]);
                    }
                }
            }
            assert forall|k: int| 0 <= k < n implies rep[p1[k] as int] == #[trigger] rep[k] by {
                if k == x as int {
                    assert(rep[ppx as int] == rep[px as int]);
                }
            }
            assert forall|k: int| 0 <= k < n && #[trigger] p1[k] == k implies rep[k] == k by {
                if k == x as int {
                    assert(ht[ppx as int] > ht[x as int] || ppx == px);
                }
            }
        }
        x = parent[x];
    }
    proof {
        reveal(forest);
    }
    x
}

/// Cluster label of every photo: two photos get the same label exactly when
/// a chain of near-duplicate pairs (hash distance at most `threshold`)
/// links them.
pub fn cluster_labels(hashes: &Vec<u64>, threshold: u32) -> (labels: Vec<usize>)
    ensures
        labels@.len() == hashes@.len(),
        forall|i: int| 0 <= i < labels@.len() ==> #[trigger] labels@[i] < hashes@.len(),
        forall|i: int, j: int|
            0 <= i < labels@.len() && 0 <= j < labels@.len() ==> (#[trigger] labels@[i] == #[trigger] labels@[j]
                <==> linked(hashes@, threshold, i, j)),
{
    let n = hashes.len();
    let ghost h = hashes@;
    let mut parent: Vec<usize> = Vec::new();
    let mut k: usize = 0;
    while k < n
        invariant
            k <= n,
            n == h.len(),
            parent@.len() == k,
            forall|m: int| 0 <= m < k ==> #[trigger] parent@[m] == m,
        decreases n - k,
    {
        parent.push(k);
        k = k + 1;
    }
    let ghost mut rep: Seq<int> = Seq::new(n as nat, |m: int| m);
    let ghost mut ht: Seq<nat> = Seq::new(n as nat, |m: int| 0nat);
    let ghost mut unions: nat = 0;
    proof {
        reveal(forest);
        assert forall|m: int| 0 <= m < n implies linked(h, threshold, m, #[trigger] rep[m]) by {
            lemma_linked_refl(h, threshold, m);
        }
    }
    let mut i: usize = 0;
    while i < n
        invariant
            n == h.len(),
            h == hashes@,
            i <= n,
            forest(h, threshold, parent@, rep, ht, unions),
            parent@.len() == n,
            forall|a: int, b: int| 0 <= a < i && a < b < n && near(h, threshold, a, b) ==> #[trigger] rep[a] == #[trigger] rep[b],
        decreases n - i,
    {
        let mut j: usize = i + 1;
        while j < n
            invariant
                n == h.len(),
                h == hashes@,
                i < n,
                i + 1 <= j <= n,
                forest(h, threshold, parent@, rep, ht, unions),
                parent@.len() == n,
                forall|a: int, b: int| 0 <= a < i && a < b < n && near(h, threshold, a, b) ==> #[trigger] rep[a] == #[trigger] rep[b],
                forall|b: int| i < b < j && near(h, threshold, i as int, b) ==> rep[i as int] == #[trigger] rep[b],
            decreases n - j,
        {
            let d = count_ones(hashes[i] ^ hashes[j]);
            if d <= threshold {
                let a = find(&mut parent, i, Ghost(h), Ghost(threshold), Ghost(rep), Ghost(ht), Ghost(unions));
                let b = find(&mut parent, j, Ghost(h), Ghost(threshold), Ghost(rep), Ghost(ht), Ghost(unions));
                if a != b {
                    let ghost p0 = parent@;
                    let ghost rep0 = rep;
                    parent.set(a, b);
                    proof {
                        assert(parent@ == p0.update(a as int, b));
                        lemma_union(h, threshold, p0, rep, ht, unions, a as int, b as int, i as int, j as int);
                        rep = merged_rep(rep0, a as int, b as int);
                        ht = merged_ht(ht, a as int, b as int);
                        unions = unions + 1;
                        assert forall|x: int, y: int| 0 <= x < i && x < y < n && near(h, threshold, x, y) implies #[trigger] rep[x] == #[trigger] rep[y] by {
                            assert(rep0[x] == rep0[y]);
                        }
                        assert forall|y: int| i < y < j + 1 && near(h, threshold, i as int, y) implies rep[i as int] == #[trigger] rep[y] by {
                            if y < j {
                                assert(rep0[i as int] == rep0[y]);
                            }
                        }
                    }
                }
            }
            j = j + 1;
        }
        proof {
            assert forall|a: int, b: int| 0 <= a < i + 1 && a < b < n && near(h, threshold, a, b) implies #[trigger] rep[a] == #[trigger] rep[b] by {
                if a == i as int {
                }
            }
        }
        i = i + 1;
    }
    let mut labels: Vec<usize> = Vec::new();
    let mut m: usize = 0;
    while m < n
        invariant
            n == h.len(),
            h == hashes@,
            m <= n,
            forest(h, threshold, parent@, rep, ht, unions),
            parent@.len() == n,
            labels@.len() == m,
            forall|k: int| 0 <= k < m ==> #[trigger] labels@[k] == rep[k],
        decreases n - m,
    {
        let r = find(&mut parent, m, Ghost(h), Ghost(threshold), Ghost(rep), Ghost(ht), Ghost(unions));
        labels.push(r);
        m = m + 1;
    }
    proof {
        lemma_rep_exact(h, threshold, rep, parent@, ht, unions);
    }
    labels
}

#[verifier::opaque]
spec fn merged_rep(rep0: Seq<int>, a: int, b: int) -> Seq<int> {
    Seq::new(rep0.len(), |m: int| if rep0[m] == a { b } else { rep0[m] })
}

spec fn merged_ht(ht0: Seq<nat>, a: int, b: int) -> Seq<nat> {
    ht0.update(b, if ht0[b] >= ht0[a] + 1 { ht0[b] } else { ht0[a] + 1 })
}

/// Hanging root `a` under root `b`, for the near pair `(i, j)` with
/// `i` under `a` and `j` under `b`, keeps the forest invariant.
proof fn lemma_union(
    h: Seq<u64>,
    threshold: u32,
    p0: Seq<usize>,
    rep0: Seq<int>,
    ht0: Seq<nat>,
    unions: nat,
    a: int,
    b: int,
    i: int,
    j: int,
)
    requires
        forest(h, threshold, p0, rep0, ht0, unions),
        0 <= i < h.len(),
        0 <= j < h.len(),
        near(h, threshold, i, j),
        rep0[i] == a,
        rep0[j] == b,
        a != b,
    ensures
        forest(h, threshold, p0.update(a, b as usize), merged_rep(rep0, a, b), merged_ht(ht0, a, b), unions + 1),
        forall|x: int| 0 <= x < h.len() ==> #[trigger] merged_rep(rep0, a, b)[x] == (if rep0[x] == a { b } else { rep0[x] }),
{
    reveal(forest);
    reveal(merged_rep);
    let nn = h.len() as int;
    let rep = merged_rep(rep0, a, b);
    let ht = merged_ht(ht0, a, b);
    let p1 = p0.update(a, b as usize);
    assert(rep0[a] == a);
    assert(rep0[b] == b);
    assert(0 <= a < nn && 0 <= b < nn);
    lemma_linked_symm(h, threshold, i, a);
    lemma_linked_edge(h, threshold, i, j);
    lemma_linked_trans(h, threshold, a, i, j);
    lemma_linked_trans(h, threshold, a, j, b);
    assert forall|m: int| 0 <= m < nn implies linked(h, threshold, m, #[trigger] rep[m]) by {
        if rep0[m] == a {
            lemma_linked_trans(h, threshold, m, a, b);
        }
    }
    assert forall|m: int| 0 <= m < nn implies rep[p1[m] as int] == #[trigger] rep[m] by {
        if m != a {
            assert(rep0[p0[m] as int] == rep0[m]);
        }
    }
    assert forall|m: int| 0 <= m < nn implies p1[#[trigger] rep[m]] == rep[m] by {
        if rep0[m] != a {
            assert(p0[rep0[m]] == rep0[m]);
        }
    }
    assert forall|m: int| 0 <= m < nn && #[trigger] p1[m] == m implies rep[m] == m by {
        if m != a {
            assert(p0[m] == m);
        }
    }
    assert forall|m: int| 0 <= m < nn && #[trigger] p1[m] != m implies ht[p1[m] as int] > ht[m] by {
        if m != a {
            assert(p1[m] == p0[m]);
            if m == b {
                assert(p0[b] == b);
            }
        }
    }
    assert forall|m: int| 0 <= m < nn implies #[trigger] ht[m] <= unions + 1 by {}
    assert forall|m: int| 0 <= m < nn implies #[trigger] p1[m] < nn by {}
    assert forall|m: int| 0 <= m < nn implies 0 <= #[trigger] rep[m] < nn by {}
}

/// Roots decide membership exactly: equal roots mean linked photos, and
/// linked photos have equal roots.
proof fn lemma_rep_exact(h: Seq<u64>, threshold: u32, rep: Seq<int>, p: Seq<usize>, ht: Seq<nat>, unions: nat)
    requires
        forest(h, threshold, p, rep, ht, unions),
        forall|a: int, b: int| 0 <= a < h.len() && a < b < h.len() && near(h, threshold, a, b) ==> #[trigger] rep[a] == #[trigger] rep[b],
    ensures
        forall|i: int, j: int| 0 <= i < h.len() && 0 <= j < h.len() ==> (#[trigger] rep[i] == #[trigger] rep[j]
            <==> linked(h, threshold, i, j)),
{
    reveal(forest);
    assert forall|i: int, j: int| 0 <= i < h.len() && 0 <= j < h.len() implies (#[trigger] rep[i] == #[trigger] rep[j]
        <==> linked(h, threshold, i, j)) by {
        if rep[i] == rep[j] {
            lemma_linked_symm(h, threshold, j, rep[j]);
            lemma_linked_trans(h, threshold, i, rep[i], j);
        }
        if linked(h, threshold, i, j) {
            let w = choose|w: Seq<int>| #[trigger] is_walk(h, threshold, w) && w[0] == i && w.last() == j;
            lemma_walk_same_rep(h, threshold, rep, w, w.len() as int);
        }
    }
}

proof fn lemma_walk_same_rep(h: Seq<u64>, threshold: u32, rep: Seq<int>, w: Seq<int>, k: int)
    requires
        rep.len() == h.len(),
        is_walk(h, threshold, w),
        1 <= k <= w.len(),
        forall|a: int, b: int| 0 <= a < h.len() && a < b < h.len() && near(h, threshold, a, b) ==> #[trigger] rep[a] == #[trigger] rep[b],
    ensures
        rep[w[0]] == rep[w[k - 1]],
    decreases k,
{
    if k > 1 {
        lemma_walk_same_rep(h, threshold, rep, w, k - 1);
        let a = w[k - 2];
        let b = w[k - 1];
        assert(near(h, threshold, a, b));
        if a < b {
            assert(rep[a] == rep[b]);
        } else if b < a {
            lemma_near_symmetric(h, threshold, a, b);
            assert(rep[b] == rep[a]);
        }
    }
}

/// Indices `j >= from` with label `lab`, in increasing order.
fn members_from(labels: &Vec<usize>, from: usize, lab: usize) -> (m: Vec<usize>)
    requires
        from <= labels@.len(),
    ensures
        forall|a: int, b: int| 0 <= a < b < m@.len() ==> m@[a] < m@[b],
        forall|a: int| 0 <= a < m@.len() ==> from <= #[trigger] m@[a] < labels@.len(),
        forall|k: int| from <= k < labels@.len() ==> (#[trigger] m@.contains(k as usize) <==> labels@[k] == lab),
        forall|a: int| 0 <= a < m@.len() ==> labels@[#[trigger] m@[a] as int] == lab,
{
    let mut m: Vec<usize> = Vec::new();
    let mut j = from;
    while j < labels.len()
        invariant
            from <= j <= labels@.len(),
            forall|a: int, b: int| 0 <= a < b < m@.len() ==> m@[a] < m@[b],
            forall|a: int| 0 <= a < m@.len() ==> from <= #[trigger] m@[a] < j,
            forall|k: int| from <= k < j ==> (#[trigger] m@.contains(k as usize) <==> labels@[k] == lab),
            forall|a: int| 0 <= a < m@.len() ==> labels@[#[trigger] m@[a] as int] == lab,
        decreases labels@.len() - j,
    {
        let ghost m0 = m@;
        if labels[j] == lab {
            m.push(j);
            proof {
                assert forall|k: int| from <= k < j + 1 implies (#[trigger] m@.contains(k as usize) <==> labels@[k] == lab) by {
                    if k < j {
                        if m@.contains(k as usize) {
                            let a = choose|a: int| 0 <= a < m@.len() && m@[a] == k as usize;
                            if a < m0.len() {
                                assert(m0[a] == k);
                            }
                        }
                        if m0.contains(k as usize) {
                            let a = choose|a: int| 0 <= a < m0.len() && m0[a] == k as usize;
                            assert(m@[a] == k);
                        }
                    } else {
                        assert(m@[m0.len() as int] == j);
                    }
                }
            }
        } else {
            proof {
                assert forall|k: int| from <= k < j + 1 implies (#[trigger] m@.contains(k as usize) <==> labels@[k] == lab) by {
                    if k == j {
                        if m@.contains(k as usize) {
                            let a = choose|a: int| 0 <= a < m@.len() && m@[a] == k as usize;
                        }
                    }
                }
            }
        }
        j = j + 1;
    }
    m
}

spec fn has_mate(labels: Seq<usize>, k: int) -> bool {
    exists|j: int| 0 <= j < labels.len() && j != k && labels[j] == labels[k]
}

spec fn seen_before(labels: Seq<usize>, k: int, i: int) -> bool {
    exists|m: int| 0 <= m < i && labels[m] == labels[k]
}

spec fn grouped(groups: Seq<Vec<usize>>, k: int) -> bool {
    exists|g: int| 0 <= g < groups.len() && groups[g]@.contains(k as usize)
}

proof fn lemma_two_members(s: Seq<usize>, x: usize, y: usize)
    requires
        s.contains(x),
        s.contains(y),
        x != y,
    ensures
        s.len() >= 2,
{
    let a = choose|a: int| 0 <= a < s.len() && s[a] == x;
    let b = choose|b: int| 0 <= b < s.len() && s[b] == y;
    assert(a != b);
}

/// The duplicate clusters with at least two photos: every cluster is the
/// full set of photos linked to its members, listed in increasing order;
/// clusters come in order of their first photo; every photo linked to some
/// other photo is in one of them.
pub fn duplicate_groups(hashes: &Vec<u64>, threshold: u32) -> (groups: Vec<Vec<usize>>)
    ensures
        forall|g: int| 0 <= g < groups@.len() ==> #[trigger] groups@[g]@.len() >= 2,
        forall|g: int, a: int, b: int| 0 <= g < groups@.len() && 0 <= a < b < groups@[g]@.len() ==> #[trigger] groups@[g]@[a] < #[trigger] groups@[g]@[b],
        forall|g: int, a: int| 0 <= g < groups@.len() && 0 <= a < groups@[g]@.len() ==> #[trigger] groups@[g]@[a] < hashes@.len(),
        forall|g: int, k: int| 0 <= g < groups@.len() && 0 <= k < hashes@.len() ==> (#[trigger] groups@[g]@.contains(k as usize)
            <==> linked(hashes@, threshold, groups@[g]@[0] as int, k)),
        forall|k: int, j: int| 0 <= k < hashes@.len() && 0 <= j < hashes@.len() && k != j && #[trigger] linked(hashes@, threshold, k, j)
            ==> exists|g: int| 0 <= g < groups@.len() && #[trigger] groups@[g]@.contains(k as usize),
        forall|g1: int, g2: int| 0 <= g1 < g2 < groups@.len() ==> #[trigger] groups@[g1]@[0] < #[trigger] groups@[g2]@[0],
{
    let labels = cluster_labels(hashes, threshold);
    let n = hashes.len();
    let ghost h = hashes@;
    let mut groups: Vec<Vec<usize>> = Vec::new();
    let mut i: usize = 0;
    while i < n
        invariant
            n == h.len(),
            h == hashes@,
            labels@.len() == n,
            i <= n,
            forall|x: int, y: int| 0 <= x < n && 0 <= y < n ==> (#[trigger] labels@[x] == #[trigger] labels@[y] <==> linked(h, threshold, x, y)),
            forall|g: int| 0 <= g < groups@.len() ==> #[trigger] groups@[g]@.len() >= 2,
            forall|g: int, a: int, b: int| 0 <= g < groups@.len() && 0 <= a < b < groups@[g]@.len() ==> #[trigger] groups@[g]@[a] < #[trigger] groups@[g]@[b],
            forall|g: int, a: int| 0 <= g < groups@.len() && 0 <= a < groups@[g]@.len() ==> #[trigger] groups@[g]@[a] < n,
            forall|g: int, k: int| 0 <= g < groups@.len() && 0 <= k < n ==> (#[trigger] groups@[g]@.contains(k as usize)
                <==> labels@[k] == labels@[groups@[g]@[0] as int]),
            forall|g: int| 0 <= g < groups@.len() ==> #[trigger] groups@[g]@[0] < i,
            forall|g1: int, g2: int| 0 <= g1 < g2 < groups@.len() ==> #[trigger] groups@[g1]@[0] < #[trigger] groups@[g2]@[0],
            forall|k: int| 0 <= k < n && #[trigger] has_mate(labels@, k) && seen_before(labels@, k, i as int) ==> grouped(groups@, k),
        decreases n - i,
    {
        let mut first = true;
        let mut k: usize = 0;
        while k < i
            invariant
                i < n,
                labels@.len() == n,
                k <= i,
                first ==> forall|q: int| 0 <= q < k ==> labels@[q] != labels@[i as int],
                !first ==> exists|q: int| 0 <= q < i && labels@[q] == labels@[i as int],
            decreases i - k,
        {
            if labels[k] == labels[i] {
                first = false;
            }
            k = k + 1;
        }
        let ghost g0 = groups@;
        if first {
            let members = members_from(&labels, i, labels[i]);
            if members.len() >= 2 {
                proof {
                    assert(members@.contains((i as int) as usize));
                    let a = choose|a: int| 0 <= a < members@.len() && members@[a] == i;
                    if a > 0 {
                        assert(members@[0] < members@[a]);
                    }
                    assert(members@[0] == i) by {
                        assert(i <= members@[0]);
                    }
                }
                groups.push(members);
                proof {
                    let last = g0.len() as int;
                    assert(groups@[last]@[0] == i);
                    assert forall|g: int, q: int| 0 <= g < groups@.len() && 0 <= q < n implies (#[trigger] groups@[g]@.contains(q as usize)
                        <==> labels@[q] == labels@[groups@[g]@[0] as int]) by {
                        if g == last {
                            if q < i {
                                if groups@[g]@.contains(q as usize) {
                                    let a = choose|a: int| 0 <= a < groups@[g]@.len() && groups@[g]@[a] == q as usize;
                                }
                            }
                        } else {
                            assert(groups@[g] == g0[g]);
                        }
                    }
                    assert forall|q: int| 0 <= q < n && #[trigger] has_mate(labels@, q) && seen_before(labels@, q, i + 1) implies grouped(groups@, q) by {
                        let m = choose|m: int| 0 <= m < i + 1 && labels@[m] == labels@[q];
                        if seen_before(labels@, q, i as int) {
                            let g = choose|g: int| 0 <= g < g0.len() && g0[g]@.contains(q as usize);
                            assert(groups@[g] == g0[g]);
                        } else {
                            assert(m == i);
                            assert(q >= i as int) by {
                                if q < i {
                                    assert(seen_before(labels@, q, i as int));
                                }
                            }
                            assert(groups@[last]@.contains(q as usize));
                        }
                    }
                }
            } else {
                proof {
                    assert forall|q: int| 0 <= q < n && #[trigger] has_mate(labels@, q) && seen_before(labels@, q, i + 1) implies grouped(groups@, q) by {
                        if !seen_before(labels@, q, i as int) {
                            let m = choose|m: int| 0 <= m < i + 1 && labels@[m] == labels@[q];
                            assert(m == i);
                            let j = choose|j: int| 0 <= j < labels@.len() && j != q && labels@[j] == labels@[q];
                            assert(q >= i as int) by {
                                if q < i {
                                    assert(seen_before(labels@, q, i as int));
                                }
                            }
                            assert(j >= i as int) by {
                                if j < i {
                                    assert(labels@[j] == labels@[q]);
                                }
                            }
                            assert(members@.contains(q as usize));
                            assert(members@.contains(j as usize));
                            lemma_two_members(members@, q as usize, j as usize);
                        }
                    }
                }
            }
        } else {
            proof {
                assert forall|q: int| 0 <= q < n && #[trigger] has_mate(labels@, q) && seen_before(labels@, q, i + 1) implies grouped(groups@, q) by {
                    if !seen_before(labels@, q, i as int) {
                        let m = choose|m: int| 0 <= m < i + 1 && labels@[m] == labels@[q];
                        let w = choose|w: int| 0 <= w < i && labels@[w] == labels@[i as int];
                        assert(labels@[w] == labels@[q]);
                    }
                }
            }
        }
        i = i + 1;
    }
    proof {
        assert forall|g: int, k: int| 0 <= g < groups@.len() && 0 <= k < n implies (#[trigger] groups@[g]@.contains(k as usize)
            <==> linked(h, threshold, groups@[g]@[0] as int, k)) by {
            let f = groups@[g]@[0] as int;
            assert(labels@[f] == labels@[k] <==> linked(h, threshold, f, k));
        }
        assert forall|k: int, j: int| 0 <= k < n && 0 <= j < n && k != j && #[trigger] linked(h, threshold, k, j)
            implies exists|g: int| 0 <= g < groups@.len() && #[trigger] groups@[g]@.contains(k as usize) by {
            assert(labels@[k] == labels@[j]);
            assert(has_mate(labels@, k));
            assert(seen_before(labels@, k, n as int));
            assert(grouped(groups@, k));
        }
    }
    groups
}

} // verus!
