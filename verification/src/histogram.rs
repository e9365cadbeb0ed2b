use vstd::prelude::*;

verus! {

/// Bins per channel.
pub const BINS: usize = 128;

/// Per-channel and luma counts of a display-encoded image.
pub struct Histogram {
    pub r: Vec<u32>,
    pub g: Vec<u32>,
    pub b: Vec<u32>,
    pub l: Vec<u32>,
}

/// Every `stride`-th pixel is sampled, so that about 400 000 pixels are
/// counted at most.
pub open spec fn stride_spec(npix: nat) -> nat {
    if npix / 400_000 >= 1 {
        npix / 400_000
    } else {
        1
    }
}

pub fn sample_stride(npix: usize) -> (s: usize)
    ensures
        s == stride_spec(npix as nat),
        s >= 1,
{
    let q = npix / 400_000;
    if q >= 1 {
        q
    } else {
        1
    }
}

/// How many entries of `s` equal `v`.
pub open spec fn count_of(s: Seq<u8>, v: int) -> nat
    decreases s.len(),
{
    if s.len() == 0 {
        0
    } else {
        count_of(s.drop_last(), v) + if s.last() == v {
            1nat
        } else {
            0nat
        }
    }
}

/// The counts of bins `0..upto` added up.
pub open spec fn total_upto(s: Seq<u8>, upto: nat) -> nat
    decreases upto,
{
    if upto == 0 {
        0
    } else {
        total_upto(s, (upto - 1) as nat) + count_of(s, upto - 1)
    }
}

proof fn lemma_count_le(s: Seq<u8>, v: int)
    ensures
        count_of(s, v) <= s.len(),
    decreases s.len(),
{
    if s.len() > 0 {
        lemma_count_le(s.drop_last(), v);
    }
}

fn tally_channel(bins: &Vec<u8>) -> (counts: Vec<u32>)
    requires
        bins@.len() < u32::MAX,
        forall|i: int| 0 <= i < bins@.len() ==> #[trigger] bins@[i] < BINS,
    ensures
        counts@.len() == BINS,
        forall|k: int| 0 <= k < BINS ==> #[trigger] counts@[k] == count_of(bins@, k),
{
    let mut counts: Vec<u32> = Vec::new();
    let mut k: usize = 0;
    while k < BINS
        invariant
            k <= BINS,
            counts@.len() == k,
            forall|q: int| 0 <= q < k ==> #[trigger] counts@[q] == 0,
        decreases BINS - k,
    {
        counts.push(0);
        k = k + 1;
    }
    let mut i: usize = 0;
    while i < bins.len()
        invariant
            bins@.len() < u32::MAX,
            forall|j: int| 0 <= j < bins@.len() ==> #[trigger] bins@[j] < BINS,
            i <= bins@.len(),
            counts@.len() == BINS,
            forall|q: int| 0 <= q < BINS ==> #[trigger] counts@[q] == count_of(bins@.take(i as int), q),
        decreases bins@.len() - i,
    {
        let v = bins[i] as usize;
        proof {
            assert(bins@.take(i + 1).drop_last() =~= bins@.take(i as int));
            lemma_count_le(bins@.take(i as int), v as int);
        }
        let c = counts[v];
        counts.set(v, c + 1);
        i = i + 1;
    }
    assert(bins@.take(i as int) =~= bins@);
    counts
}

/// Histogram of sampled pixels whose bin indices (0..128) per channel and
/// for luma are given in order: bin `k` of each channel counts the samples
/// that fell into it.
pub fn tally(r: &Vec<u8>, g: &Vec<u8>, b: &Vec<u8>, l: &Vec<u8>) -> (h: Histogram)
    requires
        r@.len() < u32::MAX,
        g@.len() < u32::MAX,
        b@.len() < u32::MAX,
        l@.len() < u32::MAX,
        forall|i: int| 0 <= i < r@.len() ==> #[trigger] r@[i] < BINS,
        forall|i: int| 0 <= i < g@.len() ==> #[trigger] g@[i] < BINS,
        forall|i: int| 0 <= i < b@.len() ==> #[trigger] b@[i] < BINS,
        forall|i: int| 0 <= i < l@.len() ==> #[trigger] l@[i] < BINS,
    ensures
        h.r@.len() == BINS && h.g@.len() == BINS && h.b@.len() == BINS && h.l@.len() == BINS,
        forall|k: int| 0 <= k < BINS ==> #[trigger] h.r@[k] == count_of(r@, k),
        forall|k: int| 0 <= k < BINS ==> #[trigger] h.g@[k] == count_of(g@, k),
        forall|k: int| 0 <= k < BINS ==> #[trigger] h.b@[k] == count_of(b@, k),
        forall|k: int| 0 <= k < BINS ==> #[trigger] h.l@[k] == count_of(l@, k),
{
    Histogram { r: tally_channel(r), g: tally_channel(g), b: tally_channel(b), l: tally_channel(l) }
}

proof fn lemma_total_step(s: Seq<u8>, upto: nat)
    requires
        s.len() > 0,
    ensures
        total_upto(s, upto) == total_upto(s.drop_last(), upto) + if s.last() < upto {
            1nat
        } else {
            0nat
        },
    decreases upto,
{
    if upto > 0 {
        lemma_total_step(s, (upto - 1) as nat);
    }
}

/// Every sample lands in exactly one bin: the counts of the 128 bins add up
/// to the number of samples.
pub proof fn law_counts_add_up(s: Seq<u8>)
    requires
        forall|i: int| 0 <= i < s.len() ==> #[trigger] s[i] < BINS,
    ensures
        total_upto(s, BINS as nat) == s.len(),
    decreases s.len(),
{
    if s.len() == 0 {
        lemma_total_empty(s, BINS as nat);
    } else {
        law_counts_add_up(s.drop_last());
        lemma_total_step(s, BINS as nat);
        assert(s.last() == s[s.len() - 1]);
    }
}

proof fn lemma_total_empty(s: Seq<u8>, upto: nat)
    requires
        s.len() == 0,
    ensures
        total_upto(s, upto) == 0,
    decreases upto,
{
    if upto > 0 {
        lemma_total_empty(s, (upto - 1) as nat);
    }
}

} // verus!
