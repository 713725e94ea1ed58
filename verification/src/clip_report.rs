//! The rule by which a clip site is reported: enough clips against the
//! coverage at the site, and far enough from both ends of the contig.

use vstd::prelude::*;

verus! {

/// The largest numerator and the largest denominator of a [`Ratio`]: 2 to
/// the power of 96. Against 32-bit counters such terms compare without
/// overflow in 128 bits.
pub const RATIO_LIMIT: u128 = 0x1_0000_0000_0000_0000_0000_0000;

/// A threshold on the clip ratio, held as the exact fraction `num / den`.
#[derive(Clone, Copy, Debug)]
pub struct Ratio {
    num: u128,
    den: u128,
}

impl Ratio {
    #[verifier::type_invariant]
    spec fn inv(self) -> bool {
        &&& 0 < self.den <= RATIO_LIMIT
        &&& self.num <= RATIO_LIMIT
    }

    /// The numerator of the fraction.
    pub closed spec fn numerator(self) -> nat {
        self.num as nat
    }

    /// The denominator of the fraction; it is never 0.
    pub closed spec fn denominator(self) -> nat {
        self.den as nat
    }

    /// The fraction `num / den`, or nothing when `den` is 0 or one of the
    /// two is above [`RATIO_LIMIT`].
    pub fn new(num: u128, den: u128) -> (ratio: Option<Ratio>)
        ensures
            ratio is Some <==> 0 < den <= RATIO_LIMIT && num <= RATIO_LIMIT,
            ratio matches Some(r) ==> r.numerator() == num && r.denominator() == den,
    {
        if den == 0 || den > RATIO_LIMIT || num > RATIO_LIMIT {
            None
        } else {
            Some(Ratio { num, den })
        }
    }

    /// The ratio 1, the threshold where the operator names none.
    pub fn one() -> (ratio: Ratio)
        ensures
            ratio.numerator() == 1,
            ratio.denominator() == 1,
    {
        Ratio { num: 1, den: 1 }
    }

    /// The numerator of the fraction.
    pub fn num(&self) -> (n: u128)
        ensures
            n == self.numerator(),
            n <= RATIO_LIMIT,
    {
        proof {
            use_type_invariant(self);
        }
        self.num
    }

    /// The denominator of the fraction.
    pub fn den(&self) -> (d: u128)
        ensures
            d == self.denominator(),
            0 < d <= RATIO_LIMIT,
    {
        proof {
            use_type_invariant(self);
        }
        self.den
    }

    /// Whether `clipping` clips against a coverage of `coverage` reach the
    /// threshold.
    pub fn is_met(&self, clipping: u32, coverage: u32) -> (met: bool)
        ensures
            met == ratio_meets(clipping as nat, coverage as nat, *self),
    {
        if coverage == 0 {
            clipping > 0
        } else {
            let left: u128 = scale(clipping, self.den());
            let right: u128 = scale(coverage, self.num());
            left >= right
        }
    }
}

/// The product of a counter and a term of a ratio.
fn scale(count: u32, term: u128) -> (product: u128)
    requires
        term <= RATIO_LIMIT,
    ensures
        product == count * term,
{
    assert(count * term <= 0xffff_ffff * 0x1_0000_0000_0000_0000_0000_0000) by (nonlinear_arith)
        requires
            0 <= count <= 0xffff_ffff,
            0 <= term <= 0x1_0000_0000_0000_0000_0000_0000,
    ;
    (count as u128) * term
}

/// Whether the clip ratio `clipping / coverage` is at least `min`.
///
/// Over a coverage of 0 the ratio counts as infinite: any clip at all
/// reaches every threshold.
pub open spec fn ratio_meets(clipping: nat, coverage: nat, min: Ratio) -> bool {
    if coverage == 0 {
        clipping > 0
    } else {
        clipping * min.denominator() >= coverage * min.numerator()
    }
}

/// Whether position `pos` of a contig of `contig_len` bases lies more than
/// `min_dist_to_end` away from both ends of the contig.
pub open spec fn far_from_ends(contig_len: nat, pos: nat, min_dist_to_end: nat) -> bool {
    &&& pos > min_dist_to_end
    &&& contig_len - pos > min_dist_to_end
}

/// Whether a clip site is reported: its clip ratio reaches `min_ratio` and
/// it lies more than `min_dist_to_end` away from both contig ends.
pub open spec fn qualifies(
    contig_len: nat,
    pos: nat,
    coverage: nat,
    clipping: nat,
    min_dist_to_end: nat,
    min_ratio: Ratio,
) -> bool {
    &&& ratio_meets(clipping, coverage, min_ratio)
    &&& far_from_ends(contig_len, pos, min_dist_to_end)
}

/// Decides whether position `pos` lies more than `min_dist_to_end` away from
/// both ends of a contig of `contig_len` bases.
pub fn is_far_from_ends(contig_len: usize, pos: usize, min_dist_to_end: usize) -> (far: bool)
    ensures
        far == far_from_ends(contig_len as nat, pos as nat, min_dist_to_end as nat),
{
    pos > min_dist_to_end && pos < contig_len && contig_len - pos > min_dist_to_end
}

/// A reported clip site of one contig.
#[derive(Clone, Copy, Debug, PartialEq, Eq, Structural)]
pub struct ClipSite {
    /// The position of the site on the contig.
    pub pos: usize,
    /// The coverage at the site.
    pub coverage: u32,
    /// The number of clips recorded at the site.
    pub clipping: u32,
}

/// A site within `min_dist_to_end` of either contig end is not reported,
/// whatever its clip ratio.
pub proof fn lemma_near_end_excluded(
    contig_len: nat,
    pos: nat,
    coverage: nat,
    clipping: nat,
    min_dist_to_end: nat,
    min_ratio: Ratio,
)
    requires
        pos <= min_dist_to_end || contig_len - pos <= min_dist_to_end,
    ensures
        !qualifies(contig_len, pos, coverage, clipping, min_dist_to_end, min_ratio),
{
}

/// A site with clips and no coverage reaches every threshold.
pub proof fn lemma_uncovered_site_meets(clipping: nat, min: Ratio)
    requires
        clipping > 0,
    ensures
        ratio_meets(clipping, 0, min),
{
}

} // verus!
