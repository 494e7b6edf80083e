//! The sketch: two stores glued back to back around a zero bucket, with exact extremes.
use crate::bits::{
    greater, in_unit, in_unit_bits, is_finite, is_finite_bits, is_negative, is_zero, lesser,
    magnitude, magnitude_of, position, precedes, scaled_floor, scaled_floor_exec, INFINITY_BITS,
    NEG_INFINITY_BITS, ONE_BITS, SIGN_BIT,
};
use crate::store::{added, key_at, lemma_total_nonneg, merged, total, Bin, Store};
use vstd::prelude::*;

verus! {

/// Default relative accuracy, 0.0001, as bits.
pub const DEFAULT_ALPHA: u64 = 0x3F1A_36E2_EB1C_432D;

/// Default bucket budget of each half-line.
pub const DEFAULT_MAX_BUCKETS: u32 = 32768;

/// Default zero floor, 1.0e-9, as bits.
pub const DEFAULT_MIN_VALUE: u64 = 0x3E11_2E0B_E826_D695;

/// Merging was refused: the two summaries were not built with the same parameters.
#[derive(Clone, Copy, Debug, PartialEq, Eq, Structural)]
pub struct MergeError {}

impl MergeError {
    /// A short description of the error.
    pub fn message(&self) -> (r: &'static str)
        ensures
            r@ == "merge error"@,
    {
        "merge error"
    }
}

/// Where a quantile falls.
#[derive(Clone, Copy, Debug, PartialEq, Eq, Structural)]
pub enum Estimate {
    /// A tracked extreme, exactly as it was added (bits).
    Exact(u64),
    /// The zero bucket: the estimate is zero.
    Zero,
    /// A bucket of the negative half-line: the estimate is minus the bucket's representative.
    Negative(i32),
    /// A bucket of the positive half-line: the estimate is the bucket's representative.
    Positive(i32),
}

/// The negative half, the zero count and the positive half of a sketch.
pub type Buckets = (Seq<Bin>, nat, Seq<Bin>);

/// A relative accuracy strictly between zero and one.
pub open spec fn valid_alpha(alpha: u64) -> bool {
    !is_negative(alpha) && !is_zero(alpha) && alpha < ONE_BITS
}

/// The estimate for the sample of rank `rank` (from 0) in the order: negative half from the
/// most negative bucket, then the zeros, then the positive half from the lowest bucket.
pub open spec fn locate(b: Buckets, rank: int) -> Estimate {
    let n = total(b.0);
    if rank < n {
        Estimate::Negative(key_at(b.0, n - rank - 1))
    } else if rank < n + b.1 {
        Estimate::Zero
    } else {
        Estimate::Positive(key_at(b.2, rank - n - b.1))
    }
}

/// A quantile summary with relative-error guarantees, over values held as binary64 bits.
///
/// Samples whose magnitude lies below the zero floor count as zero; the others fall into the
/// bucket that the caller's logarithmic mapping gives their magnitude, on the half-line of
/// their sign. The lowest and highest samples are kept exactly.
#[derive(Clone, Debug)]
pub struct Summary {
    alpha: u64,
    max_buckets: u32,
    min_value: u64,
    negative: Store,
    positive: Store,
    zero_count: u64,
    min: u64,
    max: u64,
}

impl Summary {
    pub closed spec fn alpha_bits(&self) -> u64 {
        self.alpha
    }

    pub closed spec fn bucket_budget(&self) -> u32 {
        self.max_buckets
    }

    /// The magnitude (bits) below which a sample counts as zero.
    pub closed spec fn zero_floor(&self) -> u64 {
        self.min_value
    }

    pub closed spec fn buckets(&self) -> Buckets {
        (self.negative@, self.zero_count as nat, self.positive@)
    }

    /// The lowest sample, or positive infinity when empty.
    pub closed spec fn low(&self) -> u64 {
        self.min
    }

    /// The highest sample, or negative infinity when empty.
    pub closed spec fn high(&self) -> u64 {
        self.max
    }

    pub open spec fn total_count(&self) -> nat {
        (total(self.buckets().0) + self.buckets().1 + total(self.buckets().2)) as nat
    }

    pub closed spec fn wf(&self) -> bool {
        &&& self.negative.wf()
        &&& self.positive.wf()
        &&& self.negative.limit() == self.max_buckets
        &&& self.positive.limit() == self.max_buckets
        &&& self.max_buckets >= 1
        &&& self.total_count() <= u64::MAX
        &&& self.total_count() <= usize::MAX
        &&& self.total_count() == 0 ==> self.min == INFINITY_BITS && self.max == NEG_INFINITY_BITS
        &&& self.total_count() > 0 ==> is_finite(self.min) && is_finite(self.max)
        &&& position(self.min) <= position(self.max) || self.total_count() == 0
    }

    proof fn lemma_halves_nonneg(&self)
        ensures
            total(self.buckets().0) >= 0,
            total(self.buckets().2) >= 0,
    {
        lemma_total_nonneg(self.negative@);
        lemma_total_nonneg(self.positive@);
    }

    /// The parameters match exactly.
    pub open spec fn compatible(&self, other: &Summary) -> bool {
        &&& self.alpha_bits() == other.alpha_bits()
        &&& self.bucket_budget() == other.bucket_budget()
        &&& self.zero_floor() == other.zero_floor()
    }

    /// The buckets once a finite `value`, whose magnitude maps to `key`, has been added.
    pub open spec fn routed(&self, value: u64, key: i32) -> Buckets {
        let b = self.buckets();
        if magnitude(value) < self.zero_floor() {
            (b.0, b.1 + 1, b.2)
        } else if is_negative(value) {
            (added(b.0, key, 1, self.bucket_budget() as nat), b.1, b.2)
        } else {
            (b.0, b.1, added(b.2, key, 1, self.bucket_budget() as nat))
        }
    }

    /// The estimate at quantile `q` (bits): absent outside `[0, 1]` or when empty, the exact
    /// extremes at 0 and 1, and otherwise the bucket of rank `⌊q · (count − 1)⌋`.
    pub open spec fn estimate(&self, q: u64) -> Option<Estimate> {
        if !in_unit(q) || self.total_count() == 0 {
            None
        } else if is_zero(q) {
            Some(Estimate::Exact(self.low()))
        } else if q == ONE_BITS {
            Some(Estimate::Exact(self.high()))
        } else {
            Some(locate(self.buckets(), scaled_floor(q, (self.total_count() - 1) as nat) as int))
        }
    }

    /// An empty summary with relative accuracy `alpha`, `max_buckets` buckets on each side of
    /// zero, and a zero floor of `|min_value|` (all as binary64 bits but the budget).
    pub fn new(alpha: u64, max_buckets: u32, min_value: u64) -> (r: Summary)
        requires
            valid_alpha(alpha),
            max_buckets >= 1,
        ensures
            r.wf(),
            r.alpha_bits() == alpha,
            r.bucket_budget() == max_buckets,
            r.zero_floor() == magnitude(min_value),
            r.buckets().0.len() <= r.bucket_budget(),
            r.buckets().2.len() <= r.bucket_budget(),
            r.buckets() == (Seq::<Bin>::empty(), 0nat, Seq::<Bin>::empty()),
            r.total_count() == 0,
            r.low() == INFINITY_BITS,
            r.high() == NEG_INFINITY_BITS,
    {
        Summary {
            alpha,
            max_buckets,
            min_value: magnitude_of(min_value),
            negative: Store::new(max_buckets as usize),
            positive: Store::new(max_buckets as usize),
            zero_count: 0,
            min: INFINITY_BITS,
            max: NEG_INFINITY_BITS,
        }
    }

    /// An empty summary with relative accuracy 0.0001, 32768 buckets and a zero floor of 1.0e-9.
    pub fn with_defaults() -> (r: Summary)
        ensures
            r.wf(),
            r.alpha_bits() == DEFAULT_ALPHA,
            r.bucket_budget() == DEFAULT_MAX_BUCKETS,
            r.zero_floor() == DEFAULT_MIN_VALUE,
            r.buckets() == (Seq::<Bin>::empty(), 0nat, Seq::<Bin>::empty()),
            r.total_count() == 0,
            r.low() == INFINITY_BITS,
            r.high() == NEG_INFINITY_BITS,
    {
        Summary::new(DEFAULT_ALPHA, DEFAULT_MAX_BUCKETS, DEFAULT_MIN_VALUE)
    }

    /// Adds the sample `value` (bits), whose magnitude the caller's mapping puts in bucket `key`.
    ///
    /// Infinities and NaNs are ignored. A sample below the zero floor counts as zero, and `key`
    /// is then not used.
    pub fn add(&mut self, value: u64, key: i32)
        requires
            old(self).wf(),
            is_finite(value) ==> old(self).total_count() < u64::MAX,
            is_finite(value) ==> old(self).total_count() < usize::MAX,
        ensures
            final(self).wf(),
            final(self).buckets().0.len() <= final(self).bucket_budget(),
            final(self).buckets().2.len() <= final(self).bucket_budget(),
            !is_finite(value) ==> *final(self) == *old(self),
            is_finite(value) ==> {
                &&& final(self).buckets() == old(self).routed(value, key)
                &&& final(self).total_count() == old(self).total_count() + 1
                &&& final(self).low() == lesser(old(self).low(), value)
                &&& final(self).high() == greater(old(self).high(), value)
                &&& final(self).compatible(old(self))
            },
    {
        proof {
            self.lemma_halves_nonneg();
            lemma_wf_facts(self);
        }
        if !is_finite_bits(value) {
            return ;
        }
        let m = magnitude_of(value);
        if m < self.min_value {
            self.zero_count = self.zero_count + 1;
        } else if value >= SIGN_BIT {
            self.negative.add(key);
        } else {
            self.positive.add(key);
        }
        if precedes(value, self.min) {
            self.min = value;
        }
        if precedes(self.max, value) {
            self.max = value;
        }
        proof {
            lemma_wf_facts(self);
        }
    }

    /// The estimate at quantile `q` (bits).
    pub fn quantile(&self, q: u64) -> (r: Option<Estimate>)
        requires
            self.wf(),
        ensures
            r == self.estimate(q),
    {
        let n = self.count() as u64;
        if !in_unit_bits(q) || n == 0 {
            return None;
        }
        if magnitude_of(q) == 0 {
            return Some(Estimate::Exact(self.min));
        }
        if q == ONE_BITS {
            return Some(Estimate::Exact(self.max));
        }
        let rank = scaled_floor_exec(q, n - 1);
        proof {
            crate::bits::lemma_scaled_floor_bound(q, (n - 1) as nat);
        }
        Some(self.locate_rank(rank))
    }

    /// The estimate for the sample of rank `rank` (from 0).
    pub fn locate_rank(&self, rank: u64) -> (r: Estimate)
        requires
            self.wf(),
            rank < self.total_count(),
        ensures
            r == locate(self.buckets(), rank as int),
    {
        proof {
            self.lemma_halves_nonneg();
        }
        let n = self.negative.count();
        if rank < n {
            Estimate::Negative(self.negative.key_at_rank(n - rank - 1))
        } else if rank - n < self.zero_count {
            Estimate::Zero
        } else {
            Estimate::Positive(self.positive.key_at_rank(rank - n - self.zero_count))
        }
    }

    /// Merges `other` into this summary, when both were built with the same parameters.
    pub fn merge(&mut self, other: &Summary) -> (r: Result<(), MergeError>)
        requires
            old(self).wf(),
            other.wf(),
            old(self).compatible(other) ==> old(self).total_count() + other.total_count()
                <= u64::MAX,
            old(self).compatible(other) ==> old(self).total_count() + other.total_count()
                <= usize::MAX,
        ensures
            final(self).wf(),
            final(self).buckets().0.len() <= final(self).bucket_budget(),
            final(self).buckets().2.len() <= final(self).bucket_budget(),
            r is Ok <==> old(self).compatible(other),
            r is Err ==> *final(self) == *old(self),
            r is Ok ==> {
                &&& final(self).compatible(old(self))
                &&& final(self).buckets() == (
                    merged(old(self).buckets().0, other.buckets().0, old(self).bucket_budget() as nat),
                    old(self).buckets().1 + other.buckets().1,
                    merged(old(self).buckets().2, other.buckets().2, old(self).bucket_budget() as nat),
                )
                &&& final(self).total_count() == old(self).total_count() + other.total_count()
                &&& final(self).low() == lesser(old(self).low(), other.low())
                &&& final(self).high() == greater(old(self).high(), other.high())
            },
    {
        proof {
            lemma_wf_facts(self);
        }
        if self.alpha != other.alpha || self.max_buckets != other.max_buckets || self.min_value
            != other.min_value {
            return Err(MergeError {  });
        }
        proof {
            self.lemma_halves_nonneg();
            other.lemma_halves_nonneg();
        }
        self.negative.merge(&other.negative);
        self.positive.merge(&other.positive);
        self.zero_count = self.zero_count + other.zero_count;
        if precedes(other.min, self.min) {
            self.min = other.min;
        }
        if precedes(self.max, other.max) {
            self.max = other.max;
        }
        proof {
            lemma_wf_facts(self);
        }
        Ok(())
    }

    /// The lowest sample (bits), or positive infinity when empty.
    pub fn min(&self) -> (r: u64)
        ensures
            r == self.low(),
            self.wf() && self.total_count() == 0 ==> r == INFINITY_BITS,
            self.wf() && self.total_count() > 0 ==> is_finite(r),
    {
        self.min
    }

    /// The highest sample (bits), or negative infinity when empty.
    pub fn max(&self) -> (r: u64)
        ensures
            r == self.high(),
            self.wf() && self.total_count() == 0 ==> r == NEG_INFINITY_BITS,
            self.wf() && self.total_count() > 0 ==> is_finite(r),
    {
        self.max
    }

    pub fn is_empty(&self) -> (r: bool)
        requires
            self.wf(),
        ensures
            r == (self.total_count() == 0),
    {
        self.count() == 0
    }

    /// How many finite samples were added.
    pub fn count(&self) -> (r: usize)
        requires
            self.wf(),
        ensures
            r == self.total_count(),
    {
        proof {
            self.lemma_halves_nonneg();
        }
        (self.negative.count() + self.zero_count + self.positive.count()) as usize
    }

    /// An estimate of the memory this summary takes: the struct itself and eight bytes per
    /// occupied bucket, saturating at the largest `usize`.
    pub fn estimated_size(&self) -> (r: usize)
        ensures
            r == if core::mem::size_of::<Summary>() + 8 * (self.buckets().0.len()
                + self.buckets().2.len()) > usize::MAX {
                usize::MAX as int
            } else {
                core::mem::size_of::<Summary>() + 8 * (self.buckets().0.len()
                    + self.buckets().2.len())
            },
            r >= core::mem::size_of::<Summary>(),
            self.wf() ==> r <= core::mem::size_of::<Summary>() + 16 * self.bucket_budget(),
    {
        proof {
            if self.wf() {
                lemma_wf_facts(self);
            }
        }
        let occupied = self.negative.length().saturating_add(self.positive.length());
        let base = core::mem::size_of::<Summary>();
        if occupied > (usize::MAX - base) / 8 {
            usize::MAX
        } else {
            base + occupied * 8
        }
    }
}

/// On a non-empty summary, the estimates at quantiles 0 (either zero) and 1 are exactly the
/// lowest and the highest sample.
pub proof fn lemma_extremes_exact(s: &Summary)
    requires
        s.wf(),
        s.total_count() > 0,
    ensures
        s.estimate(0) == Some(Estimate::Exact(s.low())),
        s.estimate(SIGN_BIT) == Some(Estimate::Exact(s.low())),
        s.estimate(ONE_BITS) == Some(Estimate::Exact(s.high())),
{
}

/// Outside `[0, 1]`, and on an empty summary, there is no estimate.
pub proof fn lemma_absent(s: &Summary, q: u64)
    requires
        !in_unit(q) || s.total_count() == 0,
    ensures
        s.estimate(q) is None,
{
}

/// A finite sample below the zero floor lands exactly where a zero does, whatever the keys.
pub proof fn lemma_small_counts_as_zero(s: &Summary, value: u64, key: i32, zero_key: i32)
    requires
        is_finite(value),
        magnitude(value) < s.zero_floor(),
    ensures
        s.routed(value, key) == s.routed(0, zero_key),
{
}

/// The merged extremes are the extremes of the union: each is one of the two, and lies at or
/// beyond both.
pub proof fn lemma_union_extremes(a: u64, b: u64)
    ensures
        lesser(a, b) == a || lesser(a, b) == b,
        position(lesser(a, b)) <= position(a),
        position(lesser(a, b)) <= position(b),
        greater(a, b) == a || greater(a, b) == b,
        position(greater(a, b)) >= position(a),
        position(greater(a, b)) >= position(b),
{
}

/// What every well-formed summary guarantees: each half within the bucket budget; when empty,
/// no bucket, no zero and infinite extremes; otherwise finite extremes with the lowest at or
/// below the highest.
pub proof fn lemma_wf_facts(s: &Summary)
    requires
        s.wf(),
    ensures
        s.bucket_budget() >= 1,
        s.buckets().0.len() <= s.bucket_budget(),
        s.buckets().2.len() <= s.bucket_budget(),
        s.total_count() <= u64::MAX,
        s.total_count() <= usize::MAX,
        s.total_count() == 0 ==> s.buckets() == (Seq::<Bin>::empty(), 0nat, Seq::<Bin>::empty()),
        s.total_count() == 0 ==> s.low() == INFINITY_BITS && s.high() == NEG_INFINITY_BITS,
        s.total_count() > 0 ==> is_finite(s.low()) && is_finite(s.high()),
        s.total_count() > 0 ==> position(s.low()) <= position(s.high()),
{
    s.negative.lemma_wf();
    s.positive.lemma_wf();
    if s.total_count() == 0 {
        assert(s.negative@ =~= Seq::<Bin>::empty());
        assert(s.positive@ =~= Seq::<Bin>::empty());
    }
}

/// Merging an empty summary with the same parameters leaves the buckets and the extremes as
/// they were.
pub proof fn lemma_merge_empty(s: &Summary, other: &Summary)
    requires
        s.wf(),
        other.wf(),
        other.total_count() == 0,
    ensures
        merged(s.buckets().0, other.buckets().0, s.bucket_budget() as nat) == s.buckets().0,
        s.buckets().1 + other.buckets().1 == s.buckets().1,
        merged(s.buckets().2, other.buckets().2, s.bucket_budget() as nat) == s.buckets().2,
        s.total_count() + other.total_count() == s.total_count(),
        lesser(s.low(), other.low()) == s.low(),
        greater(s.high(), other.high()) == s.high(),
{
    lemma_wf_facts(s);
    lemma_wf_facts(other);
}

} // verus!
