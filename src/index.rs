//! Bin layouts: the mapping from a key to the index of its bin.
use std::ops::Range;
use vstd::prelude::*;
use vstd::std_specs::bits::u64_leading_zeros;
use vstd::arithmetic::power2::pow2;

verus! {

/// Largest number of bins a layout ever aims for.
pub const MAX_BIN_COUNT: usize = 8192;

/// An integer-like scalar whose distance to another value of the same type
/// can be measured as an unsigned offset.
pub trait Offset: Copy + Sized {
    /// The mathematical value of the key.
    spec fn key_value(self) -> int;

    /// `self - other`, wrapped modulo the word size.
    spec fn spec_offset(self, other: Self) -> usize;

    /// The offset is the exact difference whenever that fits in a `usize`.
    proof fn lemma_offset_exact(a: Self, b: Self)
        requires
            b.key_value() <= a.key_value() <= b.key_value() + usize::MAX,
        ensures
            a.spec_offset(b) as int == a.key_value() - b.key_value(),
    ;

    /// Unsigned wrapping distance from `other` up to `self`.
    fn offset(self, other: Self) -> (r: usize)
        ensures
            r == self.spec_offset(other),
    ;

    /// Whether `self` is strictly smaller than `other`.
    fn precedes(self, other: Self) -> (r: bool)
        ensures
            r == (self.key_value() < other.key_value()),
    ;
}

impl Offset for i64 {
    open spec fn key_value(self) -> int {
        self as int
    }

    /// The difference truncated to the word size.
    open spec fn spec_offset(self, other: Self) -> usize {
        (self - other) as usize
    }

    proof fn lemma_offset_exact(a: Self, b: Self) {
    }

    fn offset(self, other: Self) -> (r: usize) {
        // The difference is exact in `i128`; the cast wraps it modulo the word size.
        #[verifier::truncate]
        ((self as i128 - other as i128) as usize)
    }

    fn precedes(self, other: Self) -> (r: bool) {
        self < other
    }
}

impl Offset for i32 {
    open spec fn key_value(self) -> int {
        self as int
    }

    /// The difference truncated to the word size.
    open spec fn spec_offset(self, other: Self) -> usize {
        (self - other) as usize
    }

    proof fn lemma_offset_exact(a: Self, b: Self) {
    }

    fn offset(self, other: Self) -> (r: usize) {
        #[verifier::truncate]
        ((self as i64 - other as i64) as usize)
    }

    fn precedes(self, other: Self) -> (r: bool) {
        self < other
    }
}

impl Offset for usize {
    open spec fn key_value(self) -> int {
        self as int
    }

    /// The difference, plus `2^BITS` when it is negative.
    open spec fn spec_offset(self, other: Self) -> usize {
        if self >= other {
            (self - other) as usize
        } else {
            (self - other + usize::MAX + 1) as usize
        }
    }

    proof fn lemma_offset_exact(a: Self, b: Self) {
    }

    fn offset(self, other: Self) -> (r: usize) {
        self.wrapping_sub(other)
    }

    fn precedes(self, other: Self) -> (r: bool) {
        self < other
    }
}

/// Number of binary digits of `v`: the smallest `p` with `v < 2^p`.
pub open spec fn bit_length(v: nat) -> nat
    decreases v,
{
    if v == 0 {
        0
    } else {
        1 + bit_length(v / 2)
    }
}

proof fn lemma_leading_zeros_bit_length(v: u64)
    ensures
        64 - u64_leading_zeros(v) == bit_length(v as nat),
    decreases v,
{
    reveal(u64_leading_zeros);
    if v != 0 {
        lemma_leading_zeros_bit_length(v / 2);
    }
}

proof fn lemma_bit_length_bound(v: nat, k: nat)
    requires
        v < pow2(k),
    ensures
        bit_length(v) <= k,
    decreases k,
{
    if v > 0 {
        if k == 0 {
            vstd::arithmetic::power2::lemma2_to64();
        } else {
            vstd::arithmetic::power2::lemma_pow2_unfold(k);
            lemma_bit_length_bound(v / 2, (k - 1) as nat);
        }
    }
}

/// The bit length of `value`.
fn log2(value: usize) -> (r: usize)
    ensures
        r as nat == bit_length(value as nat),
        r <= 64,
{
    let n = (value as u64).leading_zeros();
    proof {
        lemma_leading_zeros_bit_length(value as u64);
        vstd::std_specs::bits::axiom_u64_leading_zeros(value as u64);
    }
    (64 - n) as usize
}

/// Maps a key to a bin: the bin of `k` is `(k - min_key) >> power`.
pub struct BinLayout<T> {
    pub min_key: T,
    pub power: usize,
}

/// How many bins a batch of `n` items over a key range of width `delta` aims for.
pub open spec fn target_bin_count(delta: int, n: int) -> int {
    let half = n / 2;
    let a = if delta < half {
        delta
    } else {
        half
    };
    if a < MAX_BIN_COUNT {
        a
    } else {
        MAX_BIN_COUNT as int
    }
}

impl<T: Offset> BinLayout<T> {
    /// The shift is small enough to be applied to a `usize`.
    pub open spec fn wf(&self) -> bool {
        self.power < usize::BITS
    }

    /// Bin of a key: its wrapping offset from `min_key`, shifted by `power`.
    pub open spec fn spec_index(&self, value: T) -> usize {
        value.spec_offset(self.min_key) >> self.power
    }

    /// The layout for `n` items with keys in `[lo, hi]`, or `None` where
    /// binning would not pay off. The key range is `delta = hi - lo`.
    pub open spec fn spec_new(lo: T, hi: T, n: usize) -> Option<BinLayout<T>> {
        let delta = hi.spec_offset(lo) as int;
        let target = target_bin_count(delta, n as int);
        if target <= 1 {
            None
        } else {
            Some(BinLayout { min_key: lo, power: bit_length((delta / target) as nat) as usize })
        }
    }

    /// The bin of `value`.
    pub fn index(&self, value: T) -> (r: usize)
        requires
            self.wf(),
        ensures
            r == self.spec_index(value),
    {
        value.offset(self.min_key) >> self.power
    }

    /// Derives a layout from the observed key range `range.start ..= range.end`
    /// and the number of items.
    pub fn new(range: Range<T>, elements_count: usize) -> (r: Option<BinLayout<T>>)
        ensures
            r == Self::spec_new(range.start, range.end, elements_count),
            r is Some ==> r->0.wf() && r->0.min_key == range.start && r->0.power >= 1,
    {
        let delta = range.end.offset(range.start);
        let half = elements_count >> 1;
        let mut target = if delta < half {
            delta
        } else {
            half
        };
        if target > MAX_BIN_COUNT {
            target = MAX_BIN_COUNT;
        }
        assert(half == elements_count / 2) by (bit_vector)
            requires
                half == elements_count >> 1,
        ;
        if target <= 1 {
            return None;
        }
        let scale = delta / target;
        proof {
            vstd::arithmetic::div_mod::lemma_div_is_ordered_by_denominator(delta as int, 2, target as int);
            vstd::arithmetic::power2::lemma2_to64();
            vstd::arithmetic::power2::lemma2_to64_rest();
            assert(usize::BITS == 32 || usize::BITS == 64);
            assert(scale <= usize::MAX / 2);
            if usize::BITS == 32 {
                assert(usize::MAX == 0xffff_ffff);
                lemma_bit_length_bound(scale as nat, 31);
            } else {
                lemma_bit_length_bound(scale as nat, 63);
            }
        }
        assert(scale >= 1) by (nonlinear_arith)
            requires
                scale == delta / target,
                delta >= target,
                target > 0,
        ;
        assert(bit_length(scale as nat) == 1 + bit_length(scale as nat / 2));
        let power = log2(scale);
        Some(BinLayout { min_key: range.start, power })
    }
}

/// Within the key span of a layout, a key's bin is its exact distance from
/// `min_key`, shifted by `power`.
pub proof fn lemma_index_exact<T: Offset>(layout: BinLayout<T>, value: T)
    requires
        layout.min_key.key_value() <= value.key_value() <= layout.min_key.key_value() + usize::MAX,
    ensures
        layout.spec_index(value) == ((value.key_value() - layout.min_key.key_value()) as usize)
            >> layout.power,
{
    T::lemma_offset_exact(value, layout.min_key);
}

/// An item that carries a key and can name its bin under a layout.
pub trait BinKey<T: Offset> {
    /// The key of the item.
    spec fn spec_bin_key(&self) -> T;

    fn bin_key(&self) -> (r: T)
        ensures
            r == self.spec_bin_key(),
    ;

    /// The bin of the item's key.
    fn bin_index(&self, layout: &BinLayout<T>) -> (r: usize)
        requires
            layout.wf(),
        ensures
            r == layout.spec_index(self.spec_bin_key()),
    ;
}

/// A pair ordered by its first component; the second rides along.
impl<K: Offset, P> BinKey<K> for (K, P) {
    open spec fn spec_bin_key(&self) -> K {
        self.0
    }

    fn bin_key(&self) -> (r: K) {
        self.0
    }

    fn bin_index(&self, layout: &BinLayout<K>) -> (r: usize) {
        layout.index(self.0)
    }
}

} // verus!
