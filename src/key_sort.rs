//! Distribution of a batch into contiguous bins, and sorting by bins.
use crate::index::{lemma_index_exact, BinKey, BinLayout, Offset};
use std::cmp::Ordering;
use vstd::prelude::*;
use vstd::multiset::Multiset;
use vstd::set_lib::set_int_range;

verus! {

/// A bin of a distributed batch: it spans the positions `offset..data`.
#[derive(Debug, Clone, Copy)]
pub struct Bin {
    pub offset: usize,
    pub data: usize,
}

/// The mathematical key of an item.
pub open spec fn key_of<T: BinKey<U>, U: Offset>(x: T) -> int {
    x.spec_bin_key().key_value()
}

/// The smallest key of a non-empty sequence (the first one among equals).
pub open spec fn min_key<T: BinKey<U>, U: Offset>(s: Seq<T>) -> U
    decreases s.len(),
{
    if s.len() <= 1 {
        s[0].spec_bin_key()
    } else {
        let m = min_key::<T, U>(s.drop_last());
        let k = s.last().spec_bin_key();
        if k.key_value() < m.key_value() {
            k
        } else {
            m
        }
    }
}

/// The largest key of a non-empty sequence (the first one among equals).
pub open spec fn max_key<T: BinKey<U>, U: Offset>(s: Seq<T>) -> U
    decreases s.len(),
{
    if s.len() <= 1 {
        s[0].spec_bin_key()
    } else {
        let m = max_key::<T, U>(s.drop_last());
        let k = s.last().spec_bin_key();
        if m.key_value() < k.key_value() {
            k
        } else {
            m
        }
    }
}

/// Any two keys of `s` differ by at most `usize::MAX`, so that key offsets
/// are exact.
pub open spec fn key_span_fits<T: BinKey<U>, U: Offset>(s: Seq<T>) -> bool {
    forall|i: int, j: int|
        0 <= i < s.len() && 0 <= j < s.len() ==> #[trigger] key_of::<T, U>(s[i]) - #[trigger] key_of::<
            T,
            U,
        >(s[j]) <= usize::MAX
}

/// The bins lie side by side and cover `0..n`.
pub open spec fn tiles(bins: Seq<Bin>, n: int) -> bool {
    &&& bins.len() > 0 ==> bins[0].offset == 0 && bins.last().data == n
    &&& forall|c: int| 0 <= c < bins.len() ==> (#[trigger] bins[c]).offset <= bins[c].data
    &&& forall|c: int, d: int|
        #![trigger bins[c], bins[d]]
        0 <= c && d == c + 1 && d < bins.len() ==> bins[c].data == bins[d].offset
}

/// Position `k` lies in bin `c`.
pub open spec fn in_bin(bins: Seq<Bin>, c: int, k: int) -> bool {
    0 <= c < bins.len() && bins[c].offset <= k < bins[c].data
}

/// `t` is `s` distributed into `bins`: a permutation of `s` in which bin `c`
/// holds exactly the items whose key the layout derived from `s` maps to `c`.
#[verifier::opaque]
pub open spec fn distributed<T: BinKey<U>, U: Offset>(s: Seq<T>, t: Seq<T>, bins: Seq<Bin>) -> bool {
    &&& t.len() == s.len()
    &&& t.to_multiset() == s.to_multiset()
    &&& tiles(bins, s.len() as int)
    &&& s.len() == 0 ==> bins.len() == 0 && t == s
    &&& s.len() > 0 ==> match BinLayout::spec_new(
        min_key::<T, U>(s),
        max_key::<T, U>(s),
        s.len() as usize,
    ) {
        None => bins == seq![(Bin { offset: 0, data: s.len() as usize })] && t == s,
        Some(layout) => {
            &&& bins.len() == layout.spec_index(max_key::<T, U>(s)) + 1
            &&& forall|c: int, k: int|
                #![trigger in_bin(bins, c, k), t[k]]
                in_bin(bins, c, k) ==> layout.spec_index(t[k].spec_bin_key()) == c
            &&& (forall|c: int, k: int|
                #![trigger in_bin(bins, c, k), s[k]]
                in_bin(bins, c, k) ==> layout.spec_index(s[k].spec_bin_key()) == c) ==> t == s
        },
    }
}

/// Items in an earlier bin have strictly smaller keys than items in a later one.
pub open spec fn bins_ordered_by_key<T: BinKey<U>, U: Offset>(t: Seq<T>, bins: Seq<Bin>) -> bool {
    forall|c1: int, c2: int, k1: int, k2: int|
        #![trigger in_bin(bins, c1, k1), in_bin(bins, c2, k2)]
        in_bin(bins, c1, k1) && in_bin(bins, c2, k2) && c1 < c2 ==> key_of::<T, U>(t[k1])
            < key_of::<T, U>(t[k2])
}

/// Every key of `s` equals `key`.
pub open spec fn all_keys_equal<T: BinKey<U>, U: Offset>(s: Seq<T>, key: int) -> bool {
    forall|k: int| 0 <= k < s.len() ==> key_of::<T, U>(#[trigger] s[k]) == key
}

spec fn keys_within<T: BinKey<U>, U: Offset>(s: Seq<T>, lo: int, hi: int) -> bool {
    forall|k: int| 0 <= k < s.len() ==> lo <= #[trigger] key_of::<T, U>(s[k]) <= hi
}

spec fn bin_of<T: BinKey<U>, U: Offset>(layout: BinLayout<U>, x: T) -> int {
    layout.spec_index(x.spec_bin_key()) as int
}

spec fn bin_seq<T: BinKey<U>, U: Offset>(layout: BinLayout<U>, s: Seq<T>) -> Seq<int> {
    s.map_values(|x: T| bin_of::<T, U>(layout, x))
}

/// Number of items of `m` that fall below `c`.
spec fn sum_counts(m: Multiset<int>, c: int) -> nat
    decreases c,
{
    if c <= 0 {
        0
    } else {
        sum_counts(m, c - 1) + m.count(c - 1)
    }
}

/// Positions still to be filled, summed over the bins below `k`.
spec fn unplaced(bins: Seq<Bin>, off: Seq<int>, k: int) -> int
    decreases k,
{
    if k <= 0 {
        0
    } else {
        unplaced(bins, off, k - 1) + (off[k] - bins[k - 1].data)
    }
}

proof fn lemma_key_bounds<T: BinKey<U>, U: Offset>(s: Seq<T>)
    requires
        s.len() > 0,
    ensures
        keys_within::<T, U>(s, min_key::<T, U>(s).key_value(), max_key::<T, U>(s).key_value()),
        exists|k: int| 0 <= k < s.len() && min_key::<T, U>(s) == #[trigger] s[k].spec_bin_key(),
        exists|k: int| 0 <= k < s.len() && max_key::<T, U>(s) == #[trigger] s[k].spec_bin_key(),
    decreases s.len(),
{
    if s.len() > 1 {
        lemma_key_bounds::<T, U>(s.drop_last());
        let k = choose|k: int|
            0 <= k < s.len() - 1 && min_key::<T, U>(s.drop_last()) == #[trigger] s.drop_last()[k].spec_bin_key();
        assert(s.drop_last()[k] == s[k]);
        let k2 = choose|k: int|
            0 <= k < s.len() - 1 && max_key::<T, U>(s.drop_last()) == #[trigger] s.drop_last()[k].spec_bin_key();
        assert(s.drop_last()[k2] == s[k2]);
        if max_key::<T, U>(s.drop_last()).key_value() < s.last().spec_bin_key().key_value() {
            assert(max_key::<T, U>(s) == s[s.len() - 1].spec_bin_key());
        } else {
            assert(max_key::<T, U>(s) == s[k2].spec_bin_key());
        }
        assert forall|i: int| 0 <= i < s.len() implies min_key::<T, U>(s).key_value()
            <= #[trigger] key_of::<T, U>(s[i]) <= max_key::<T, U>(s).key_value() by {
            if i < s.len() - 1 {
                assert(s.drop_last()[i] == s[i]);
            }
        }
        if s.last().spec_bin_key().key_value() < min_key::<T, U>(s.drop_last()).key_value() {
            assert(min_key::<T, U>(s) == s[s.len() - 1].spec_bin_key());
        } else {
            assert(min_key::<T, U>(s) == s[k].spec_bin_key());
        }
    } else {
        assert(min_key::<T, U>(s) == s[0].spec_bin_key());
        assert(max_key::<T, U>(s) == s[0].spec_bin_key());
    }
}

proof fn lemma_shr_mono(a: usize, b: usize, p: usize)
    requires
        a <= b,
        p < usize::BITS,
    ensures
        a >> p <= b >> p,
{
    assert(a <= b ==> a >> p <= b >> p) by (bit_vector);
}

proof fn lemma_shr_le(a: usize, p: usize)
    requires
        1 <= p < usize::BITS,
    ensures
        a >> p < usize::MAX,
{
    assert(1 <= p ==> a >> p <= a >> 1usize) by (bit_vector);
    assert(a >> 1usize == a / 2) by (bit_vector);
}

proof fn lemma_sum_counts_insert(m: Multiset<int>, x: int, c: int)
    ensures
        sum_counts(m.insert(x), c) == sum_counts(m, c) + (if 0 <= x < c {
            1int
        } else {
            0int
        }),
    decreases c,
{
    if c > 0 {
        lemma_sum_counts_insert(m, x, c - 1);
    }
}

proof fn lemma_sum_counts_mono(m: Multiset<int>, a: int, b: int)
    requires
        a <= b,
    ensures
        sum_counts(m, a) <= sum_counts(m, b),
    decreases b - a,
{
    if a < b {
        lemma_sum_counts_mono(m, a, b - 1);
    }
}

proof fn lemma_sum_counts_total(b: Seq<int>, nb: int)
    requires
        forall|k: int| 0 <= k < b.len() ==> 0 <= #[trigger] b[k] < nb,
    ensures
        sum_counts(b.to_multiset(), nb) == b.len(),
    decreases b.len(),
{
    broadcast use vstd::seq_lib::group_to_multiset_ensures;

    if b.len() == 0 {
        assert(b.to_multiset() =~= Multiset::empty());
        lemma_sum_counts_zero(nb);
    } else {
        let p = b.drop_last();
        assert(b =~= p.push(b.last()));
        lemma_sum_counts_total(p, nb);
        lemma_sum_counts_insert(p.to_multiset(), b.last(), nb);
    }
}

proof fn lemma_sum_counts_zero(c: int)
    ensures
        sum_counts(Multiset::empty(), c) == 0,
    decreases c,
{
    if c > 0 {
        lemma_sum_counts_zero(c - 1);
    }
}

/// A multiset of a sequence counts `d` at least once for each position
/// of a set that holds `d`.
proof fn lemma_count_covers(b: Seq<int>, d: int, s: Set<int>)
    requires
        s.finite(),
        forall|k: int| #[trigger] s.contains(k) ==> 0 <= k < b.len() && b[k] == d,
    ensures
        s.len() <= b.to_multiset().count(d),
    decreases b.len(),
{
    broadcast use vstd::seq_lib::group_to_multiset_ensures;

    if b.len() == 0 {
        assert(s =~= Set::empty());
    } else {
        let p = b.drop_last();
        let last = b.len() - 1;
        assert(b =~= p.push(b.last()));
        let s2 = s.remove(last);
        assert forall|k: int| #[trigger] s2.contains(k) implies 0 <= k < p.len() && p[k] == d by {
            assert(p[k] == b[k]);
        }
        lemma_count_covers(p, d, s2);
        if s.contains(last) {
            assert(s2.len() == s.len() - 1);
        } else {
            assert(s2 =~= s);
        }
    }
}

proof fn lemma_full_bin_excludes(b: Seq<int>, d: int, lo: int, hi: int, i: int)
    requires
        0 <= lo <= hi <= b.len(),
        forall|k: int| lo <= k < hi ==> #[trigger] b[k] == d,
        0 <= i < b.len(),
        !(lo <= i < hi),
        b[i] == d,
    ensures
        b.to_multiset().count(d) > hi - lo,
{
    vstd::set_lib::lemma_int_range(lo, hi);
    let s = set_int_range(lo, hi).insert(i);
    lemma_count_covers(b, d, s);
}

proof fn lemma_swap_multiset<A>(s: Seq<A>, i: int, j: int)
    requires
        0 <= i < s.len(),
        0 <= j < s.len(),
    ensures
        s.update(i, s[j]).update(j, s[i]).to_multiset() == s.to_multiset(),
{
    broadcast use vstd::seq_lib::group_to_multiset_ensures;

    let s1 = s.update(i, s[j]);
    assert(s1.update(j, s[i]).to_multiset() =~= s.to_multiset());
}

proof fn lemma_unplaced_step(bins: Seq<Bin>, off: Seq<int>, d: int, k: int)
    requires
        0 <= d < bins.len(),
        k <= bins.len(),
        off.len() == bins.len() + 1,
        bins[d].data < usize::MAX,
    ensures
        unplaced(bins.update(d, Bin { offset: bins[d].offset, data: (bins[d].data + 1) as usize }), off, k)
            == unplaced(bins, off, k) - (if d < k { 1int } else { 0int }),
    decreases k,
{
    if k > 0 {
        lemma_unplaced_step(bins, off, d, k - 1);
    }
}

proof fn lemma_unplaced_nonneg(bins: Seq<Bin>, off: Seq<int>, k: int)
    requires
        k <= bins.len(),
        off.len() == bins.len() + 1,
        forall|c: int| 0 <= c < bins.len() ==> (#[trigger] bins[c]).data <= off[c + 1],
    ensures
        unplaced(bins, off, k) >= 0,
    decreases k,
{
    if k > 0 {
        lemma_unplaced_nonneg(bins, off, k - 1);
    }
}

/// Relies on `<[T]>::swap`: exchanges the items at `i` and `j`.
#[verifier::external_body]
fn swap_items<T>(v: &mut Vec<T>, i: usize, j: usize)
    requires
        i < old(v).len(),
        j < old(v).len(),
    ensures
        final(v)@ == old(v)@.update(i as int, old(v)@[j as int]).update(j as int, old(v)@[i as int]),
{
    v.swap(i, j);
}

/// The smallest and the largest key of a non-empty batch.
fn key_range<T: BinKey<U>, U: Offset>(v: &Vec<T>) -> (r: (U, U))
    requires
        v.len() > 0,
    ensures
        r.0 == min_key::<T, U>(v@),
        r.1 == max_key::<T, U>(v@),
{
    let mut min = v[0].bin_key();
    let mut max = min;
    let mut i: usize = 1;
    while i < v.len()
        invariant
            1 <= i <= v.len(),
            min == min_key::<T, U>(v@.take(i as int)),
            max == max_key::<T, U>(v@.take(i as int)),
        decreases v.len() - i,
    {
        let key = v[i].bin_key();
        assert(v@.take(i + 1).drop_last() =~= v@.take(i as int));
        if key.precedes(min) {
            min = key;
        }
        if max.precedes(key) {
            max = key;
        }
        i += 1;
    }
    assert(v@.take(v.len() as int) =~= v@);
    (min, max)
}

/// Builds the bin table: counts the items of each bin, then turns the counts
/// into offsets; each bin's cursor starts at its offset.
fn count_bins<T: BinKey<U>, U: Offset>(
    v: &Vec<T>,
    layout: &BinLayout<U>,
    nb: usize,
    Ghost(lo): Ghost<int>,
    Ghost(hi): Ghost<int>,
) -> (bins: Vec<Bin>)
    requires
        layout.wf(),
        layout.min_key.key_value() == lo,
        lo <= hi <= lo + usize::MAX,
        keys_within::<T, U>(v@, lo, hi),
        forall|k: int| 0 <= k < v.len() ==> 0 <= #[trigger] bin_of::<T, U>(*layout, v@[k]) < nb,
    ensures
        bins.len() == nb,
        forall|c: int|
            0 <= c < nb ==> (#[trigger] bins[c]).offset == sum_counts(
                bin_seq::<T, U>(*layout, v@).to_multiset(),
                c,
            ) && bins[c].data == bins[c].offset,
        sum_counts(bin_seq::<T, U>(*layout, v@).to_multiset(), nb as int) == v.len(),
{
    broadcast use vstd::seq_lib::group_to_multiset_ensures;

    let mut bins: Vec<Bin> = Vec::new();
    let mut c: usize = 0;
    while c < nb
        invariant
            bins.len() == c,
            c <= nb,
            forall|x: int| 0 <= x < c ==> (#[trigger] bins[x]).offset == 0 && bins[x].data == 0,
        decreases nb - c,
    {
        bins.push(Bin { offset: 0, data: 0 });
        c += 1;
    }
    let ghost b = bin_seq::<T, U>(*layout, v@);
    assert(b.take(0).to_multiset() =~= Multiset::empty());
    let mut i: usize = 0;
    while i < v.len()
        invariant
            layout.wf(),
            layout.min_key.key_value() == lo,
            lo <= hi <= lo + usize::MAX,
            keys_within::<T, U>(v@, lo, hi),
            forall|k: int| 0 <= k < v.len() ==> 0 <= #[trigger] bin_of::<T, U>(*layout, v@[k]) < nb,
            bins.len() == nb,
            i <= v.len(),
            b == bin_seq::<T, U>(*layout, v@),
            forall|x: int|
                0 <= x < nb ==> (#[trigger] bins[x]).offset == 0 && bins[x].data == b.take(
                    i as int,
                ).to_multiset().count(x) && bins[x].data <= i,
        decreases v.len() - i,
    {
        let d = v[i].bin_index(layout);
        assert(key_of::<T, U>(v@[i as int]) <= hi);
        assert(d == b[i as int]);
        assert(b.take(i + 1) =~= b.take(i as int).push(b[i as int]));
        let cur = bins[d];
        let ghost old_bins = bins@;
        bins.set(d, Bin { offset: 0, data: cur.data + 1 });
        assert forall|x: int| 0 <= x < nb implies (#[trigger] bins[x]).offset == 0 && bins[x].data
            == b.take(i + 1).to_multiset().count(x) && bins[x].data <= i + 1 by {
            vstd::seq_lib::to_multiset_build(b.take(i as int), b[i as int]);
            if x != d {
                assert(bins[x] == old_bins[x]);
            }
        }
        i += 1;
    }
    let ghost m = b.to_multiset();
    proof {
        assert(b.take(v.len() as int) =~= b);
        assert(forall|x: int| 0 <= x < nb ==> (#[trigger] bins[x]).data == m.count(x));
        lemma_sum_counts_total(b, nb as int);
    }
    let mut offset: usize = 0;
    let mut c: usize = 0;
    while c < nb
        invariant
            bins.len() == nb,
            c <= nb,
            m == b.to_multiset(),
            offset == sum_counts(m, c as int),
            sum_counts(m, nb as int) == v.len(),
            forall|x: int|
                0 <= x < c ==> (#[trigger] bins[x]).offset == sum_counts(m, x) && bins[x].data
                    == bins[x].offset,
            forall|x: int| c <= x < nb ==> (#[trigger] bins[x]).data == m.count(x),
        decreases nb - c,
    {
        let cnt = bins[c].data;
        proof {
            lemma_sum_counts_mono(m, c + 1, nb as int);
        }
        bins.set(c, Bin { offset, data: offset });
        offset = offset + cnt;
        c += 1;
    }
    bins
}

/// The facts about the bin table that stay fixed while items move.
spec fn table_frame(
    off: Seq<int>,
    m: Multiset<int>,
    nb: int,
    n: int,
) -> bool {
    &&& nb >= 1
    &&& off.len() == nb + 1
    &&& off[0] == 0
    &&& off[nb] == n
    &&& forall|c1: int, c2: int|
        #![trigger off[c1], off[c2]]
        0 <= c1 <= c2 <= nb ==> off[c1] <= off[c2]
    &&& forall|c: int| 0 <= c < nb ==> #[trigger] m.count(c) == off[c + 1] - off[c]
}

/// Every item of `s` already lies in the region of its bin.
spec fn in_place<T: BinKey<U>, U: Offset>(layout: BinLayout<U>, off: Seq<int>, s: Seq<T>) -> bool {
    forall|c: int, k: int|
        #![trigger off[c], s[k]]
        0 <= c < off.len() - 1 && off[c] <= k < off[c + 1] ==> bin_of::<T, U>(layout, s[k]) == c
}

/// Items that each lie in their bin, by the table, lie in the region of
/// their bin.
proof fn lemma_in_place_from_bins<T: BinKey<U>, U: Offset>(
    layout: BinLayout<U>,
    off: Seq<int>,
    bins: Seq<Bin>,
    s: Seq<T>,
)
    requires
        off.len() == bins.len() + 1,
        forall|c: int|
            0 <= c < bins.len() ==> (#[trigger] bins[c]).offset == off[c] && bins[c].data == off[c
                + 1],
    ensures
        (forall|c: int, k: int|
            #![trigger in_bin(bins, c, k), s[k]]
            in_bin(bins, c, k) ==> layout.spec_index(s[k].spec_bin_key()) == c) ==> in_place::<
            T,
            U,
        >(layout, off, s),
{
    if forall|c: int, k: int|
        #![trigger in_bin(bins, c, k), s[k]]
        in_bin(bins, c, k) ==> layout.spec_index(s[k].spec_bin_key()) == c {
        assert forall|c: int, k: int|
            #![trigger off[c], s[k]]
            0 <= c < off.len() - 1 && off[c] <= k < off[c + 1] implies bin_of::<T, U>(
                layout,
                s[k],
            ) == c by {
            assert(bins[c].offset == off[c]);
            assert(in_bin(bins, c, k));
        }
    }
}

/// Cycle-following permutation: moves every item into the region of its bin.
/// The cursor `bins[c].data` of bin `c` grows from `off[c]` to `off[c + 1]`;
/// the items before it are placed. An item found at the cursor of bin `b`
/// that belongs to another bin `d` is swapped to the cursor of `d`.
fn permute<T: BinKey<U>, U: Offset>(
    v: &mut Vec<T>,
    layout: &BinLayout<U>,
    bins: &mut Vec<Bin>,
    Ghost(off): Ghost<Seq<int>>,
    Ghost(lo): Ghost<int>,
    Ghost(hi): Ghost<int>,
)
    requires
        layout.wf(),
        layout.min_key.key_value() == lo,
        lo <= hi <= lo + usize::MAX,
        keys_within::<T, U>(old(v)@, lo, hi),
        table_frame(
            off,
            bin_seq::<T, U>(*layout, old(v)@).to_multiset(),
            old(bins).len() as int,
            old(v).len() as int,
        ),
        forall|c: int|
            0 <= c < old(bins).len() ==> (#[trigger] old(bins)[c]).offset == off[c]
                && old(bins)[c].data == off[c],
        forall|k: int|
            0 <= k < old(v).len() ==> 0 <= #[trigger] bin_of::<T, U>(*layout, old(v)@[k]) < old(
                bins,
            ).len(),
    ensures
        final(v).len() == old(v).len(),
        final(v)@.to_multiset() == old(v)@.to_multiset(),
        keys_within::<T, U>(final(v)@, lo, hi),
        final(bins).len() == old(bins).len(),
        forall|c: int|
            0 <= c < old(bins).len() ==> (#[trigger] final(bins)[c]).offset == off[c]
                && final(bins)[c].data == off[c + 1],
        forall|c: int, k: int|
            #![trigger off[c], final(v)@[k]]
            0 <= c < old(bins).len() && off[c] <= k < off[c + 1] ==> bin_of::<T, U>(
                *layout,
                final(v)@[k],
            ) == c,
        in_place::<T, U>(*layout, off, old(v)@) ==> final(v)@ == old(v)@,
{
    let nb = bins.len();
    let n = v.len();
    let ghost s0 = v@;
    let ghost stays = in_place::<T, U>(*layout, off, s0);
    let ghost m = bin_seq::<T, U>(*layout, v@).to_multiset();
    let mut b: usize = 0;
    while b < nb
        invariant
            layout.wf(),
            layout.min_key.key_value() == lo,
            lo <= hi <= lo + usize::MAX,
            table_frame(off, m, nb as int, n as int),
            nb == bins.len(),
            n == v.len(),
            b <= nb,
            v@.to_multiset() == s0.to_multiset(),
            bin_seq::<T, U>(*layout, v@).to_multiset() == m,
            stays == in_place::<T, U>(*layout, off, s0),
            stays ==> v@ == s0,
            keys_within::<T, U>(v@, lo, hi),
            forall|k: int| 0 <= k < n ==> 0 <= #[trigger] bin_of::<T, U>(*layout, v@[k]) < nb,
            forall|c: int|
                0 <= c < nb ==> (#[trigger] bins[c]).offset == off[c] && off[c] <= bins[c].data
                    <= off[c + 1],
            forall|c: int, k: int|
                #![trigger bins[c], v@[k]]
                0 <= c < nb && off[c] <= k < bins[c].data ==> bin_of::<T, U>(*layout, v@[k]) == c,
            forall|c: int| 0 <= c < b ==> (#[trigger] bins[c]).data == off[c + 1],
        decreases nb - b,
    {
        let end = if b + 1 < nb {
            bins[b + 1].offset
        } else {
            n
        };
        while bins[b].data < end
            invariant
                layout.wf(),
                layout.min_key.key_value() == lo,
                lo <= hi <= lo + usize::MAX,
                table_frame(off, m, nb as int, n as int),
                nb == bins.len(),
                n == v.len(),
                b < nb,
                end == off[b + 1],
                v@.to_multiset() == s0.to_multiset(),
                bin_seq::<T, U>(*layout, v@).to_multiset() == m,
                stays == in_place::<T, U>(*layout, off, s0),
                stays ==> v@ == s0,
                keys_within::<T, U>(v@, lo, hi),
                forall|k: int| 0 <= k < n ==> 0 <= #[trigger] bin_of::<T, U>(*layout, v@[k]) < nb,
                forall|c: int|
                    0 <= c < nb ==> (#[trigger] bins[c]).offset == off[c] && off[c]
                        <= bins[c].data <= off[c + 1],
                forall|c: int, k: int|
                    #![trigger bins[c], v@[k]]
                    0 <= c < nb && off[c] <= k < bins[c].data ==> bin_of::<T, U>(*layout, v@[k])
                        == c,
                forall|c: int| 0 <= c < b ==> (#[trigger] bins[c]).data == off[c + 1],
            decreases unplaced(bins@, off, nb as int),
        {
            proof {
                lemma_unplaced_nonneg(bins@, off, nb as int);
            }
            let i = bins[b].data;
            assert(off[b + 1] <= off[nb as int]);
            assert(key_of::<T, U>(v@[i as int]) <= hi);
            let d = v[i].bin_index(layout);
            assert(d == bin_of::<T, U>(*layout, v@[i as int]));
            let ghost old_bins = bins@;
            let ghost old_v = v@;
            let ghost before = unplaced(bins@, off, nb as int);
            if d == b {
                proof {
                    lemma_unplaced_step(bins@, off, b as int, nb as int);
                }
                bins.set(b, Bin { offset: bins[b].offset, data: i + 1 });
                assert(bins@ == old_bins.update(
                    b as int,
                    Bin { offset: old_bins[b as int].offset, data: (old_bins[b as int].data + 1) as usize },
                ));
                assert forall|c: int, k: int|
                    #![trigger bins[c], v@[k]]
                    0 <= c < nb && off[c] <= k < bins[c].data implies bin_of::<T, U>(
                        *layout,
                        v@[k],
                    ) == c by {
                    assert(old_bins[c] == bins[c] || c == b);
                }
            } else {
                let j = bins[d].data;
                proof {
                    if stays {
                        assert(off[b as int] <= i < off[b + 1]);
                        assert(bin_of::<T, U>(*layout, s0[i as int]) == b);
                    }
                    let bs = bin_seq::<T, U>(*layout, old_v);
                    if j as int == off[d + 1] {
                        assert(off[b + 1] <= off[d as int] || off[d + 1] <= off[b as int]) by {
                            if d < b {
                                assert(off[d + 1] <= off[b as int]);
                            } else {
                                assert(off[b + 1] <= off[d as int]);
                            }
                        }
                        assert forall|k: int| off[d as int] <= k < off[d + 1] implies #[trigger] bs[k]
                            == d by {
                            assert(bins[d as int] == bins[d as int]);
                            assert(v@[k] == v@[k]);
                        }
                        lemma_full_bin_excludes(bs, d as int, off[d as int], off[d + 1], i as int);
                    }
                    assert(off[d + 1] <= off[nb as int]);
                }
                swap_items(v, i, j);
                proof {
                    lemma_swap_multiset(old_v, i as int, j as int);
                    let bs = bin_seq::<T, U>(*layout, old_v);
                    lemma_swap_multiset(bs, i as int, j as int);
                    assert(bin_seq::<T, U>(*layout, v@) =~= bs.update(i as int, bs[j as int]).update(
                        j as int,
                        bs[i as int],
                    ));
                    lemma_unplaced_step(bins@, off, d as int, nb as int);
                }
                bins.set(d, Bin { offset: bins[d].offset, data: j + 1 });
                assert(bins@ == old_bins.update(
                    d as int,
                    Bin { offset: old_bins[d as int].offset, data: (old_bins[d as int].data + 1) as usize },
                ));
                assert forall|k: int| 0 <= k < n implies lo <= #[trigger] key_of::<T, U>(v@[k])
                    <= hi && 0 <= bin_of::<T, U>(*layout, v@[k]) < nb by {
                    assert(v@[k] == old_v[k] || v@[k] == old_v[i as int] || v@[k] == old_v[j as int]);
                }
                assert forall|c: int, k: int|
                    #![trigger bins[c], v@[k]]
                    0 <= c < nb && off[c] <= k < bins[c].data implies bin_of::<T, U>(
                        *layout,
                        v@[k],
                    ) == c by {
                    if c == d && k == j {
                    } else {
                        assert(off[c] <= k < old_bins[c].data);
                        if c < b {
                            assert(off[c + 1] <= off[b as int]);
                        } else if c > b {
                            assert(off[b + 1] <= off[c]);
                        }
                        if c < d {
                            assert(off[c + 1] <= off[d as int]);
                        } else if c > d {
                            assert(off[d + 1] <= off[c]);
                        }
                        assert(k != i && k != j);
                        assert(v@[k] == old_v[k]);
                    }
                }
            }
            proof {
                lemma_unplaced_nonneg(bins@, off, nb as int);
            }
            assert(unplaced(bins@, off, nb as int) < before);
        }
        b += 1;
    }
    assert forall|c: int, k: int|
        #![trigger off[c], v@[k]]
        0 <= c < nb && off[c] <= k < off[c + 1] implies bin_of::<T, U>(*layout, v@[k]) == c by {
        assert(bins[c].data == off[c + 1]);
    }
}

/// Once every bin is full, the table tiles the batch, each bin holds the
/// items the layout maps to it, and keys grow from bin to bin.
#[verifier::rlimit(40)]
proof fn lemma_placed_bins<T: BinKey<U>, U: Offset>(
    layout: BinLayout<U>,
    off: Seq<int>,
    bins: Seq<Bin>,
    t: Seq<T>,
    lo: int,
    hi: int,
)
    requires
        layout.wf(),
        layout.min_key.key_value() == lo,
        lo <= hi <= lo + usize::MAX,
        keys_within::<T, U>(t, lo, hi),
        bins.len() >= 1,
        off.len() == bins.len() + 1,
        off[0] == 0,
        off[bins.len() as int] == t.len(),
        forall|c1: int, c2: int|
            #![trigger off[c1], off[c2]]
            0 <= c1 <= c2 <= bins.len() ==> off[c1] <= off[c2],
        forall|c: int|
            0 <= c < bins.len() ==> (#[trigger] bins[c]).offset == off[c] && bins[c].data == off[c
                + 1],
        forall|c: int, k: int|
            #![trigger off[c], t[k]]
            0 <= c < bins.len() && off[c] <= k < off[c + 1] ==> bin_of::<T, U>(layout, t[k]) == c,
    ensures
        tiles(bins, t.len() as int),
        forall|c: int, k: int|
            #![trigger in_bin(bins, c, k), t[k]]
            in_bin(bins, c, k) ==> layout.spec_index(t[k].spec_bin_key()) == c,
        bins_ordered_by_key::<T, U>(t, bins),
{
    assert forall|c: int, k: int|
        #![trigger in_bin(bins, c, k), t[k]]
        in_bin(bins, c, k) implies layout.spec_index(t[k].spec_bin_key()) == c by {
        assert(off[c] <= k < off[c + 1]);
    }
    assert forall|c: int| 0 <= c < bins.len() implies (#[trigger] bins[c]).offset
        <= bins[c].data by {
        assert(off[c] <= off[c + 1]);
    }
    assert forall|c: int| 0 <= c < bins.len() - 1 implies (#[trigger] bins[c]).data
        == bins[c + 1].offset by {
        assert(bins[c + 1].offset == off[c + 1]);
    }
    assert forall|c1: int, c2: int, k1: int, k2: int|
        #![trigger in_bin(bins, c1, k1), in_bin(bins, c2, k2)]
        in_bin(bins, c1, k1) && in_bin(bins, c2, k2) && c1 < c2 implies key_of::<T, U>(t[k1])
        < key_of::<T, U>(t[k2]) by {
        assert(off[c1] <= k1 < off[c1 + 1]);
        assert(off[c2] <= k2 < off[c2 + 1]);
        let a = key_of::<T, U>(t[k1]);
        let b = key_of::<T, U>(t[k2]);
        assert(lo <= a <= hi && lo <= b <= hi);
        lemma_index_exact(layout, t[k1].spec_bin_key());
        lemma_index_exact(layout, t[k2].spec_bin_key());
        if b <= a {
            lemma_shr_mono((b - lo) as usize, (a - lo) as usize, layout.power);
        }
    }
}

/// Under the layout of a batch whose keys are not all equal, every item's bin
/// is at most the bin of the largest key, which leaves room for one more.
proof fn lemma_layout_bounds<T: BinKey<U>, U: Offset>(s: Seq<T>, layout: BinLayout<U>, min: U, max: U)
    requires
        s.len() > 0,
        min == min_key::<T, U>(s),
        max == max_key::<T, U>(s),
        keys_within::<T, U>(s, min.key_value(), max.key_value()),
        exists|k: int| 0 <= k < s.len() && min == #[trigger] s[k].spec_bin_key(),
        exists|k: int| 0 <= k < s.len() && max == #[trigger] s[k].spec_bin_key(),
        min.key_value() <= max.key_value() <= min.key_value() + usize::MAX,
        Some(layout) == BinLayout::spec_new(min, max, s.len() as usize),
        layout.wf(),
        layout.power >= 1,
        layout.min_key == min,
    ensures
        !all_keys_equal::<T, U>(s, key_of::<T, U>(s[0])),
        layout.spec_index(max) < usize::MAX,
        forall|k: int|
            0 <= k < s.len() ==> 0 <= #[trigger] bin_of::<T, U>(layout, s[k]) <= layout.spec_index(
                max,
            ),
{
    let lo = min.key_value();
    let hi = max.key_value();
    if all_keys_equal::<T, U>(s, key_of::<T, U>(s[0])) {
        let k1 = choose|k: int| 0 <= k < s.len() && min == #[trigger] s[k].spec_bin_key();
        let k2 = choose|k: int| 0 <= k < s.len() && max == #[trigger] s[k].spec_bin_key();
        assert(key_of::<T, U>(s[k1]) == key_of::<T, U>(s[k2]));
        U::lemma_offset_exact(max, min);
        assert(false);
    }
    lemma_index_exact(layout, max);
    lemma_shr_le((hi - lo) as usize, layout.power);
    assert forall|k: int| 0 <= k < s.len() implies 0 <= #[trigger] bin_of::<T, U>(layout, s[k])
        <= layout.spec_index(max) by {
        assert(lo <= key_of::<T, U>(s[k]) <= hi);
        lemma_index_exact(layout, s[k].spec_bin_key());
        lemma_shr_mono((key_of::<T, U>(s[k]) - lo) as usize, (hi - lo) as usize, layout.power);
    }
}

/// A permutation placed by the layout derived from `s` is a distribution of `s`.
proof fn lemma_distributed_from_layout<T: BinKey<U>, U: Offset>(
    s: Seq<T>,
    t: Seq<T>,
    bins: Seq<Bin>,
    layout: BinLayout<U>,
)
    requires
        s.len() > 0,
        t.len() == s.len(),
        t.to_multiset() == s.to_multiset(),
        tiles(bins, s.len() as int),
        Some(layout) == BinLayout::spec_new(min_key::<T, U>(s), max_key::<T, U>(s), s.len() as usize),
        bins.len() == layout.spec_index(max_key::<T, U>(s)) + 1,
        forall|c: int, k: int|
            #![trigger in_bin(bins, c, k), t[k]]
            in_bin(bins, c, k) ==> layout.spec_index(t[k].spec_bin_key()) == c,
        (forall|c: int, k: int|
            #![trigger in_bin(bins, c, k), s[k]]
            in_bin(bins, c, k) ==> layout.spec_index(s[k].spec_bin_key()) == c) ==> t == s,
    ensures
        distributed::<T, U>(s, t, bins),
{
    reveal(distributed);
}

/// Distributes `v` in place into bins ordered by key range and returns the
/// bin table; each bin `c` spans `bins[c].offset..bins[c].data`.
fn distribute<T: BinKey<U>, U: Offset>(v: &mut Vec<T>) -> (bins: Vec<Bin>)
    requires
        key_span_fits::<T, U>(old(v)@),
    ensures
        distributed::<T, U>(old(v)@, final(v)@, bins@),
        bins_ordered_by_key::<T, U>(final(v)@, bins@),
        old(v).len() > 0 && all_keys_equal::<T, U>(old(v)@, key_of::<T, U>(old(v)@[0]))
            ==> bins.len() == 1,
        old(v).len() > 0 ==> bins.len() > 0,
{
    let n = v.len();
    if n == 0 {
        let empty = Vec::new();
        assert(distributed::<T, U>(v@, v@, empty@)) by {
            reveal(distributed);
        }
        return empty;
    }
    let (min, max) = key_range(v);
    let ghost lo = min.key_value();
    let ghost hi = max.key_value();
    proof {
        lemma_key_bounds::<T, U>(v@);
        let k1 = choose|k: int| 0 <= k < v.len() && min == #[trigger] v@[k].spec_bin_key();
        let k2 = choose|k: int| 0 <= k < v.len() && max == #[trigger] v@[k].spec_bin_key();
        assert(key_of::<T, U>(v@[k2]) - key_of::<T, U>(v@[k1]) <= usize::MAX);
    }
    let layout = match BinLayout::new(min..max, n) {
        Some(layout) => layout,
        None => {
            let mut single: Vec<Bin> = Vec::new();
            single.push(Bin { offset: 0, data: n });
            assert(single@ == seq![(Bin { offset: 0, data: n })]);
            assert(distributed::<T, U>(v@, v@, single@)) by {
                reveal(distributed);
            }
            return single;
        },
    };
    let top = layout.index(max);
    proof {
        lemma_layout_bounds::<T, U>(v@, layout, min, max);
    }
    let nb = top + 1;
    let mut bins = count_bins(v, &layout, nb, Ghost(lo), Ghost(hi));
    let ghost m = bin_seq::<T, U>(layout, v@).to_multiset();
    let ghost off = Seq::new((nb + 1) as nat, |c: int| sum_counts(m, c) as int);
    proof {
        assert forall|c1: int, c2: int|
            #![trigger off[c1], off[c2]]
            0 <= c1 <= c2 <= nb implies off[c1] <= off[c2] by {
            lemma_sum_counts_mono(m, c1, c2);
        }
    }
    let ghost s0 = v@;
    permute(v, &layout, &mut bins, Ghost(off), Ghost(lo), Ghost(hi));
    proof {
        lemma_placed_bins::<T, U>(layout, off, bins@, v@, lo, hi);
        lemma_in_place_from_bins::<T, U>(layout, off, bins@, s0);
        lemma_distributed_from_layout::<T, U>(s0, v@, bins@, layout);
    }
    bins
}

/// Batches of at most this many items are sorted directly, without bins.
pub const SMALL_SORT_LEN: usize = 16;

/// `compare` accepts every pair of items and orders the items totally: it is
/// antisymmetric and "not greater" is transitive.
pub open spec fn is_total_order<T, F: Fn(&T, &T) -> Ordering>(compare: F) -> bool {
    &&& forall|a: T, b: T| #[trigger] compare.requires((&a, &b))
    &&& forall|a: T, b: T, r: Ordering, q: Ordering|
        #![trigger compare.ensures((&a, &b), r), compare.ensures((&b, &a), q)]
        compare.ensures((&a, &b), r) && compare.ensures((&b, &a), q) ==> (r == Ordering::Less
            <==> q == Ordering::Greater) && (r == Ordering::Equal <==> q == Ordering::Equal)
    &&& forall|a: T, b: T, c: T, r1: Ordering, r2: Ordering, r3: Ordering|
        #![trigger compare.ensures((&a, &b), r1), compare.ensures((&b, &c), r2), compare.ensures((&a, &c), r3)]
        compare.ensures((&a, &b), r1) && compare.ensures((&b, &c), r2) && compare.ensures(
            (&a, &c),
            r3,
        ) && r1 != Ordering::Greater && r2 != Ordering::Greater ==> r3 != Ordering::Greater
}

/// No item of `s` compares greater than an item after it.
#[verifier::opaque]
pub open spec fn sorted_by<T, F: Fn(&T, &T) -> Ordering>(compare: F, s: Seq<T>) -> bool {
    forall|i: int, j: int, r: Ordering|
        #![trigger compare.ensures((&s[i], &s[j]), r)]
        0 <= i < j < s.len() && compare.ensures((&s[i], &s[j]), r) ==> r != Ordering::Greater
}

/// `compare` puts an item with a smaller key first.
pub open spec fn agrees_with_keys<T: BinKey<U>, U: Offset, F: Fn(&T, &T) -> Ordering>(
    compare: F,
) -> bool {
    forall|a: T, b: T, r: Ordering|
        #![trigger compare.ensures((&a, &b), r)]
        key_of::<T, U>(a) < key_of::<T, U>(b) && compare.ensures((&a, &b), r) ==> r
            == Ordering::Less
}

/// `after` is `before` with the range `start..end` rearranged into sorted order.
pub open spec fn sorted_in_range<T, F: Fn(&T, &T) -> Ordering>(
    compare: F,
    before: Seq<T>,
    after: Seq<T>,
    start: int,
    end: int,
) -> bool {
    &&& after.len() == before.len()
    &&& forall|k: int|
        0 <= k < before.len() && !(start <= k < end) ==> #[trigger] after[k] == before[k]
    &&& after.subrange(start, end).to_multiset() == before.subrange(start, end).to_multiset()
    &&& sorted_by::<T, F>(compare, after.subrange(start, end))
}

/// The items of `s` that compare equal to `x`, in their order in `s`.
pub open spec fn tie_class<T, F: Fn(&T, &T) -> Ordering>(compare: F, x: T, s: Seq<T>) -> Seq<T> {
    s.filter(|y: T| compare.ensures((&x, &y), Ordering::Equal))
}

/// Items that compare equal keep their relative order from `before` to `after`.
pub open spec fn keeps_tie_order<T, F: Fn(&T, &T) -> Ordering>(
    compare: F,
    before: Seq<T>,
    after: Seq<T>,
) -> bool {
    forall|x: T| #[trigger] tie_class(compare, x, after) == tie_class(compare, x, before)
}

/// `t` falls into bins that tile it, with keys growing from bin to bin and
/// each bin sorted by `compare`.
pub open spec fn sorted_in_key_bins<T: BinKey<U>, U: Offset, F: Fn(&T, &T) -> Ordering>(
    compare: F,
    t: Seq<T>,
) -> bool {
    exists|bins: Seq<Bin>|
        #![trigger tiles(bins, t.len() as int)]
        tiles(bins, t.len() as int) && bins_ordered_by_key::<T, U>(t, bins) && forall|c: int|
            0 <= c < bins.len() ==> sorted_by(
                compare,
                t.subrange((#[trigger] bins[c]).offset as int, bins[c].data as int),
            )
}

/// Relies on `<[T]>::sort_by`: given a total order, it rearranges
/// `v[lo..hi]` into sorted order, stably (items that compare equal keep
/// their order), and touches nothing else.
#[verifier::external_body]
fn sort_range_stable<T, F>(v: &mut Vec<T>, lo: usize, hi: usize, compare: &F) where
    F: Fn(&T, &T) -> Ordering,

    requires
        lo <= hi <= old(v).len(),
        is_total_order::<T, F>(*compare),
    ensures
        sorted_in_range(*compare, old(v)@, final(v)@, lo as int, hi as int),
        keeps_tie_order(
            *compare,
            old(v)@.subrange(lo as int, hi as int),
            final(v)@.subrange(lo as int, hi as int),
        ),
{
    v[lo..hi].sort_by(compare);
}

/// Relies on `<[T]>::sort_unstable_by`: given a total order, it rearranges
/// `v[lo..hi]` into sorted order and touches nothing else.
#[verifier::external_body]
fn sort_range_unstable<T, F>(v: &mut Vec<T>, lo: usize, hi: usize, compare: &F) where
    F: Fn(&T, &T) -> Ordering,

    requires
        lo <= hi <= old(v).len(),
        is_total_order::<T, F>(*compare),
    ensures
        sorted_in_range(*compare, old(v)@, final(v)@, lo as int, hi as int),
{
    v[lo..hi].sort_unstable_by(compare);
}

proof fn lemma_tiles_order(bins: Seq<Bin>, n: int, c1: int, c2: int)
    requires
        tiles(bins, n),
        0 <= c1 < c2 < bins.len(),
    ensures
        bins[c1].data <= bins[c2].offset,
    decreases c2 - c1,
{
    assert(bins[c2 - 1].data == bins[c2].offset);
    if c1 < c2 - 1 {
        lemma_tiles_order(bins, n, c1, c2 - 1);
        assert(bins[c2 - 1].offset <= bins[c2 - 1].data);
    }
}

proof fn lemma_tiles_cover(bins: Seq<Bin>, n: int, k: int, c: int)
    requires
        tiles(bins, n),
        0 <= c < bins.len(),
        0 <= k < bins[c].data,
    ensures
        exists|c2: int| 0 <= c2 <= c && #[trigger] in_bin(bins, c2, k),
    decreases c,
{
    if k < bins[c].offset {
        assert(c > 0);
        assert(bins[c - 1].data == bins[c].offset);
        lemma_tiles_cover(bins, n, k, c - 1);
    } else {
        assert(in_bin(bins, c, k));
    }
}

/// Each position of a tiled batch lies in exactly one bin.
proof fn lemma_bin_of_position(bins: Seq<Bin>, n: int, k: int) -> (c: int)
    requires
        tiles(bins, n),
        bins.len() > 0,
        0 <= k < n,
    ensures
        in_bin(bins, c, k),
        forall|c2: int| #[trigger] in_bin(bins, c2, k) ==> c2 == c,
{
    lemma_tiles_cover(bins, n, k, bins.len() - 1);
    let c = choose|c2: int| 0 <= c2 <= bins.len() - 1 && #[trigger] in_bin(bins, c2, k);
    assert forall|c2: int| #[trigger] in_bin(bins, c2, k) implies c2 == c by {
        if c2 < c {
            lemma_tiles_order(bins, n, c2, c);
        } else if c < c2 {
            lemma_tiles_order(bins, n, c, c2);
        }
    }
    c
}

/// An item of a rearranged range was somewhere in that range before.
proof fn lemma_from_range<A>(before: Seq<A>, after: Seq<A>, lo: int, hi: int, k: int) -> (k0: int)
    requires
        0 <= lo <= k < hi <= before.len(),
        hi <= after.len(),
        after.subrange(lo, hi).to_multiset() == before.subrange(lo, hi).to_multiset(),
    ensures
        lo <= k0 < hi,
        before[k0] == after[k],
{
    broadcast use vstd::seq_lib::group_to_multiset_ensures;

    let x = after[k];
    assert(after.subrange(lo, hi)[k - lo] == x);
    assert(after.subrange(lo, hi).contains(x));
    assert(after.subrange(lo, hi).to_multiset().count(x) > 0);
    assert(before.subrange(lo, hi).to_multiset().count(x) > 0);
    assert(before.subrange(lo, hi).contains(x));
    let i = choose|i: int| 0 <= i < hi - lo && before.subrange(lo, hi)[i] == x;
    lo + i
}

proof fn lemma_in_bin_bound(bins: Seq<Bin>, n: int, c: int, k: int)
    requires
        tiles(bins, n),
        0 <= c < bins.len(),
    ensures
        bins[c].offset <= bins[c].data <= n,
        in_bin(bins, c, k) ==> 0 <= k < n,
{
    if c < bins.len() - 1 {
        lemma_tiles_order(bins, n, c, bins.len() - 1);
        assert(bins[bins.len() - 1].offset <= bins[bins.len() - 1].data);
    }
}

/// Rearranging a range keeps the multiset of the whole sequence.
proof fn lemma_range_multiset<A>(before: Seq<A>, after: Seq<A>, lo: int, hi: int)
    requires
        0 <= lo <= hi <= before.len(),
        after.len() == before.len(),
        forall|k: int| 0 <= k < before.len() && !(lo <= k < hi) ==> #[trigger] after[k] == before[k],
        after.subrange(lo, hi).to_multiset() == before.subrange(lo, hi).to_multiset(),
    ensures
        after.to_multiset() == before.to_multiset(),
{
    let n = before.len() as int;
    assert(before =~= before.subrange(0, lo) + before.subrange(lo, hi) + before.subrange(hi, n));
    assert(after =~= after.subrange(0, lo) + after.subrange(lo, hi) + after.subrange(hi, n));
    assert(after.subrange(0, lo) =~= before.subrange(0, lo));
    assert(after.subrange(hi, n) =~= before.subrange(hi, n));
    vstd::seq_lib::lemma_multiset_commutative(before.subrange(0, lo), before.subrange(lo, hi));
    vstd::seq_lib::lemma_multiset_commutative(
        before.subrange(0, lo) + before.subrange(lo, hi),
        before.subrange(hi, n),
    );
    vstd::seq_lib::lemma_multiset_commutative(after.subrange(0, lo), after.subrange(lo, hi));
    vstd::seq_lib::lemma_multiset_commutative(
        after.subrange(0, lo) + after.subrange(lo, hi),
        after.subrange(hi, n),
    );
}

/// The item now at position `k` stood before at a position of the same bin.
#[verifier::rlimit(60)]
proof fn lemma_same_bin_source<T>(before: Seq<T>, after: Seq<T>, bins: Seq<Bin>, c: int, k: int) -> (k0: int)
    requires
        tiles(bins, before.len() as int),
        0 <= c < bins.len(),
        after.len() == before.len(),
        forall|i: int|
            0 <= i < before.len() && !(bins[c].offset <= i < bins[c].data) ==> #[trigger] after[i]
                == before[i],
        after.subrange(bins[c].offset as int, bins[c].data as int).to_multiset() == before.subrange(
            bins[c].offset as int,
            bins[c].data as int,
        ).to_multiset(),
        0 <= k < before.len(),
    ensures
        before[k0] == after[k],
        forall|c2: int| #[trigger] in_bin(bins, c2, k) ==> in_bin(bins, c2, k0),
{
    let n = before.len() as int;
    lemma_in_bin_bound(bins, n, c, k);
    if in_bin(bins, c, k) {
        let k0 = lemma_from_range(before, after, bins[c].offset as int, bins[c].data as int, k);
        let p = lemma_bin_of_position(bins, n, k);
        assert(p == c);
        assert(in_bin(bins, c, k0));
        k0
    } else {
        k
    }
}

/// Rearranging the range of one bin keeps keys growing from bin to bin.
proof fn lemma_sorted_bin_ordered<T: BinKey<U>, U: Offset>(
    before: Seq<T>,
    after: Seq<T>,
    bins: Seq<Bin>,
    c: int,
)
    requires
        tiles(bins, before.len() as int),
        bins.len() > 0,
        0 <= c < bins.len(),
        after.len() == before.len(),
        forall|i: int|
            0 <= i < before.len() && !(bins[c].offset <= i < bins[c].data) ==> #[trigger] after[i]
                == before[i],
        after.subrange(bins[c].offset as int, bins[c].data as int).to_multiset() == before.subrange(
            bins[c].offset as int,
            bins[c].data as int,
        ).to_multiset(),
        bins_ordered_by_key::<T, U>(before, bins),
    ensures
        bins_ordered_by_key::<T, U>(after, bins),
{
    let n = before.len() as int;
    assert forall|c1: int, c2: int, k1: int, k2: int|
        #![trigger in_bin(bins, c1, k1), in_bin(bins, c2, k2)]
        in_bin(bins, c1, k1) && in_bin(bins, c2, k2) && c1 < c2 implies key_of::<T, U>(after[k1])
        < key_of::<T, U>(after[k2]) by {
        lemma_in_bin_bound(bins, n, c1, k1);
        lemma_in_bin_bound(bins, n, c2, k2);
        let j1 = lemma_same_bin_source(before, after, bins, c, k1);
        let j2 = lemma_same_bin_source(before, after, bins, c, k2);
        assert(in_bin(bins, c1, j1));
        assert(in_bin(bins, c2, j2));
    }
}

/// Rearranging the range of bin `c` leaves the ranges of earlier bins alone.
#[verifier::rlimit(60)]
proof fn lemma_sorted_bin_prefix<T, F: Fn(&T, &T) -> Ordering>(
    compare: F,
    before: Seq<T>,
    after: Seq<T>,
    bins: Seq<Bin>,
    c: int,
)
    requires
        tiles(bins, before.len() as int),
        0 <= c < bins.len(),
        sorted_in_range(compare, before, after, bins[c].offset as int, bins[c].data as int),
        forall|c2: int|
            0 <= c2 < c ==> sorted_by(
                compare,
                before.subrange((#[trigger] bins[c2]).offset as int, bins[c2].data as int),
            ),
    ensures
        forall|c2: int|
            0 <= c2 <= c ==> sorted_by(
                compare,
                after.subrange((#[trigger] bins[c2]).offset as int, bins[c2].data as int),
            ),
{
    assert forall|c2: int| 0 <= c2 <= c implies sorted_by(
        compare,
        after.subrange((#[trigger] bins[c2]).offset as int, bins[c2].data as int),
    ) by {
        lemma_in_bin_bound(bins, before.len() as int, c2, 0);
        lemma_in_bin_bound(bins, before.len() as int, c, 0);
        if c2 < c {
            lemma_tiles_order(bins, before.len() as int, c2, c);
            assert(after.subrange(bins[c2].offset as int, bins[c2].data as int) =~= before.subrange(
                bins[c2].offset as int,
                bins[c2].data as int,
            ));
        }
    }
}

/// Two items of a batch with sorted bins, the first before the second, are
/// in order when the comparator agrees with the keys.
#[verifier::rlimit(60)]
proof fn lemma_pair_in_order<T: BinKey<U>, U: Offset, F: Fn(&T, &T) -> Ordering>(
    compare: F,
    t: Seq<T>,
    bins: Seq<Bin>,
    i: int,
    j: int,
    r: Ordering,
)
    requires
        tiles(bins, t.len() as int),
        bins.len() > 0,
        bins_ordered_by_key::<T, U>(t, bins),
        agrees_with_keys::<T, U, F>(compare),
        forall|c: int|
            0 <= c < bins.len() ==> sorted_by(
                compare,
                t.subrange((#[trigger] bins[c]).offset as int, bins[c].data as int),
            ),
        0 <= i < j < t.len(),
        compare.ensures((&t[i], &t[j]), r),
    ensures
        r != Ordering::Greater,
{
    let n = t.len() as int;
    let ci = lemma_bin_of_position(bins, n, i);
    let cj = lemma_bin_of_position(bins, n, j);
    lemma_in_bin_bound(bins, n, ci, i);
    if ci == cj {
        let o = bins[ci].offset as int;
        let sub = t.subrange(o, bins[ci].data as int);
        assert(sorted_by(compare, sub));
        reveal(sorted_by);
        assert(sub[i - o] == t[i] && sub[j - o] == t[j]);
        assert(compare.ensures((&sub[i - o], &sub[j - o]), r));
    } else if cj < ci {
        lemma_tiles_order(bins, n, cj, ci);
    } else {
        assert(key_of::<T, U>(t[i]) < key_of::<T, U>(t[j]));
    }
}

/// When every bin is sorted and the comparator agrees with the keys, the
/// whole batch is sorted.
proof fn lemma_sorted_bins_sorted<T: BinKey<U>, U: Offset, F: Fn(&T, &T) -> Ordering>(
    compare: F,
    t: Seq<T>,
    bins: Seq<Bin>,
)
    requires
        tiles(bins, t.len() as int),
        bins.len() > 0,
        bins_ordered_by_key::<T, U>(t, bins),
        agrees_with_keys::<T, U, F>(compare),
        forall|c: int|
            0 <= c < bins.len() ==> sorted_by(
                compare,
                t.subrange((#[trigger] bins[c]).offset as int, bins[c].data as int),
            ),
    ensures
        sorted_by(compare, t),
{
    reveal(sorted_by);
    assert forall|i: int, j: int, r: Ordering|
        #![trigger compare.ensures((&t[i], &t[j]), r)]
        0 <= i < j < t.len() && compare.ensures((&t[i], &t[j]), r) implies r
        != Ordering::Greater by {
        lemma_pair_in_order::<T, U, F>(compare, t, bins, i, j, r);
    }
}

/// Sorts `v` with `compare`: directly when it is small, else bin by bin
/// after distributing it.
fn sort_within_bins<T: BinKey<U>, U: Offset, F: Fn(&T, &T) -> Ordering>(
    v: &mut Vec<T>,
    compare: F,
    stable: bool,
)
    requires
        key_span_fits::<T, U>(old(v)@),
        is_total_order::<T, F>(compare),
    ensures
        final(v).len() == old(v).len(),
        final(v)@.to_multiset() == old(v)@.to_multiset(),
        old(v).len() <= SMALL_SORT_LEN ==> sorted_by(compare, final(v)@),
        agrees_with_keys::<T, U, F>(compare) ==> sorted_by(compare, final(v)@),
        sorted_in_key_bins::<T, U, F>(compare, final(v)@),
        stable && old(v).len() <= SMALL_SORT_LEN ==> keeps_tie_order(compare, old(v)@, final(v)@),
{
    let n = v.len();
    let ghost s0 = v@;
    if n <= SMALL_SORT_LEN {
        if stable {
            sort_range_stable(v, 0, n, &compare);
        } else {
            sort_range_unstable(v, 0, n, &compare);
        }
        assert(v@.subrange(0, n as int) =~= v@);
        assert(s0.subrange(0, n as int) =~= s0);
        let ghost one = if n == 0 {
            Seq::<Bin>::empty()
        } else {
            seq![(Bin { offset: 0, data: n })]
        };
        assert(tiles(one, n as int));
        assert(bins_ordered_by_key::<T, U>(v@, one));
        return;
    }
    let bins = distribute(v);
    proof {
        reveal(distributed);
    }
    let mut c: usize = 0;
    while c < bins.len()
        invariant
            is_total_order::<T, F>(compare),
            tiles(bins@, n as int),
            bins.len() > 0,
            v.len() == n,
            v@.to_multiset() == s0.to_multiset(),
            bins_ordered_by_key::<T, U>(v@, bins@),
            c <= bins.len(),
            forall|c2: int|
                0 <= c2 < c ==> sorted_by(
                    compare,
                    v@.subrange((#[trigger] bins@[c2]).offset as int, bins@[c2].data as int),
                ),
        decreases bins.len() - c,
    {
        let lo = bins[c].offset;
        let hi = bins[c].data;
        let ghost before = v@;
        proof {
            lemma_in_bin_bound(bins@, n as int, c as int, 0);
        }
        if stable {
            sort_range_stable(v, lo, hi, &compare);
        } else {
            sort_range_unstable(v, lo, hi, &compare);
        }
        proof {
            lemma_range_multiset(before, v@, lo as int, hi as int);
            lemma_sorted_bin_ordered::<T, U>(before, v@, bins@, c as int);
            lemma_sorted_bin_prefix(compare, before, v@, bins@, c as int);
        }
        c += 1;
    }
    proof {
        if agrees_with_keys::<T, U, F>(compare) {
            lemma_sorted_bins_sorted::<T, U, F>(compare, v@, bins@);
        }
        assert(tiles(bins@, n as int));
    }
}

/// Sorting by key bins, for a sequence of items keyed by `K`.
pub trait KeyBinSort<K: Offset> {
    type Item: BinKey<K>;

    /// The items, in order.
    spec fn items(&self) -> Seq<Self::Item>;

    /// Distributes the items in place into bins ordered by key range and
    /// returns the bin table; each bin is left for the caller to order.
    fn sort_by_bins(&mut self) -> (bins: Vec<Bin>)
        requires
            key_span_fits::<Self::Item, K>(old(self).items()),
        ensures
            distributed::<Self::Item, K>(old(self).items(), final(self).items(), bins@),
            bins_ordered_by_key::<Self::Item, K>(final(self).items(), bins@),
            old(self).items().len() > 0 && all_keys_equal::<Self::Item, K>(
                old(self).items(),
                key_of::<Self::Item, K>(old(self).items()[0]),
            ) ==> bins.len() == 1,
    ;

    /// Sorts the items with `compare`; a small batch is sorted directly and
    /// stably, a larger one is distributed and then sorted stably bin by bin.
    fn sort_with_bins<F: Fn(&Self::Item, &Self::Item) -> Ordering>(&mut self, compare: F)
        requires
            key_span_fits::<Self::Item, K>(old(self).items()),
            is_total_order::<Self::Item, F>(compare),
        ensures
            final(self).items().to_multiset() == old(self).items().to_multiset(),
            final(self).items().len() == old(self).items().len(),
            old(self).items().len() <= SMALL_SORT_LEN ==> sorted_by(compare, final(self).items()),
            agrees_with_keys::<Self::Item, K, F>(compare) ==> sorted_by(
                compare,
                final(self).items(),
            ),
            sorted_in_key_bins::<Self::Item, K, F>(compare, final(self).items()),
            old(self).items().len() <= SMALL_SORT_LEN ==> keeps_tie_order(
                compare,
                old(self).items(),
                final(self).items(),
            ),
    ;

    /// Sorts the items with `compare`, not necessarily stably.
    fn sort_unstable_with_bins<F: Fn(&Self::Item, &Self::Item) -> Ordering>(
        &mut self,
        compare: F,
    )
        requires
            key_span_fits::<Self::Item, K>(old(self).items()),
            is_total_order::<Self::Item, F>(compare),
        ensures
            final(self).items().to_multiset() == old(self).items().to_multiset(),
            final(self).items().len() == old(self).items().len(),
            old(self).items().len() <= SMALL_SORT_LEN ==> sorted_by(compare, final(self).items()),
            agrees_with_keys::<Self::Item, K, F>(compare) ==> sorted_by(
                compare,
                final(self).items(),
            ),
            sorted_in_key_bins::<Self::Item, K, F>(compare, final(self).items()),
    ;
}

impl<T: BinKey<K>, K: Offset> KeyBinSort<K> for Vec<T> {
    type Item = T;

    open spec fn items(&self) -> Seq<T> {
        self@
    }

    fn sort_by_bins(&mut self) -> (bins: Vec<Bin>) {
        distribute(self)
    }

    fn sort_with_bins<F: Fn(&T, &T) -> Ordering>(&mut self, compare: F) {
        sort_within_bins(self, compare, true)
    }

    fn sort_unstable_with_bins<F: Fn(&T, &T) -> Ordering>(&mut self, compare: F) {
        sort_within_bins(self, compare, false)
    }
}

/// Some answer of `compare` is known for every pair of items.
pub open spec fn answers_every_pair<T, F: Fn(&T, &T) -> Ordering>(compare: F) -> bool {
    forall|a: T, b: T| #[trigger] compare.requires((&a, &b)) ==> exists|r: Ordering| compare.ensures((&a, &b), r)
}

/// `compare` answers `Equal` only for identical items.
pub open spec fn equal_means_identical<T, F: Fn(&T, &T) -> Ordering>(compare: F) -> bool {
    forall|a: T, b: T| #[trigger] compare.ensures((&a, &b), Ordering::Equal) ==> a == b
}

proof fn lemma_sorted_drop_first<T, F: Fn(&T, &T) -> Ordering>(compare: F, s: Seq<T>)
    requires
        s.len() > 0,
        sorted_by(compare, s),
    ensures
        sorted_by(compare, s.drop_first()),
{
    reveal(sorted_by);
    let d = s.drop_first();
    assert forall|i: int, j: int, r: Ordering|
        #![trigger compare.ensures((&d[i], &d[j]), r)]
        0 <= i < j < d.len() && compare.ensures((&d[i], &d[j]), r) implies r
        != Ordering::Greater by {
        assert(d[i] == s[i + 1] && d[j] == s[j + 1]);
        assert(compare.ensures((&s[i + 1], &s[j + 1]), r));
    }
}

/// The first item of a sorted sequence comes no later than any of its items.
proof fn lemma_sorted_first_le<T, F: Fn(&T, &T) -> Ordering>(compare: F, s: Seq<T>, x: T, r: Ordering)
    requires
        is_total_order::<T, F>(compare),
        sorted_by(compare, s),
        s.contains(x),
        compare.ensures((&s[0], &x), r),
    ensures
        r != Ordering::Greater,
{
    reveal(sorted_by);
    let k = choose|k: int| 0 <= k < s.len() && s[k] == x;
    if k == 0 {
        assert(compare.ensures((&x, &x), r));
    } else {
        assert(compare.ensures((&s[0], &s[k]), r));
    }
}

/// Under a total order in which only identical items compare equal, a
/// sequence has exactly one sorted arrangement.
pub proof fn lemma_sorted_permutation_unique<T, F: Fn(&T, &T) -> Ordering>(
    compare: F,
    s1: Seq<T>,
    s2: Seq<T>,
)
    requires
        is_total_order::<T, F>(compare),
        answers_every_pair::<T, F>(compare),
        equal_means_identical::<T, F>(compare),
        sorted_by(compare, s1),
        sorted_by(compare, s2),
        s1.to_multiset() == s2.to_multiset(),
    ensures
        s1 == s2,
    decreases s1.len(),
{
    broadcast use vstd::seq_lib::group_to_multiset_ensures;

    vstd::seq_lib::to_multiset_len(s1);
    vstd::seq_lib::to_multiset_len(s2);
    if s1.len() == 0 {
        assert(s2.len() == 0);
        assert(s1 =~= s2);
    } else {
        assert(s2.len() > 0);
        let a = s1[0];
        let b = s2[0];
        assert(s1.contains(a));
        assert(s2.contains(b));
        assert(s2.to_multiset().count(a) > 0);
        assert(s1.to_multiset().count(b) > 0);
        assert(compare.requires((&a, &b)));
        assert(compare.requires((&b, &a)));
        let r = choose|r: Ordering| compare.ensures((&a, &b), r);
        let q = choose|q: Ordering| compare.ensures((&b, &a), q);
        lemma_sorted_first_le(compare, s1, b, r);
        lemma_sorted_first_le(compare, s2, a, q);
        assert(a == b);
        assert(s1.remove(0) =~= s1.drop_first());
        assert(s2.remove(0) =~= s2.drop_first());
        lemma_sorted_drop_first(compare, s1);
        lemma_sorted_drop_first(compare, s2);
        lemma_sorted_permutation_unique(compare, s1.drop_first(), s2.drop_first());
        assert(s1 =~= s2.drop_first().insert(0, b));
        assert(s2 =~= s2.drop_first().insert(0, b));
    }
}

/// Sorting by bins gives what any direct comparison sort gives: with a
/// comparator that agrees with the keys, totally orders the items and calls
/// only identical items equal, the result `t` of sorting `s` by bins equals
/// every sorted arrangement `u` of `s`.
pub proof fn lemma_bin_sort_matches_direct_sort<T: BinKey<U>, U: Offset, F: Fn(&T, &T) -> Ordering>(
    compare: F,
    s: Seq<T>,
    t: Seq<T>,
    u: Seq<T>,
)
    requires
        is_total_order::<T, F>(compare),
        answers_every_pair::<T, F>(compare),
        equal_means_identical::<T, F>(compare),
        agrees_with_keys::<T, U, F>(compare),
        t.to_multiset() == s.to_multiset(),
        sorted_by(compare, t),
        u.to_multiset() == s.to_multiset(),
        sorted_by(compare, u),
    ensures
        t == u,
{
    lemma_sorted_permutation_unique(compare, t, u);
}

/// Sorting a sequence that is already sorted leaves it as it was: under a
/// total order that calls only identical items equal, a sorted arrangement
/// `t` of a sorted `s` is `s` itself.
pub proof fn lemma_sort_of_sorted_is_identity<T, F: Fn(&T, &T) -> Ordering>(
    compare: F,
    s: Seq<T>,
    t: Seq<T>,
)
    requires
        is_total_order::<T, F>(compare),
        answers_every_pair::<T, F>(compare),
        equal_means_identical::<T, F>(compare),
        sorted_by(compare, s),
        t.to_multiset() == s.to_multiset(),
        sorted_by(compare, t),
    ensures
        t == s,
{
    lemma_sorted_permutation_unique(compare, t, s);
}

proof fn lemma_filter_first<A>(s: Seq<A>, pred: spec_fn(A) -> bool)
    requires
        s.len() > 0,
    ensures
        s.filter(pred) == (if pred(s[0]) {
            seq![s[0]] + s.drop_first().filter(pred)
        } else {
            s.drop_first().filter(pred)
        }),
{
    let one = seq![s[0]];
    assert(s =~= one + s.drop_first());
    Seq::filter_distributes_over_add(one, s.drop_first(), pred);
    assert(one.drop_last() =~= Seq::<A>::empty());
    assert(one.drop_last().filter(pred) =~= Seq::<A>::empty());
    assert(one.last() == s[0]);
    reveal_with_fuel(Seq::filter, 2);
    assert(one.filter(pred) == (if pred(one.last()) {
        one.drop_last().filter(pred).push(one.last())
    } else {
        one.drop_last().filter(pred)
    }));
    if pred(s[0]) {
        assert(Seq::<A>::empty().push(s[0]) =~= one);
        assert(one.filter(pred) =~= one);
    } else {
        assert(one.filter(pred) =~= Seq::<A>::empty());
    }
}

/// An item compares equal to itself.
proof fn lemma_equal_to_self<T, F: Fn(&T, &T) -> Ordering>(compare: F, a: T)
    requires
        is_total_order::<T, F>(compare),
        answers_every_pair::<T, F>(compare),
    ensures
        compare.ensures((&a, &a), Ordering::Equal),
{
    assert(compare.requires((&a, &a)));
    let r = choose|r: Ordering| compare.ensures((&a, &a), r);
    assert(r == Ordering::Equal);
}

/// Under a total order, a sequence has exactly one sorted arrangement in
/// which items that compare equal keep their relative order.
pub proof fn lemma_stable_sorted_unique<T, F: Fn(&T, &T) -> Ordering>(
    compare: F,
    t1: Seq<T>,
    t2: Seq<T>,
)
    requires
        is_total_order::<T, F>(compare),
        answers_every_pair::<T, F>(compare),
        sorted_by(compare, t1),
        sorted_by(compare, t2),
        t1.to_multiset() == t2.to_multiset(),
        keeps_tie_order(compare, t1, t2),
    ensures
        t1 == t2,
    decreases t1.len(),
{
    broadcast use vstd::seq_lib::group_to_multiset_ensures;

    vstd::seq_lib::to_multiset_len(t1);
    vstd::seq_lib::to_multiset_len(t2);
    if t1.len() == 0 {
        assert(t1 =~= t2);
    } else {
        let a = t1[0];
        let b = t2[0];
        assert(t1.contains(a));
        assert(t2.contains(b));
        assert(t2.to_multiset().count(a) > 0);
        assert(t1.to_multiset().count(b) > 0);
        assert(compare.requires((&a, &b)));
        assert(compare.requires((&b, &a)));
        let r = choose|r: Ordering| compare.ensures((&a, &b), r);
        let q = choose|q: Ordering| compare.ensures((&b, &a), q);
        lemma_sorted_first_le(compare, t1, b, r);
        lemma_sorted_first_le(compare, t2, a, q);
        assert(r == Ordering::Equal);
        lemma_equal_to_self(compare, a);
        let pa = |y: T| compare.ensures((&a, &y), Ordering::Equal);
        lemma_filter_first(t1, pa);
        lemma_filter_first(t2, pa);
        assert(tie_class(compare, a, t2) == tie_class(compare, a, t1));
        assert(tie_class(compare, a, t1)[0] == a);
        assert(tie_class(compare, a, t2)[0] == b);
        assert(a == b);
        let d1 = t1.drop_first();
        let d2 = t2.drop_first();
        assert forall|x: T| #[trigger] tie_class(compare, x, d2) == tie_class(compare, x, d1) by {
            let px = |y: T| compare.ensures((&x, &y), Ordering::Equal);
            lemma_filter_first(t1, px);
            lemma_filter_first(t2, px);
            assert(tie_class(compare, x, t2) == tie_class(compare, x, t1));
            if px(a) {
                assert(d1.filter(px) =~= t1.filter(px).drop_first());
                assert(d2.filter(px) =~= t2.filter(px).drop_first());
            }
        }
        assert(t1.remove(0) =~= d1);
        assert(t2.remove(0) =~= d2);
        lemma_sorted_drop_first(compare, t1);
        lemma_sorted_drop_first(compare, t2);
        lemma_stable_sorted_unique(compare, d1, d2);
        assert(t1 =~= d1.insert(0, a));
        assert(t2 =~= d2.insert(0, b));
    }
}

/// Stably sorting a sequence that is already sorted leaves it as it was,
/// ties included: a sorted arrangement `t` of a sorted `s` that keeps the
/// order of equal items is `s` itself.
pub proof fn lemma_stable_sort_of_sorted_is_identity<T, F: Fn(&T, &T) -> Ordering>(
    compare: F,
    s: Seq<T>,
    t: Seq<T>,
)
    requires
        is_total_order::<T, F>(compare),
        answers_every_pair::<T, F>(compare),
        sorted_by(compare, s),
        t.to_multiset() == s.to_multiset(),
        sorted_by(compare, t),
        keeps_tie_order(compare, s, t),
    ensures
        t == s,
{
    assert forall|x: T| #[trigger] tie_class(compare, x, s) == tie_class(compare, x, t) by {
        assert(tie_class(compare, x, t) == tie_class(compare, x, s));
    }
    lemma_stable_sorted_unique(compare, t, s);
}

/// A small batch comes out as a direct stable sort leaves it: two stable
/// sorted arrangements `t` and `u` of the same `s` are equal.
pub proof fn lemma_small_sort_matches_direct_sort<T, F: Fn(&T, &T) -> Ordering>(
    compare: F,
    s: Seq<T>,
    t: Seq<T>,
    u: Seq<T>,
)
    requires
        is_total_order::<T, F>(compare),
        answers_every_pair::<T, F>(compare),
        t.to_multiset() == s.to_multiset(),
        sorted_by(compare, t),
        keeps_tie_order(compare, s, t),
        u.to_multiset() == s.to_multiset(),
        sorted_by(compare, u),
        keeps_tie_order(compare, s, u),
    ensures
        t == u,
{
    assert forall|x: T| #[trigger] tie_class(compare, x, u) == tie_class(compare, x, t) by {
        assert(tie_class(compare, x, t) == tie_class(compare, x, s));
        assert(tie_class(compare, x, u) == tie_class(compare, x, s));
    }
    lemma_stable_sorted_unique(compare, t, u);
}

} // verus!
