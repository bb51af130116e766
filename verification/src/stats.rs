//! Line-length statistics: the merged record-length list, its exact
//! aggregates, the sorted order for median and extrema, and the bucket
//! histogram.
use vstd::prelude::*;

use std::collections::HashMap;

use crate::par::par_line_length_lists;
use crate::plan::{is_chunk_plan, lemma_plan_in_range, line_aligned, plan_line_boundaries};
use crate::scan::line_lengths_chunk;
use crate::text::{
    bucket_of, count_bucket, count_val, lemma_lens_bounds, lemma_lens_split, line_lengths,
    seq_sum, seq_sum_sq, NL,
};
use crate::{CHUNK_SIZE, PARALLEL_THRESHOLD};
use vstd::multiset::Multiset;
use vstd::seq_lib::lemma_multiset_commutative;
use vstd::seq_lib::lemma_sorted_unique;
use vstd::relations::sorted_by;

verus! {

broadcast use {
    vstd::std_specs::hash::group_hash_axioms,
    vstd::seq_lib::group_to_multiset_ensures,
    vstd::multiset::group_multiset_axioms,
};

/// Exact aggregates of the record lengths of a buffer. Mean and variance
/// are quotients of these integers: the mean is `sum / count` and the
/// population variance is `sum_squares / count - (sum / count)^2`.
pub struct Statistics {
    /// Number of records.
    pub count: usize,
    /// Total of the record lengths.
    pub sum: usize,
    /// Total of the squared record lengths.
    pub sum_squares: u128,
    /// Lower central record length in sorted order.
    pub median_low: usize,
    /// Upper central record length in sorted order.
    pub median_high: usize,
    /// Shortest record length.
    pub min_line_length: usize,
    /// Longest record length.
    pub max_line_length: usize,
    /// Number of records of length zero.
    pub empty_lines: usize,
}

/// The record lengths of `data`, in record order.
pub fn collect_line_lengths(data: &[u8]) -> (r: Vec<usize>)
    ensures
        r@.map_values(|x: usize| x as int) == line_lengths(data@),
{
    if data.len() == 0 {
        let r: Vec<usize> = Vec::new();
        proof {
            assert(r@.map_values(|x: usize| x as int) =~= line_lengths(data@));
        }
        return r;
    }
    if data.len() < PARALLEL_THRESHOLD {
        return line_lengths_chunk(data);
    }
    let ghost s = data@;
    let bounds = plan_line_boundaries(data, CHUNK_SIZE);
    let parts = par_line_length_lists(data, &bounds);
    let mut merged: Vec<usize> = Vec::new();
    let mut k: usize = 0;
    proof {
        assert(merged@.map_values(|x: usize| x as int) =~= line_lengths(s.subrange(0, 0)));
    }
    while k < parts.len()
        invariant
            s == data@,
            is_chunk_plan(bounds@, s.len() as int),
            line_aligned(s, bounds@),
            parts@.len() + 1 == bounds@.len(),
            forall|j: int|
                0 <= j < parts@.len() ==> (#[trigger] parts@[j])@.map_values(|x: usize| x as int)
                    == line_lengths(s.subrange(bounds@[j] as int, bounds@[j + 1] as int)),
            k <= parts@.len(),
            merged@.map_values(|x: usize| x as int) == line_lengths(
                s.subrange(0, bounds@[k as int] as int),
            ),
        decreases parts@.len() - k,
    {
        proof {
            lemma_plan_in_range(bounds@, s.len() as int, k as int + 1);
            let b0 = bounds@[k as int] as int;
            let b1 = bounds@[k as int + 1] as int;
            let t = s.subrange(0, b1);
            assert(b0 == 0 || b0 == t.len() || t[b0 - 1] == NL) by {
                if k >= 1 && b0 < b1 {
                    assert(b0 < s.len());
                    assert(bounds@[k as int] as int == s.len() || s[b0 - 1] == NL);
                }
            }
            lemma_lens_split(t, b0);
            assert(t.take(b0) =~= s.subrange(0, b0));
            assert(t.skip(b0) =~= s.subrange(b0, b1));
        }
        let ghost pref = line_lengths(s.subrange(0, bounds@[k as int] as int));
        let ghost pm = parts@[k as int]@.map_values(|x: usize| x as int);
        let part = &parts[k];
        let mut j: usize = 0;
        proof {
            assert(pm.subrange(0, 0) =~= Seq::<int>::empty());
            assert(merged@.map_values(|x: usize| x as int) =~= pref + pm.subrange(0, 0));
        }
        while j < part.len()
            invariant
                j <= part@.len(),
                pm == part@.map_values(|x: usize| x as int),
                merged@.map_values(|x: usize| x as int) == pref + pm.subrange(0, j as int),
            decreases part@.len() - j,
        {
            let ghost om = merged@;
            merged.push(part[j]);
            proof {
                assert(merged@ == om.push(part@[j as int]));
                assert(pm[j as int] == part@[j as int] as int);
                assert(pm.subrange(0, j + 1) =~= pm.subrange(0, j as int).push(pm[j as int]));
                assert(merged@.map_values(|x: usize| x as int) =~= om.map_values(
                    |x: usize| x as int,
                ).push(part@[j as int] as int));
                assert(merged@.map_values(|x: usize| x as int) =~= pref + pm.subrange(0, j + 1));
            }
            j = j + 1;
        }
        proof {
            assert(pm.subrange(0, pm.len() as int) =~= pm);
        }
        k = k + 1;
    }
    proof {
        assert(s.subrange(0, s.len() as int) =~= s);
    }
    merged
}

/// Lengths already seen are each at most `m` and sum to at most `m`.
spec fn int_view(v: Seq<usize>) -> Seq<int> {
    v.map_values(|x: usize| x as int)
}

/// Partial sums of a sequence of non-negative values never exceed the
/// whole sum.
proof fn lemma_prefix_sum_le(l: Seq<int>, i: int)
    requires
        0 <= i <= l.len(),
        forall|j: int| 0 <= j < l.len() ==> #[trigger] l[j] >= 0,
    ensures
        seq_sum(l.subrange(0, i)) <= seq_sum(l),
        seq_sum(l.subrange(0, i)) >= 0,
    decreases l.len() - i,
{
    if i == l.len() {
        assert(l.subrange(0, i) =~= l);
        lemma_sum_nonneg(l);
    } else {
        lemma_prefix_sum_le(l, i + 1);
        assert(l.subrange(0, i + 1).drop_last() =~= l.subrange(0, i));
        assert(l.subrange(0, i + 1).last() == l[i]);
        lemma_sum_nonneg(l.subrange(0, i));
    }
}

/// A sum of non-negative values is non-negative.
proof fn lemma_sum_nonneg(l: Seq<int>)
    requires
        forall|j: int| 0 <= j < l.len() ==> #[trigger] l[j] >= 0,
    ensures
        seq_sum(l) >= 0,
    decreases l.len(),
{
    if l.len() > 0 {
        lemma_sum_nonneg(l.drop_last());
    }
}

/// The sum of squares of values in `[0, m]` is at most `m` times their
/// sum.
proof fn lemma_sum_sq_le(l: Seq<int>, m: int)
    requires
        forall|j: int| 0 <= j < l.len() ==> 0 <= #[trigger] l[j] <= m,
    ensures
        0 <= seq_sum_sq(l) <= seq_sum(l) * m,
        seq_sum(l) * m >= 0,
    decreases l.len(),
{
    if l.len() == 0 {
        assert(seq_sum(l) * m == 0) by (nonlinear_arith)
            requires
                seq_sum(l) == 0,
        ;
    } else {
        let d = l.drop_last();
        let x = l.last();
        lemma_sum_sq_le(d, m);
        assert(x * x <= x * m) by (nonlinear_arith)
            requires
                0 <= x <= m,
        ;
        assert(seq_sum(l) * m == seq_sum(d) * m + x * m) by (nonlinear_arith)
            requires
                seq_sum(l) == seq_sum(d) + x,
        ;
        assert(x * x >= 0) by (nonlinear_arith);
    }
}

/// Number of zero values among the first `i`.
proof fn lemma_count_val_bound(l: Seq<int>, v: int)
    ensures
        0 <= count_val(l, v) <= l.len(),
    decreases l.len(),
{
    if l.len() > 0 {
        lemma_count_val_bound(l.drop_last(), v);
    }
}

/// Sorted in non-decreasing order.
spec fn sorted_usize(v: Seq<usize>) -> bool {
    forall|a: int, b: int| 0 <= a < b < v.len() ==> v[a] <= v[b]
}

/// Merges two sorted vectors into one sorted vector holding the combined
/// contents.
fn merge_sorted(a: Vec<usize>, b: Vec<usize>) -> (out: Vec<usize>)
    requires
        sorted_usize(a@),
        sorted_usize(b@),
    ensures
        sorted_usize(out@),
        int_view(out@).to_multiset() == int_view(a@).to_multiset().add(
            int_view(b@).to_multiset(),
        ),
        out@.len() == a@.len() + b@.len(),
{
    let mut out: Vec<usize> = Vec::new();
    let mut i: usize = 0;
    let mut j: usize = 0;
    proof {
        assert(int_view(out@) =~= Seq::<int>::empty());
        assert(int_view(a@.subrange(0, 0)) =~= Seq::<int>::empty());
        assert(int_view(b@.subrange(0, 0)) =~= Seq::<int>::empty());
        assert(int_view(out@).to_multiset() =~= int_view(a@.subrange(0, 0)).to_multiset().add(
            int_view(b@.subrange(0, 0)).to_multiset(),
        ));
    }
    while i < a.len() || j < b.len()
        invariant
            i <= a@.len(),
            j <= b@.len(),
            sorted_usize(a@),
            sorted_usize(b@),
            sorted_usize(out@),
            out@.len() == i + j,
            int_view(out@).to_multiset() == int_view(a@.subrange(0, i as int)).to_multiset().add(
                int_view(b@.subrange(0, j as int)).to_multiset(),
            ),
            forall|k: int| 0 <= k < out@.len() && i < a@.len() ==> #[trigger] out@[k] <= a@[i as int],
            forall|k: int| 0 <= k < out@.len() && j < b@.len() ==> #[trigger] out@[k] <= b@[j as int],
        decreases a@.len() - i + b@.len() - j,
    {
        let take_a = if i >= a.len() {
            false
        } else if j >= b.len() {
            true
        } else {
            a[i] <= b[j]
        };
        if take_a {
            let x = a[i];
            proof {
                let pre = int_view(a@.subrange(0, i as int));
                assert(int_view(a@.subrange(0, i + 1)) =~= pre.push(x as int));
                assert(int_view(out@.push(x)) =~= int_view(out@).push(x as int));
            }
            out.push(x);
            i = i + 1;
        } else {
            let x = b[j];
            proof {
                let pre = int_view(b@.subrange(0, j as int));
                assert(int_view(b@.subrange(0, j + 1)) =~= pre.push(x as int));
                assert(int_view(out@.push(x)) =~= int_view(out@).push(x as int));
            }
            out.push(x);
            j = j + 1;
        }
    }
    proof {
        assert(a@.subrange(0, a@.len() as int) =~= a@);
        assert(b@.subrange(0, b@.len() as int) =~= b@);
    }
    out
}

/// Sorts the lengths by splitting, sorting each half and merging: the
/// result is sorted and holds the same contents.
fn merge_sort_inner(v: Vec<usize>) -> (out: Vec<usize>)
    ensures
        sorted_usize(out@),
        int_view(out@).to_multiset() == int_view(v@).to_multiset(),
        out@.len() == v@.len(),
    decreases v@.len(),
{
    if v.len() <= 1 {
        return v;
    }
    let mid = v.len() / 2;
    let mut left: Vec<usize> = Vec::new();
    let mut right: Vec<usize> = Vec::new();
    let mut k: usize = 0;
    while k < mid
        invariant
            k <= mid <= v@.len(),
            left@ == v@.subrange(0, k as int),
        decreases mid - k,
    {
        left.push(v[k]);
        proof {
            assert(left@ =~= v@.subrange(0, k + 1));
        }
        k = k + 1;
    }
    let mut m: usize = mid;
    while m < v.len()
        invariant
            mid <= m <= v@.len(),
            right@ == v@.subrange(mid as int, m as int),
        decreases v@.len() - m,
    {
        right.push(v[m]);
        proof {
            assert(right@ =~= v@.subrange(mid as int, m + 1));
        }
        m = m + 1;
    }
    proof {
        assert(int_view(v@) =~= int_view(left@) + int_view(right@));
        lemma_multiset_commutative(int_view(left@), int_view(right@));
    }
    let ls = merge_sort_inner(left);
    let rs = merge_sort_inner(right);
    merge_sorted(ls, rs)
}

/// Sorts a copy of the given lengths; the result is the specification
/// sort of the input's integer view.
fn sort_lengths(v: &Vec<usize>) -> (out: Vec<usize>)
    ensures
        int_view(out@) == int_view(v@).sort(),
{
    let mut copy: Vec<usize> = Vec::new();
    let mut i: usize = 0;
    while i < v.len()
        invariant
            i <= v@.len(),
            copy@ == v@.subrange(0, i as int),
        decreases v@.len() - i,
    {
        copy.push(v[i]);
        proof {
            assert(copy@ =~= v@.subrange(0, i + 1));
        }
        i = i + 1;
    }
    proof {
        assert(copy@ =~= v@);
    }
    let out = merge_sort_inner(copy);
    proof {
        let leq = |x: int, y: int| x <= y;
        int_view(v@).lemma_sort_ensures();
        assert(sorted_by(int_view(v@).sort(), leq)) by {
            assert forall|x: int, y: int|
                0 <= x < y < int_view(v@).sort().len() implies #[trigger] leq(
                int_view(v@).sort()[x],
                int_view(v@).sort()[y],
            ) by {
                let g = |x: int, y: int| x <= y;
                assert(sorted_by(int_view(v@).sort(), g));
                assert(g(int_view(v@).sort()[x], int_view(v@).sort()[y]));
            }
        }
        assert(vstd::relations::total_ordering(leq)) by {
            assert(vstd::relations::connected(leq));
            assert(vstd::relations::antisymmetric(leq));
            assert(vstd::relations::transitive(leq));
        }
        assert(sorted_by(int_view(out@), leq)) by {
            assert forall|x: int, y: int| 0 <= x < y < int_view(out@).len() implies #[trigger] leq(
                int_view(out@)[x],
                int_view(out@)[y],
            ) by {
                assert(out@[x] <= out@[y]);
            }
        }
        lemma_sorted_unique(int_view(out@), int_view(v@).sort(), leq);
        assert(int_view(out@) =~= int_view(v@).sort());
    }
    out
}

/// Exact statistics of the record lengths of `data`: counts, totals and
/// the sorted order's central and extreme values. All fields are zero for
/// a buffer with no records.
pub fn calculate_statistics(data: &[u8]) -> (st: Statistics)
    ensures
        ({
            let l = line_lengths(data@);
            let sorted = l.sort();
            &&& st.count as int == l.len()
            &&& st.sum as int == seq_sum(l)
            &&& st.sum_squares as int == seq_sum_sq(l)
            &&& st.empty_lines as int == count_val(l, 0)
            &&& l.len() == 0 ==> st.median_low == 0 && st.median_high == 0
                && st.min_line_length == 0 && st.max_line_length == 0
            &&& l.len() > 0 ==> st.median_low as int == sorted[(l.len() - 1) as int / 2]
                && st.median_high as int == sorted[l.len() as int / 2] && st.min_line_length as int
                == sorted[0] && st.max_line_length as int == sorted[l.len() - 1]
        }),
{
    let ghost l = line_lengths(data@);
    let lengths = collect_line_lengths(data);
    proof {
        lemma_lens_bounds(data@, 0, 0);
        assert(int_view(lengths@) == l);
        assert(lengths@.len() == l.len());
    }
    let dlen = data.len();
    let n = lengths.len();
    let mut sum: usize = 0;
    let mut sum_squares: u128 = 0;
    let mut empty_lines: usize = 0;
    let mut i: usize = 0;
    proof {
        assert(int_view(lengths@).subrange(0, 0) =~= Seq::<int>::empty());
    }
    while i < n
        invariant
            n == lengths@.len(),
            i <= n,
            int_view(lengths@) == l,
            forall|j: int| 0 <= j < l.len() ==> 0 <= #[trigger] l[j] <= data@.len(),
            seq_sum(l) <= data@.len(),
            dlen == data@.len(),
            sum as int == seq_sum(l.subrange(0, i as int)),
            sum_squares as int == seq_sum_sq(l.subrange(0, i as int)),
            empty_lines as int == count_val(l.subrange(0, i as int), 0),
        decreases n - i,
    {
        let x = lengths[i];
        proof {
            let pre = l.subrange(0, i as int);
            let pre1 = l.subrange(0, i + 1);
            assert(pre1.drop_last() =~= pre);
            assert(pre1.last() == l[i as int]);
            lemma_prefix_sum_le(l, i + 1);
            assert(forall|j: int| 0 <= j < pre1.len() ==> 0 <= #[trigger] pre1[j] <= data@.len());
            lemma_sum_sq_le(pre1, data@.len() as int);
            lemma_prefix_sum_le(l, i as int);
            lemma_count_val_bound(pre, 0);
            assert((x as u128) * (x as u128) == (x as int) * (x as int)) by (nonlinear_arith);
            assert(seq_sum(pre1) * data@.len() as int <= (data@.len() as int) * (
            data@.len() as int)) by (nonlinear_arith)
                requires
                    seq_sum(pre1) <= data@.len() as int,
                    data@.len() as int >= 0,
            ;
            assert((data@.len() as int) * (data@.len() as int) <= u128::MAX as int)
                by (nonlinear_arith)
                requires
                    0 <= data@.len() as int <= 0xffff_ffff_ffff_ffff,
            ;
        }
        sum = sum + x;
        sum_squares = sum_squares + (x as u128) * (x as u128);
        if x == 0 {
            empty_lines = empty_lines + 1;
        }
        i = i + 1;
    }
    proof {
        assert(l.subrange(0, l.len() as int) =~= l);
    }
    if n == 0 {
        return Statistics {
            count: 0,
            sum: 0,
            sum_squares: 0,
            median_low: 0,
            median_high: 0,
            min_line_length: 0,
            max_line_length: 0,
            empty_lines: 0,
        };
    }
    let sorted = sort_lengths(&lengths);
    proof {
        l.lemma_sort_ensures();
        assert(l.sort().to_multiset().len() == l.to_multiset().len());
        assert(sorted@.len() == l.sort().len());
    }
    Statistics {
        count: n,
        sum,
        sum_squares,
        median_low: sorted[(n - 1) / 2],
        median_high: sorted[n / 2],
        min_line_length: sorted[0],
        max_line_length: sorted[n - 1],
        empty_lines,
    }
}

/// Bucket counts never exceed the list length.
proof fn lemma_count_bucket_bound(l: Seq<int>, b: int)
    ensures
        0 <= count_bucket(l, b) <= l.len(),
    decreases l.len(),
{
    if l.len() > 0 {
        lemma_count_bucket_bound(l.drop_last(), b);
    }
}

/// Histogram of record lengths: each key is a length rounded down to a
/// multiple of ten, mapped to the number of records in that bucket.
/// Absent buckets have no records.
pub fn generate_histogram(data: &[u8]) -> (r: HashMap<usize, usize>)
    ensures
        forall|b: usize|
            r@.contains_key(b) <==> count_bucket(line_lengths(data@), b as int) > 0,
        forall|b: usize|
            #[trigger] r@.contains_key(b) ==> r@[b] as int == count_bucket(
                line_lengths(data@),
                b as int,
            ),
{
    let ghost l = line_lengths(data@);
    let lengths = collect_line_lengths(data);
    proof {
        lemma_lens_bounds(data@, 0, 0);
        assert(int_view(lengths@) == l);
    }
    let mut hist: HashMap<usize, usize> = HashMap::new();
    let mut i: usize = 0;
    proof {
        assert(l.subrange(0, 0) =~= Seq::<int>::empty());
    }
    while i < lengths.len()
        invariant
            i <= lengths@.len(),
            int_view(lengths@) == l,
            forall|j: int| 0 <= j < l.len() ==> 0 <= #[trigger] l[j] <= data@.len(),
            forall|b: usize|
                hist@.contains_key(b) <==> count_bucket(l.subrange(0, i as int), b as int) > 0,
            forall|b: usize|
                #[trigger] hist@.contains_key(b) ==> hist@[b] as int == count_bucket(
                    l.subrange(0, i as int),
                    b as int,
                ),
        decreases lengths@.len() - i,
    {
        let x = lengths[i];
        let bucket = (x / 10) * 10;
        proof {
            let pre = l.subrange(0, i as int);
            let pre1 = l.subrange(0, i + 1);
            assert(pre1.drop_last() =~= pre);
            assert(pre1.last() == l[i as int]);
            assert(bucket as int == bucket_of(l[i as int]));
            lemma_count_bucket_bound(pre, bucket as int);
        }
        let cur = match hist.get(&bucket) {
            Some(c) => *c,
            None => 0,
        };
        hist.insert(bucket, cur + 1);
        proof {
            let pre1 = l.subrange(0, i + 1);
            assert forall|b: usize| hist@.contains_key(b) <==> count_bucket(
                pre1,
                b as int,
            ) > 0 by {
                if b != bucket {
                    assert(count_bucket(pre1, b as int) == count_bucket(
                        l.subrange(0, i as int),
                        b as int,
                    ));
                }
            }
        }
        i = i + 1;
    }
    proof {
        assert(l.subrange(0, l.len() as int) =~= l);
    }
    hist
}

} // verus!
