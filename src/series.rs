//! Dense per-period series of a category, and the statistics that classify
//! a series as spending or as regular spending.

use vstd::prelude::*;
use vstd::relations::sorted_by;
use crate::period::Period;
use crate::ledger::{CategoryTotals, assoc, totals_pairs, lemma_assoc_get, lemma_assoc_absent};

verus! {

/// The total of `p` in `m`, zero where there is none.
pub open spec fn total_in(m: Map<Period, int>, p: Period) -> int {
    if m.contains_key(p) { m[p] } else { 0 }
}

/// One value per period of the window, in the window's order.
pub open spec fn series_of(m: Map<Period, int>, w: Seq<Period>) -> Seq<int> {
    Seq::new(w.len(), |i: int| total_in(m, w[i]))
}

pub open spec fn ints(v: Seq<i128>) -> Seq<int> {
    v.map_values(|x: i128| x as int)
}

/// Every value fits in an `i64`.
pub open spec fn fits_i64(s: Seq<int>) -> bool {
    forall|i: int| 0 <= i < s.len() ==> -(i64::MAX as int) <= #[trigger] s[i] <= i64::MAX as int
}

pub open spec fn sum(s: Seq<int>) -> int
    decreases s.len(),
{
    if s.len() == 0 { 0 } else { sum(s.drop_last()) + s.last() }
}

pub open spec fn sorted_values(s: Seq<int>) -> Seq<int> {
    s.sort_by(|a: int, b: int| a <= b)
}

pub open spec fn trunc_half(x: int) -> int {
    if x >= 0 { x / 2 } else { -((-x) / 2) }
}

/// The median as statistical computes it on integers: the middle value of
/// the sorted values, or the sum of the two middle ones halved, truncating.
pub open spec fn integer_median(s: Seq<int>) -> int {
    let t = sorted_values(s);
    let m = (s.len() / 2) as int;
    if s.len() % 2 == 1 { t[m] } else { trunc_half(t[m] + t[m - 1]) }
}

/// Twice the median: twice the middle value, or the sum of the two middle
/// values of an even count.
pub open spec fn median2(s: Seq<int>) -> int {
    let t = sorted_values(s);
    let m = (s.len() / 2) as int;
    if s.len() % 2 == 1 { 2 * t[m] } else { t[m - 1] + t[m] }
}

/// The median is positive: over the window, the category costs money.
pub open spec fn is_spending(s: Seq<int>) -> bool {
    s.len() > 0 && median2(s) > 0
}

/// Spending whose mean and median lie within a factor of two of each other:
/// `mean < 2 * median` and `median < 2 * mean`, with `mean = sum / n` and
/// `median = median2 / 2`, multiplied out.
pub open spec fn is_regular(s: Seq<int>) -> bool {
    is_spending(s) && sum(s) < s.len() * median2(s) && s.len() * median2(s) < 4 * sum(s)
}

/// The mean of a series in whole thousands of the currency unit, truncated
/// towards zero; zero for an empty series.
pub open spec fn mean_thousands(s: Seq<int>) -> int {
    if s.len() == 0 {
        0
    } else {
        let t = sum(s);
        let d = (s.len() * 100000) as int;
        if t >= 0 { t / d } else { -((-t) / d) }
    }
}

pub open spec fn doubled(s: Seq<int>) -> Seq<int> {
    s.map_values(|x: int| 2 * x)
}

/// Relies on `statistical::median`: it sorts a copy of the values and
/// returns the middle one, or for an even count the two middle ones added
/// and divided by two (an integer division for integers).
#[verifier::external_body]
fn median_of(v: &Vec<i128>) -> (r: i128)
    requires
        v@.len() > 0,
        forall|i: int| 0 <= i < v@.len() ==> -0x2000_0000_0000_0000_0000_0000_0000_0000 <= #[trigger] v@[i]
            <= 0x2000_0000_0000_0000_0000_0000_0000_0000,
    ensures
        r as int == integer_median(ints(v@)),
{
    statistical::median(v.as_slice())
}

proof fn lemma_doubled_multiset(s1: Seq<int>, s2: Seq<int>)
    requires
        s1.to_multiset() == s2.to_multiset(),
    ensures
        doubled(s1).to_multiset() == doubled(s2).to_multiset(),
    decreases s1.len(),
{
    broadcast use vstd::seq_lib::group_to_multiset_ensures;
    broadcast use vstd::multiset::group_multiset_axioms;

    if s1.len() == 0 {
        assert(s1.to_multiset().len() == 0);
        assert(s2.len() == 0);
        assert(doubled(s1) =~= doubled(s2));
    } else {
        let k = s1.len() - 1;
        let x = s1[k];
        assert(s1.to_multiset().contains(x));
        assert(s2.contains(x));
        let j = choose|j: int| 0 <= j < s2.len() && s2[j] == x;
        lemma_doubled_multiset(s1.remove(k), s2.remove(j));
        assert(doubled(s1.remove(k)) =~= doubled(s1).remove(k));
        assert(doubled(s2.remove(j)) =~= doubled(s2).remove(j));
        let m1 = doubled(s1).to_multiset();
        let m2 = doubled(s2).to_multiset();
        assert(m1.remove(2 * x) == m2.remove(2 * x));
        assert(doubled(s1)[k] == 2 * x);
        assert(doubled(s2)[j] == 2 * x);
        assert(m1.contains(2 * x));
        assert(m2.contains(2 * x));
        assert(m1 =~= m2) by {
            assert forall|y: int| m1.count(y) == m2.count(y) by {
                assert(m1.remove(2 * x).count(y) == m2.remove(2 * x).count(y));
            }
        }
    }
}

proof fn lemma_sorted_doubled(s: Seq<int>)
    ensures
        sorted_values(doubled(s)) == doubled(sorted_values(s)),
{
    let leq = |a: int, b: int| a <= b;
    s.lemma_sort_by_ensures(leq);
    doubled(s).lemma_sort_by_ensures(leq);
    let t = sorted_values(s);
    lemma_doubled_multiset(t, s);
    assert(sorted_by(doubled(t), leq)) by {
        assert forall|i: int, j: int| 0 <= i < j < doubled(t).len() implies #[trigger] leq(
            doubled(t)[i],
            doubled(t)[j],
        ) by {
            assert(leq(t[i], t[j]));
        }
    }
    vstd::seq_lib::lemma_sorted_unique(sorted_values(doubled(s)), doubled(t), leq);
}

/// Twice the median of `values`.
fn median2_of(values: &Vec<i128>) -> (r: i128)
    requires
        values@.len() > 0,
        fits_i64(ints(values@)),
    ensures
        r as int == median2(ints(values@)),
        -2 * (i64::MAX as int) <= r <= 2 * (i64::MAX as int),
{
    let mut d: Vec<i128> = Vec::new();
    let n = values.len();
    let mut i: usize = 0;
    while i < n
        invariant
            i <= n,
            n == values@.len(),
            fits_i64(ints(values@)),
            ints(d@) == doubled(ints(values@)).subrange(0, i as int),
        decreases n - i,
    {
        assert(-(i64::MAX as int) <= ints(values@)[i as int] <= i64::MAX as int);
        assert(doubled(ints(values@))[i as int] == 2 * (values@[i as int] as int));
        let ghost d0 = d@;
        d.push(2 * values[i]);
        assert(ints(d@) =~= ints(d0).push(2 * (values@[i as int] as int)));
        assert(ints(d@) =~= doubled(ints(values@)).subrange(0, i + 1));
        i = i + 1;
    }
    let ghost s = ints(values@);
    assert(ints(d@) =~= doubled(s));
    let ghost leq = |a: int, b: int| a <= b;
    proof {
        broadcast use vstd::seq_lib::group_to_multiset_ensures;

        s.lemma_sort_by_ensures(leq);
        lemma_sorted_doubled(s);
        assert forall|k: int| 0 <= k < sorted_values(s).len() implies -(i64::MAX as int)
            <= #[trigger] sorted_values(s)[k] <= i64::MAX as int by {
            assert(sorted_values(s).to_multiset().contains(sorted_values(s)[k]));
            assert(s.to_multiset().contains(sorted_values(s)[k]));
            assert(s.contains(sorted_values(s)[k]));
        }
        assert forall|k: int| 0 <= k < d@.len() implies -0x2000_0000_0000_0000_0000_0000_0000_0000
            <= #[trigger] d@[k] <= 0x2000_0000_0000_0000_0000_0000_0000_0000 by {
            assert(ints(d@)[k] == 2 * s[k]);
            assert(-(i64::MAX as int) <= s[k] <= i64::MAX as int);
        }
    }
    let r = median_of(&d);
    proof {
        broadcast use vstd::seq_lib::group_to_multiset_ensures;

        let t = sorted_values(s);
        assert(t.to_multiset().len() == s.to_multiset().len());
        assert(t.len() == s.len());
        let m = (s.len() / 2) as int;
        assert(sorted_values(ints(d@)) == doubled(t));
        if s.len() % 2 == 1 {
            assert(-(i64::MAX as int) <= t[m] <= i64::MAX as int);
        } else {
            let x = t[m] + t[m - 1];
            assert(-(i64::MAX as int) <= t[m] <= i64::MAX as int);
            assert(-(i64::MAX as int) <= t[m - 1] <= i64::MAX as int);
            assert(doubled(t)[m] + doubled(t)[m - 1] == 2 * x);
            assert(trunc_half(2 * x) == x);
        }
    }
    r
}

/// Whether the series is spending: its median is positive. An empty series
/// has no median and is not spending.
pub fn is_spending_category(values: &Vec<i128>) -> (r: bool)
    requires
        fits_i64(ints(values@)),
    ensures
        r == is_spending(ints(values@)),
{
    if values.len() == 0 {
        return false;
    }
    median2_of(values) > 0
}

/// The sum of the series.
fn sum_of(values: &Vec<i128>) -> (r: i128)
    requires
        fits_i64(ints(values@)),
    ensures
        r as int == sum(ints(values@)),
        -(values@.len() * (i64::MAX as int)) <= r <= values@.len() * (i64::MAX as int),
{
    let n = values.len();
    let mut t: i128 = 0;
    let mut i: usize = 0;
    while i < n
        invariant
            i <= n,
            n == values@.len(),
            fits_i64(ints(values@)),
            t as int == sum(ints(values@).subrange(0, i as int)),
            -(i * (i64::MAX as int)) <= t <= i * (i64::MAX as int),
        decreases n - i,
    {
        assert(-(i64::MAX as int) <= ints(values@)[i as int] <= i64::MAX as int);
        assert(ints(values@).subrange(0, i + 1).drop_last() =~= ints(values@).subrange(0, i as int));
        assert((i + 1) * (i64::MAX as int) == i * (i64::MAX as int) + i64::MAX as int) by (nonlinear_arith);
        assert((i + 1) * (i64::MAX as int) <= usize::MAX * (i64::MAX as int)) by (nonlinear_arith)
            requires i + 1 <= usize::MAX;
        assert(usize::MAX * (i64::MAX as int) < i128::MAX) by (nonlinear_arith)
            requires usize::MAX <= u64::MAX;
        t = t + values[i];
        i = i + 1;
    }
    assert(ints(values@).subrange(0, n as int) =~= ints(values@));
    t
}

/// Whether the series is regular spending: spending, with mean and median
/// within a factor of two of each other in both directions.
pub fn is_regular_category(values: &Vec<i128>) -> (r: bool)
    requires
        fits_i64(ints(values@)),
    ensures
        r == is_regular(ints(values@)),
{
    if values.len() == 0 {
        return false;
    }
    let m2 = median2_of(values);
    if m2 <= 0 {
        return false;
    }
    let s = sum_of(values);
    let n = values.len();
    assert((n as int) * (m2 as int) <= u64::MAX * (2 * (i64::MAX as int))) by (nonlinear_arith)
        requires
            0 <= n <= u64::MAX,
            0 < m2 <= 2 * (i64::MAX as int),
    ;
    let nm: u128 = (n as u128) * (m2 as u128);
    let below_twice_median = if s <= 0 {
        assert((n as int) * (m2 as int) > 0) by (nonlinear_arith)
            requires n > 0, m2 > 0;
        true
    } else {
        (s as u128) < nm
    };
    if !below_twice_median {
        return false;
    }
    if s <= 0 {
        return false;
    }
    if s >= 0x4000_0000_0000_0000_0000_0000_0000_0000 {
        return true;
    }
    nm < 4 * (s as u128)
}

/// The mean of the series in whole thousands of the currency unit,
/// truncated towards zero; zero for an empty series.
pub fn mean_in_thousands(values: &Vec<i128>) -> (r: i64)
    requires
        fits_i64(ints(values@)),
    ensures
        r as int == mean_thousands(ints(values@)),
{
    let n = values.len();
    if n == 0 {
        return 0;
    }
    let s = sum_of(values);
    assert((n as int) * 100000 <= u64::MAX * 100000) by (nonlinear_arith) requires n <= u64::MAX;
    let d: u128 = (n as u128) * 100000;
    if s >= 0 {
        let q = (s as u128) / d;
        assert(q <= i64::MAX) by (nonlinear_arith)
            requires
                q == (s as int) / (d as int),
                s <= (n as int) * (i64::MAX as int),
                d == (n as int) * 100000,
                n > 0,
                s >= 0,
        ;
        q as i64
    } else {
        let q = ((-s) as u128) / d;
        assert(q <= i64::MAX) by (nonlinear_arith)
            requires
                q == (-(s as int)) / (d as int),
                -(s as int) <= (n as int) * (i64::MAX as int),
                d == (n as int) * 100000,
                n > 0,
        ;
        -(q as i64)
    }
}

/// The category's totals over the window, zero where it has none.
pub fn y(by_cat: &CategoryTotals, periods: &Vec<Period>) -> (r: Vec<i128>)
    requires
        by_cat.wf(),
    ensures
        ints(r@) == series_of(by_cat.view_totals(), periods@),
        r@.len() == periods@.len(),
{
    let ghost tps = totals_pairs(by_cat.totals@);
    let mut r: Vec<i128> = Vec::new();
    let n = periods.len();
    let mut i: usize = 0;
    while i < n
        invariant
            i <= n,
            n == periods@.len(),
            by_cat.wf(),
            tps == totals_pairs(by_cat.totals@),
            ints(r@) == series_of(by_cat.view_totals(), periods@).subrange(0, i as int),
        decreases n - i,
    {
        let p = periods[i];
        let t = by_cat.totals.len();
        let mut j: usize = 0;
        let mut v: i128 = 0;
        while j < t
            invariant
                j <= t,
                t == by_cat.totals@.len(),
                forall|k: int| 0 <= k < j ==> by_cat.totals@[k].0 != p,
            ensures
                j <= t,
                forall|k: int| 0 <= k < j ==> by_cat.totals@[k].0 != p,
                j < t ==> by_cat.totals@[j as int].0 == p,
            decreases t - j,
        {
            if by_cat.totals[j].0 == p {
                break;
            }
            j = j + 1;
        }
        if j < t {
            v = by_cat.totals[j].1;
            proof {
                assert(tps[j as int] == (by_cat.totals@[j as int].0, by_cat.totals@[j as int].1 as int));
                lemma_assoc_get(tps, j as int);
            }
        } else {
            proof {
                assert forall|k: int| 0 <= k < tps.len() implies tps[k].0 != p by {
                    assert(tps[k].0 == by_cat.totals@[k].0);
                }
                lemma_assoc_absent(tps, p);
            }
        }
        assert(v as int == total_in(by_cat.view_totals(), periods@[i as int]));
        let ghost r0 = r@;
        r.push(v);
        assert(ints(r@) =~= ints(r0).push(v as int));
        assert(ints(r@) =~= series_of(by_cat.view_totals(), periods@).subrange(0, i + 1));
        i = i + 1;
    }
    assert(series_of(by_cat.view_totals(), periods@).subrange(0, n as int) =~= series_of(
        by_cat.view_totals(),
        periods@,
    ));
    r
}

/// A regular series is a spending one.
pub proof fn lemma_regular_is_spending(s: Seq<int>)
    ensures
        is_regular(s) ==> is_spending(s),
{
}

/// A materialized series has one value per period of the window, and the
/// value of a period in which the category has no total is zero.
pub proof fn lemma_series_zero_filled(m: Map<Period, int>, w: Seq<Period>)
    ensures
        series_of(m, w).len() == w.len(),
        forall|i: int| 0 <= i < w.len() && !m.contains_key(w[i]) ==> #[trigger] series_of(m, w)[i] == 0,
        forall|i: int| 0 <= i < w.len() && m.contains_key(w[i]) ==> #[trigger] series_of(m, w)[i] == m[w[i]],
{
}

} // verus!
