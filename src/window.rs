//! The periods seen across ledgers, and the trailing window of them that
//! charts show.

use vstd::prelude::*;
use crate::period::{Period, period_lt};
use crate::ledger::{
    Ledger, assoc, category_pairs, totals_pairs, lemma_assoc_contains, lemma_assoc_get,
};

verus! {

/// Strictly increasing in chronological order.
pub open spec fn strictly_sorted(s: Seq<Period>) -> bool {
    forall|i: int, j: int| 0 <= i < j < s.len() ==> period_lt(s[i], s[j])
}

/// Some category of the ledger has a total in `p`.
pub open spec fn ledger_has_period(l: LedgerView, p: Period) -> bool {
    exists|c: Seq<char>| #[trigger] l.contains_key(c) && l[c].contains_key(p)
}

pub type LedgerView = Map<Seq<char>, Map<Period, int>>;

/// Some ledger of `data` has a total in `p`.
pub open spec fn in_universe(data: Seq<Ledger>, p: Period) -> bool {
    exists|i: int| 0 <= i < data.len() && ledger_has_period(#[trigger] data[i]@, p)
}

/// The trailing window: the last `n` periods before the most recent one,
/// which is left out as possibly incomplete.
pub open spec fn trailing_window(s: Seq<Period>, n: nat) -> Seq<Period> {
    if s.len() == 0 {
        s
    } else {
        let m = s.len() - 1;
        s.subrange(if m > n { m - n } else { 0 }, m)
    }
}

proof fn lemma_period_lt_total(a: Period, b: Period)
    ensures
        a == b || period_lt(a, b) || period_lt(b, a),
        !(period_lt(a, b) && period_lt(b, a)),
        !period_lt(a, a),
{
}

/// Adds `p` to a strictly sorted vector unless it is there already.
fn insert_sorted(v: &mut Vec<Period>, p: Period)
    requires
        strictly_sorted(old(v)@),
    ensures
        strictly_sorted(final(v)@),
        forall|q: Period| #[trigger] final(v)@.contains(q) <==> (old(v)@.contains(q) || q == p),
{
    let n = v.len();
    let mut k: usize = 0;
    while k < n
        invariant
            k <= n,
            n == v@.len(),
            forall|a: int| 0 <= a < k ==> period_lt(v@[a], p),
        ensures
            k <= n,
            forall|a: int| 0 <= a < k ==> period_lt(v@[a], p),
            k < n ==> !period_lt(v@[k as int], p),
        decreases n - k,
    {
        if !v[k].precedes(&p) {
            break;
        }
        k = k + 1;
    }
    if k < n && v[k] == p {
        return;
    }
    let ghost old_v = v@;
    proof {
        if k < n {
            lemma_period_lt_total(v@[k as int], p);
        }
        assert forall|a: int| k <= a < n implies period_lt(p, old_v[a]) by {
            if a > k {
                assert(period_lt(old_v[k as int], old_v[a]));
            }
        }
    }
    v.insert(k, p);
    proof {
        assert forall|q: Period| v@.contains(q) <==> (old_v.contains(q) || q == p) by {
            if v@.contains(q) {
                let a = choose|a: int| 0 <= a < v@.len() && v@[a] == q;
                if a < k {
                    assert(old_v[a] == q);
                } else if a > k {
                    assert(old_v[a - 1] == q);
                }
            }
            if old_v.contains(q) {
                let a = choose|a: int| 0 <= a < old_v.len() && old_v[a] == q;
                if a < k {
                    assert(v@[a] == q);
                } else {
                    assert(v@[a + 1] == q);
                }
            }
            if q == p {
                assert(v@[k as int] == p);
            }
        }
        assert forall|i: int, j: int| 0 <= i < j < v@.len() implies period_lt(v@[i], v@[j]) by {
            if j < k {
            } else if j == k {
            } else if i < k {
                assert(period_lt(old_v[i], p));
                assert(period_lt(p, old_v[j - 1]));
                lemma_transitive(old_v[i], p, old_v[j - 1]);
            } else if i == k {
            } else {
            }
        }
    }
}

proof fn lemma_transitive(a: Period, b: Period, c: Period)
    requires
        period_lt(a, b),
        period_lt(b, c),
    ensures
        period_lt(a, c),
{
}

/// Adds every period of a ledger to a strictly sorted vector.
fn add_ledger_periods(v: &mut Vec<Period>, l: &Ledger)
    requires
        strictly_sorted(old(v)@),
        l.keys_wf(),
    ensures
        strictly_sorted(final(v)@),
        forall|q: Period| #[trigger] final(v)@.contains(q) <==> (old(v)@.contains(q) || ledger_has_period(l@, q)),
{
    let ghost v0 = v@;
    let ghost cps = category_pairs(l.categories@);
    let n = l.categories.len();
    let mut i: usize = 0;
    while i < n
        invariant
            i <= n,
            n == l.categories@.len(),
            strictly_sorted(v@),
            forall|q: Period| #[trigger] v@.contains(q) <==> (v0.contains(q) || exists|k: int, j: int|
                0 <= k < i && 0 <= j < l.categories@[k].totals@.len() && l.categories@[k].totals@[j].0 == q),
        decreases n - i,
    {
        let cat = &l.categories[i];
        let t = cat.totals.len();
        let mut j: usize = 0;
        let ghost vi = v@;
        while j < t
            invariant
                j <= t,
                t == cat.totals@.len(),
                strictly_sorted(v@),
                forall|q: Period| #[trigger] v@.contains(q) <==> (vi.contains(q) || exists|jj: int|
                    0 <= jj < j && cat.totals@[jj].0 == q),
            decreases t - j,
        {
            insert_sorted(v, cat.totals[j].0);
            proof {
                assert forall|q: Period| #[trigger] v@.contains(q) <==> (vi.contains(q) || exists|jj: int|
                    0 <= jj < j + 1 && cat.totals@[jj].0 == q) by {
                    if q == cat.totals@[j as int].0 {
                        assert(exists|jj: int| 0 <= jj < j + 1 && cat.totals@[jj].0 == q);
                    }
                    if exists|jj: int| 0 <= jj < j + 1 && cat.totals@[jj].0 == q {
                        let jj = choose|jj: int| 0 <= jj < j + 1 && cat.totals@[jj].0 == q;
                        if jj < j {
                            assert(exists|jj: int| 0 <= jj < j && cat.totals@[jj].0 == q);
                        }
                    }
                }
            }
            j = j + 1;
        }
        proof {
            assert forall|q: Period| #[trigger] v@.contains(q) <==> (v0.contains(q) || exists|k: int, jj: int|
                0 <= k < i + 1 && 0 <= jj < l.categories@[k].totals@.len() && l.categories@[k].totals@[jj].0 == q) by {
                if exists|k: int, jj: int|
                    0 <= k < i + 1 && 0 <= jj < l.categories@[k].totals@.len() && l.categories@[k].totals@[jj].0 == q {
                    let (k, jj) = choose|k: int, jj: int|
                        0 <= k < i + 1 && 0 <= jj < l.categories@[k].totals@.len() && l.categories@[k].totals@[jj].0 == q;
                    if k < i {
                        assert(exists|k: int, jj: int|
                            0 <= k < i && 0 <= jj < l.categories@[k].totals@.len() && l.categories@[k].totals@[jj].0 == q);
                    } else {
                        assert(exists|jj2: int| 0 <= jj2 < t && cat.totals@[jj2].0 == q);
                    }
                }
                if exists|jj2: int| 0 <= jj2 < t && cat.totals@[jj2].0 == q {
                    let jj2 = choose|jj2: int| 0 <= jj2 < t && cat.totals@[jj2].0 == q;
                    assert(l.categories@[i as int].totals@[jj2].0 == q);
                }
            }
        }
        i = i + 1;
    }
    proof {
        assert forall|q: Period| v@.contains(q) <==> (v0.contains(q) || ledger_has_period(l@, q)) by {
            if exists|k: int, j: int|
                0 <= k < n && 0 <= j < l.categories@[k].totals@.len() && l.categories@[k].totals@[j].0 == q {
                let (k, j) = choose|k: int, j: int|
                    0 <= k < n && 0 <= j < l.categories@[k].totals@.len() && l.categories@[k].totals@[j].0 == q;
                let cat = l.categories@[k];
                assert(cat.wf());
                lemma_assoc_get(cps, k);
                lemma_assoc_get(totals_pairs(cat.totals@), j);
                assert(l@.contains_key(cat.category@) && l@[cat.category@].contains_key(q));
            }
            if ledger_has_period(l@, q) {
                let c = choose|c: Seq<char>| #[trigger] l@.contains_key(c) && l@[c].contains_key(q);
                lemma_assoc_contains(cps, c);
                let k = choose|k: int| 0 <= k < cps.len() && cps[k].0 == c && assoc(cps)[c] == cps[k].1;
                let cat = l.categories@[k];
                assert(cat.wf());
                lemma_assoc_contains(totals_pairs(cat.totals@), q);
                let j = choose|j: int|
                    0 <= j < cat.totals@.len() && totals_pairs(cat.totals@)[j].0 == q && assoc(
                        totals_pairs(cat.totals@),
                    )[q] == totals_pairs(cat.totals@)[j].1;
                assert(l.categories@[k].totals@[j].0 == q);
            }
        }
    }
}

/// Every period that some ledger has a total in, once each, in
/// chronological order.
pub fn worksheet_data_to_periods(data: &Vec<Ledger>) -> (r: Vec<Period>)
    requires
        forall|i: int| 0 <= i < data@.len() ==> (#[trigger] data@[i]).keys_wf(),
    ensures
        strictly_sorted(r@),
        forall|p: Period| r@.contains(p) <==> in_universe(data@, p),
{
    let mut periods: Vec<Period> = Vec::new();
    let n = data.len();
    let mut i: usize = 0;
    while i < n
        invariant
            i <= n,
            n == data@.len(),
            forall|k: int| 0 <= k < data@.len() ==> (#[trigger] data@[k]).keys_wf(),
            strictly_sorted(periods@),
            forall|p: Period| #[trigger] periods@.contains(p) <==> exists|k: int|
                0 <= k < i && ledger_has_period(#[trigger] data@[k]@, p),
        decreases n - i,
    {
        let ghost before = periods@;
        add_ledger_periods(&mut periods, &data[i]);
        proof {
            assert forall|p: Period| #[trigger] periods@.contains(p) <==> exists|k: int|
                0 <= k < i + 1 && ledger_has_period(#[trigger] data@[k]@, p) by {
                assert(periods@.contains(p) <==> (before.contains(p) || ledger_has_period(
                    data@[i as int]@,
                    p,
                )));
                assert(before.contains(p) <==> exists|k: int|
                    0 <= k < i && ledger_has_period(#[trigger] data@[k]@, p));
                if exists|k: int| 0 <= k < i + 1 && ledger_has_period(#[trigger] data@[k]@, p) {
                    let k = choose|k: int| 0 <= k < i + 1 && ledger_has_period(#[trigger] data@[k]@, p);
                    if k < i {
                        assert(exists|k: int| 0 <= k < i && ledger_has_period(#[trigger] data@[k]@, p));
                    }
                }
                if ledger_has_period(data@[i as int]@, p) {
                    assert(0 <= i < i + 1 && ledger_has_period(data@[i as int]@, p));
                }
            }
        }
        i = i + 1;
    }
    periods
}

/// The trailing window of a chronologically sorted list of periods: the
/// last `n` of them before the latest one, which is always dropped.
pub fn last_n_groups(periods: Vec<Period>, n: usize) -> (r: Vec<Period>)
    requires
        strictly_sorted(periods@),
    ensures
        strictly_sorted(r@),
        periods@.len() >= 1 ==> !r@.contains(periods@.last()),
        r@ == trailing_window(periods@, n as nat),
        r@.len() == (if periods@.len() == 0 { 0 } else if periods@.len() - 1 < n {
            periods@.len() - 1
        } else {
            n as int
        }),
{
    let mut r: Vec<Period> = Vec::new();
    let len = periods.len();
    if len == 0 {
        return r;
    }
    let m = len - 1;
    let start: usize = if m > n { m - n } else { 0 };
    let mut k: usize = start;
    while k < m
        invariant
            start <= k <= m,
            m == periods@.len() - 1,
            r@ == periods@.subrange(start as int, k as int),
        decreases m - k,
    {
        r.push(periods[k]);
        assert(r@ =~= periods@.subrange(start as int, k + 1));
        k = k + 1;
    }
    proof {
        lemma_window_excludes_latest(periods@, n as nat);
    }
    r
}

/// The window never holds the most recent period of a strictly sorted
/// universe, nor any later one, and holds `min(n, len - 1)` periods (none
/// for an empty universe).
pub proof fn lemma_window_excludes_latest(u: Seq<Period>, n: nat)
    requires
        strictly_sorted(u),
    ensures
        u.len() >= 1 ==> !trailing_window(u, n).contains(u.last()),
        trailing_window(u, n).len() == (if u.len() == 0 { 0 } else if u.len() - 1 < n {
            u.len() - 1
        } else {
            n as int
        }),
{
    if u.len() >= 1 {
        let w = trailing_window(u, n);
        if w.contains(u.last()) {
            let a = choose|a: int| 0 <= a < w.len() && w[a] == u.last();
            let m = u.len() - 1;
            let start = if m > n { m - n } else { 0 };
            assert(w[a] == u[start + a]);
            assert(period_lt(u[start + a], u[m]));
            lemma_period_lt_total(u[m], u[m]);
        }
    }
}

} // verus!
