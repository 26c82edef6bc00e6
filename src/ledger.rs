//! Per-category, per-period totals of one worksheet, and the fold that
//! builds them from transactions.

use vstd::prelude::*;
use crate::period::Period;
use crate::text::{
    text_lt, text_less, lemma_text_lt_irreflexive, lemma_text_lt_transitive, lemma_text_lt_total,
};

verus! {

/// What a ledger holds: category, then period, to the signed total
/// (spending positive, income negative).
pub type LedgerMap = Map<Seq<char>, Map<Period, int>>;

/// A transaction as the ledger sees it: category, period and signed amount.
pub type Entry = (Seq<char>, Period, int);

/// The map of a list of key/value pairs, a later pair winning.
pub open spec fn assoc<K, V>(s: Seq<(K, V)>) -> Map<K, V>
    decreases s.len(),
{
    if s.len() == 0 {
        Map::empty()
    } else {
        assoc(s.drop_last()).insert(s.last().0, s.last().1)
    }
}

pub open spec fn keys_unique<K, V>(s: Seq<(K, V)>) -> bool {
    forall|i: int, j: int| 0 <= i < j < s.len() ==> s[i].0 != s[j].0
}

/// `m` after adding `a` to the total of category `c` in period `p`, a
/// missing total counting as zero.
pub open spec fn add_entry(m: LedgerMap, c: Seq<char>, p: Period, a: int) -> LedgerMap {
    let inner = if m.contains_key(c) { m[c] } else { Map::empty() };
    let cur = if inner.contains_key(p) { inner[p] } else { 0 };
    m.insert(c, inner.insert(p, cur + a))
}

/// The ledger of a sequence of transactions: one left-to-right fold.
pub open spec fn ledger_of(txs: Seq<Entry>) -> LedgerMap
    decreases txs.len(),
{
    if txs.len() == 0 {
        Map::empty()
    } else {
        let t = txs.last();
        add_entry(ledger_of(txs.drop_last()), t.0, t.1, t.2)
    }
}

/// Every total of the ledger has a magnitude of at most `b`.
pub open spec fn totals_bounded(m: LedgerMap, b: int) -> bool {
    forall|c: Seq<char>, p: Period| #[trigger] m.contains_key(c) && #[trigger] m[c].contains_key(p)
        ==> -b <= m[c][p] <= b
}

pub proof fn lemma_assoc_get<K, V>(s: Seq<(K, V)>, i: int)
    requires
        keys_unique(s),
        0 <= i < s.len(),
    ensures
        assoc(s).contains_key(s[i].0),
        assoc(s)[s[i].0] == s[i].1,
    decreases s.len(),
{
    if i < s.len() - 1 {
        lemma_assoc_get(s.drop_last(), i);
    }
}

pub proof fn lemma_assoc_absent<K, V>(s: Seq<(K, V)>, k: K)
    requires
        forall|i: int| 0 <= i < s.len() ==> s[i].0 != k,
    ensures
        !assoc(s).contains_key(k),
    decreases s.len(),
{
    if s.len() > 0 {
        lemma_assoc_absent(s.drop_last(), k);
    }
}

pub proof fn lemma_assoc_contains<K, V>(s: Seq<(K, V)>, k: K)
    requires
        keys_unique(s),
        assoc(s).contains_key(k),
    ensures
        exists|i: int| 0 <= i < s.len() && s[i].0 == k && assoc(s)[k] == s[i].1,
    decreases s.len(),
{
    if s.last().0 == k {
        lemma_assoc_get(s, s.len() - 1);
    } else {
        lemma_assoc_contains(s.drop_last(), k);
        let i = choose|i: int| 0 <= i < s.len() - 1 && s.drop_last()[i].0 == k && assoc(
            s.drop_last(),
        )[k] == s.drop_last()[i].1;
        assert(s[i].0 == k);
    }
}

pub proof fn lemma_assoc_push<K, V>(s: Seq<(K, V)>, e: (K, V))
    ensures
        assoc(s.push(e)) == assoc(s).insert(e.0, e.1),
{
    assert(s.push(e).drop_last() =~= s);
}

pub proof fn lemma_assoc_update<K, V>(s: Seq<(K, V)>, i: int, v: V)
    requires
        keys_unique(s),
        0 <= i < s.len(),
    ensures
        assoc(s.update(i, (s[i].0, v))) == assoc(s).insert(s[i].0, v),
    decreases s.len(),
{
    let t = s.update(i, (s[i].0, v));
    if i == s.len() - 1 {
        assert(t.drop_last() =~= s.drop_last());
        assert(assoc(t) =~= assoc(s).insert(s[i].0, v));
    } else {
        assert(t.drop_last() =~= s.drop_last().update(i, (s[i].0, v)));
        lemma_assoc_update(s.drop_last(), i, v);
        assert(assoc(t) =~= assoc(s).insert(s[i].0, v));
    }
}

proof fn lemma_add_entry_commutes(m: LedgerMap, x: Entry, y: Entry)
    ensures
        add_entry(add_entry(m, x.0, x.1, x.2), y.0, y.1, y.2) == add_entry(
            add_entry(m, y.0, y.1, y.2),
            x.0,
            x.1,
            x.2,
        ),
{
    let l = add_entry(add_entry(m, x.0, x.1, x.2), y.0, y.1, y.2);
    let r = add_entry(add_entry(m, y.0, y.1, y.2), x.0, x.1, x.2);
    if x.0 == y.0 {
        assert(l[x.0] =~= r[x.0]);
    }
    assert(l =~= r);
}

/// Folding a sequence equals folding it without its `j`-th transaction and
/// adding that one last.
proof fn lemma_ledger_of_remove(txs: Seq<Entry>, j: int)
    requires
        0 <= j < txs.len(),
    ensures
        ledger_of(txs) == add_entry(ledger_of(txs.remove(j)), txs[j].0, txs[j].1, txs[j].2),
    decreases txs.len(),
{
    if j == txs.len() - 1 {
        assert(txs.remove(j) =~= txs.drop_last());
    } else {
        let rest = txs.drop_last();
        lemma_ledger_of_remove(rest, j);
        assert(txs.remove(j).drop_last() =~= rest.remove(j));
        assert(txs.remove(j).last() == txs.last());
        lemma_add_entry_commutes(ledger_of(rest.remove(j)), txs[j], txs.last());
    }
}

/// The ledger does not depend on the order of the transactions: any
/// permutation of them folds to the same ledger.
pub proof fn lemma_ledger_order_independent(s: Seq<Entry>, t: Seq<Entry>)
    requires
        s.to_multiset() == t.to_multiset(),
    ensures
        ledger_of(s) == ledger_of(t),
    decreases s.len(),
{
    broadcast use vstd::seq_lib::group_to_multiset_ensures;

    if s.len() == 0 {
        assert(t.to_multiset().len() == 0);
        assert(t.len() == 0);
    } else {
        let x = s.last();
        assert(s.to_multiset().contains(x)) by {
            assert(s.contains(x)) by {
                assert(s[s.len() - 1] == x);
            }
        }
        assert(t.contains(x));
        let j = choose|j: int| 0 <= j < t.len() && t[j] == x;
        assert(s.drop_last() =~= s.remove(s.len() - 1));
        assert(s.drop_last().to_multiset() == s.to_multiset().remove(x));
        assert(t.remove(j).to_multiset() == t.to_multiset().remove(x));
        lemma_ledger_order_independent(s.drop_last(), t.remove(j));
        lemma_ledger_of_remove(t, j);
    }
}

/// The totals of one category, one pair per period that it has a total in.
pub struct CategoryTotals {
    pub category: String,
    pub totals: Vec<(Period, i128)>,
}

pub open spec fn totals_pairs(s: Seq<(Period, i128)>) -> Seq<(Period, int)> {
    s.map_values(|e: (Period, i128)| (e.0, e.1 as int))
}

impl CategoryTotals {
    pub open spec fn view_totals(self) -> Map<Period, int> {
        assoc(totals_pairs(self.totals@))
    }

    pub open spec fn wf(self) -> bool {
        keys_unique(totals_pairs(self.totals@))
    }
}

/// Category names strictly ascend in character-code order.
pub open spec fn names_sorted(s: Seq<CategoryTotals>) -> bool {
    forall|i: int, j: int| 0 <= i < j < s.len() ==> text_lt(#[trigger] s[i].category@, #[trigger] s[j].category@)
}

pub proof fn lemma_assoc_insert<K, V>(s: Seq<(K, V)>, i: int, e: (K, V))
    requires
        keys_unique(s),
        0 <= i <= s.len(),
        forall|k: int| 0 <= k < s.len() ==> s[k].0 != e.0,
    ensures
        assoc(s.insert(i, e)) == assoc(s).insert(e.0, e.1),
        keys_unique(s.insert(i, e)),
    decreases s.len(),
{
    let t = s.insert(i, e);
    if i == s.len() {
        assert(t =~= s.push(e));
        lemma_assoc_push(s, e);
    } else {
        assert(t.drop_last() =~= s.drop_last().insert(i, e));
        lemma_assoc_insert(s.drop_last(), i, e);
        assert(assoc(t) =~= assoc(s).insert(e.0, e.1));
    }
    assert forall|a: int, b: int| 0 <= a < b < t.len() implies t[a].0 != t[b].0 by {
        if a < i && b > i {
            assert(t[b] == s[b - 1]);
        } else if a > i {
            assert(t[a] == s[a - 1] && t[b] == s[b - 1]);
        }
    }
}

/// Totals by category and period of one worksheet.
pub struct Ledger {
    pub categories: Vec<CategoryTotals>,
}

pub open spec fn category_pairs(s: Seq<CategoryTotals>) -> Seq<(Seq<char>, Map<Period, int>)> {
    s.map_values(|c: CategoryTotals| (c.category@, c.view_totals()))
}

impl View for Ledger {
    type V = LedgerMap;

    open spec fn view(&self) -> LedgerMap {
        assoc(category_pairs(self.categories@))
    }
}

impl Ledger {
    /// Categories are in strictly ascending order of name, and periods are
    /// unique within a category.
    pub open spec fn keys_wf(&self) -> bool {
        &&& keys_unique(category_pairs(self.categories@))
        &&& names_sorted(self.categories@)
        &&& forall|i: int| 0 <= i < self.categories@.len() ==> (#[trigger] self.categories@[i]).wf()
    }

    /// Unique keys, and every total fits in an `i64`.
    pub open spec fn wf(&self) -> bool {
        &&& self.keys_wf()
        &&& totals_bounded(self@, i64::MAX as int)
    }

    pub fn new() -> (r: Ledger)
        ensures
            r@ == Map::<Seq<char>, Map<Period, int>>::empty(),
            r.wf(),
    {
        let r = Ledger { categories: Vec::new() };
        assert(category_pairs(r.categories@) =~= Seq::empty());
        r
    }

    /// Adds `amount` to the total of `category` in `period`.
    pub fn add(&mut self, category: String, period: Period, amount: i128)
        requires
            old(self).keys_wf(),
            -(i64::MAX as int) - 1 <= amount <= i64::MAX as int + 1,
            totals_bounded(old(self)@, i128::MAX - (i64::MAX as int + 1)),
        ensures
            final(self).keys_wf(),
            final(self)@ == add_entry(old(self)@, category@, period, amount as int),
    {
        let ghost m = self@;
        let n = self.categories.len();
        let mut i: usize = 0;
        while i < n
            invariant
                i <= n,
                n == self.categories@.len(),
                self@ == m,
                forall|k: int| 0 <= k < i ==> text_lt(self.categories@[k].category@, category@),
            ensures
                i <= n,
                self@ == m,
                i < n ==> !text_lt(self.categories@[i as int].category@, category@),
                forall|k: int| 0 <= k < i ==> text_lt(self.categories@[k].category@, category@),
            decreases n - i,
        {
            if !text_less(self.categories[i].category.as_str(), category.as_str()) {
                break;
            }
            i = i + 1;
        }
        let found = i < n && self.categories[i].category == category;
        proof {
            assert(self.keys_wf());
        }
        if found {
            let ghost cps = category_pairs(self.categories@);
            proof {
                lemma_assoc_get(cps, i as int);
            }
            let mut cat = self.categories.remove(i);
            assert(cat.wf());
            let t = cat.totals.len();
            let mut j: usize = 0;
            while j < t
                invariant
                    j <= t,
                    t == cat.totals@.len(),
                    forall|k: int| 0 <= k < j ==> cat.totals@[k].0 != period,
                ensures
                    j <= t,
                    j < t ==> cat.totals@[j as int].0 == period,
                    forall|k: int| 0 <= k < j ==> cat.totals@[k].0 != period,
                decreases t - j,
            {
                if cat.totals[j].0 == period {
                    break;
                }
                j = j + 1;
            }
            let ghost tps = totals_pairs(cat.totals@);
            let ghost old_cat_view = cat.view_totals();
            if j < t {
                proof {
                    lemma_assoc_get(tps, j as int);
                    assert(-(i128::MAX - (i64::MAX as int + 1)) <= cat.totals@[j as int].1 <= i128::MAX
                        - (i64::MAX as int + 1));
                }
                let v = cat.totals[j].1;
                cat.totals.set(j, (period, v + amount));
                proof {
                    assert(totals_pairs(cat.totals@) =~= tps.update(j as int, (period, v + amount)));
                    lemma_assoc_update(tps, j as int, (v + amount) as int);
                    assert(keys_unique(totals_pairs(cat.totals@)));
                }
            } else {
                cat.totals.push((period, amount));
                proof {
                    assert(totals_pairs(cat.totals@) =~= tps.push((period, amount as int)));
                    lemma_assoc_push(tps, (period, amount as int));
                    lemma_assoc_absent(tps, period);
                    assert(keys_unique(totals_pairs(cat.totals@)));
                }
            }
            assert(cat.wf());
            let ghost cat_view = cat.view_totals();
            self.categories.insert(i, cat);
            proof {
                assert(category_pairs(self.categories@) =~= cps.update(i as int, (category@, cat_view)));
                lemma_assoc_update(cps, i as int, cat_view);
                assert(cat_view =~= add_entry(m, category@, period, amount as int)[category@]);
                assert(self@ =~= add_entry(m, category@, period, amount as int));
            }
        } else {
            let ghost cps = category_pairs(self.categories@);
            let ghost cs = self.categories@;
            let mut totals: Vec<(Period, i128)> = Vec::new();
            totals.push((period, amount));
            let cat = CategoryTotals { category, totals };
            proof {
                assert forall|k: int| 0 <= k < n implies #[trigger] cs[k].category@ != cat.category@
                    && (k >= i ==> text_lt(cat.category@, cs[k].category@)) by {
                    if k < i {
                        lemma_text_lt_irreflexive(cat.category@);
                    } else {
                        lemma_text_lt_total(cs[i as int].category@, cat.category@);
                        if k > i {
                            lemma_text_lt_transitive(cat.category@, cs[i as int].category@, cs[k].category@);
                        }
                        lemma_text_lt_irreflexive(cat.category@);
                    }
                }
                assert forall|k: int| 0 <= k < cps.len() implies cps[k].0 != cat.category@ by {
                    assert(cps[k].0 == cs[k].category@);
                }
                assert(totals_pairs(cat.totals@) =~= seq![(period, amount as int)]);
                assert(seq![(period, amount as int)] =~= Seq::<(Period, int)>::empty().push(
                    (period, amount as int),
                ));
                lemma_assoc_push(Seq::<(Period, int)>::empty(), (period, amount as int));
                assert(assoc(Seq::<(Period, int)>::empty()) =~= Map::<Period, int>::empty());
                lemma_assoc_absent(cps, category@);
            }
            self.categories.insert(i, cat);
            proof {
                assert(category_pairs(self.categories@) =~= cps.insert(i as int, (cat.category@, cat.view_totals())));
                lemma_assoc_insert(cps, i as int, (cat.category@, cat.view_totals()));
                assert(cat.view_totals() =~= add_entry(m, category@, period, amount as int)[category@]);
                assert(self@ =~= add_entry(m, category@, period, amount as int));
                let t = self.categories@;
                assert forall|a: int, b: int| 0 <= a < b < t.len() implies text_lt(
                    #[trigger] t[a].category@,
                    #[trigger] t[b].category@,
                ) by {
                    if b < i {
                    } else if b == i {
                    } else if a < i {
                        assert(t[b] == cs[b - 1]);
                        lemma_text_lt_transitive(t[a].category@, cat.category@, t[b].category@);
                    } else if a == i {
                        assert(t[b] == cs[b - 1]);
                    } else {
                        assert(t[a] == cs[a - 1] && t[b] == cs[b - 1]);
                    }
                }
                assert forall|k: int| 0 <= k < t.len() implies (#[trigger] t[k]).wf() by {
                    if k > i {
                        assert(t[k] == cs[k - 1]);
                    }
                }
            }
        }
    }
}

impl Ledger {
    /// Whether every total fits in an `i64`.
    pub fn fits_i64(&self) -> (r: bool)
        requires
            self.keys_wf(),
        ensures
            r == totals_bounded(self@, i64::MAX as int),
    {
        let ghost cps = category_pairs(self.categories@);
        let n = self.categories.len();
        let mut i: usize = 0;
        while i < n
            invariant
                i <= n,
                n == self.categories@.len(),
                cps == category_pairs(self.categories@),
                self.keys_wf(),
                forall|k: int, j: int|
                    0 <= k < i && 0 <= j < self.categories@[k].totals@.len() ==> -(i64::MAX as int)
                        <= #[trigger] self.categories@[k].totals@[j].1 <= i64::MAX as int,
            decreases n - i,
        {
            let cat = &self.categories[i];
            let t = cat.totals.len();
            let mut j: usize = 0;
            while j < t
                invariant
                    j <= t,
                    t == cat.totals@.len(),
                    i < n,
                    n == self.categories@.len(),
                    cat == self.categories@[i as int],
                    cps == category_pairs(self.categories@),
                    self.keys_wf(),
                    forall|l: int|
                        0 <= l < j ==> -(i64::MAX as int) <= #[trigger] cat.totals@[l].1
                            <= i64::MAX as int,
                decreases t - j,
            {
                let v = cat.totals[j].1;
                if v > i64::MAX as i128 || v < -(i64::MAX as i128) {
                    proof {
                        lemma_assoc_get(cps, i as int);
                        assert(cat.wf());
                        lemma_assoc_get(totals_pairs(cat.totals@), j as int);
                        let c = cat.category@;
                        let p = cat.totals@[j as int].0;
                        assert(self@.contains_key(c) && self@[c].contains_key(p));
                    }
                    return false;
                }
                j = j + 1;
            }
            i = i + 1;
        }
        proof {
            assert forall|c: Seq<char>, p: Period|
                #[trigger] self@.contains_key(c) && #[trigger] self@[c].contains_key(p) implies
                -(i64::MAX as int) <= self@[c][p] <= i64::MAX as int by {
                lemma_assoc_contains(cps, c);
                let k = choose|k: int| 0 <= k < cps.len() && cps[k].0 == c && assoc(cps)[c] == cps[k].1;
                let cat = self.categories@[k];
                assert(cat.wf());
                lemma_assoc_contains(totals_pairs(cat.totals@), p);
                let j = choose|j: int|
                    0 <= j < cat.totals@.len() && totals_pairs(cat.totals@)[j].0 == p && assoc(
                        totals_pairs(cat.totals@),
                    )[p] == totals_pairs(cat.totals@)[j].1;
                assert(-(i64::MAX as int) <= cat.totals@[j].1 <= i64::MAX as int);
            }
        }
        true
    }
}

/// Adding `a` to a ledger whose totals are bounded by `b` leaves them
/// bounded by `b + |a|`.
pub proof fn lemma_add_entry_bounded(m: LedgerMap, c: Seq<char>, p: Period, a: int, b: int)
    requires
        totals_bounded(m, b),
        b >= 0,
    ensures
        totals_bounded(add_entry(m, c, p, a), b + (if a < 0 { -a } else { a })),
{
    let r = add_entry(m, c, p, a);
    let bb = b + (if a < 0 { -a } else { a });
    assert forall|c2: Seq<char>, p2: Period|
        #[trigger] r.contains_key(c2) && #[trigger] r[c2].contains_key(p2) implies -bb <= r[c2][p2]
        <= bb by {
        if c2 == c && p2 != p {
            assert(m.contains_key(c) && m[c].contains_key(p2));
        } else if c2 != c {
            assert(m.contains_key(c2) && m[c2].contains_key(p2));
        } else if m.contains_key(c) && m[c].contains_key(p) {
            assert(-b <= m[c][p] <= b);
        }
    }
}

pub proof fn lemma_bounded_weaken(m: LedgerMap, b1: int, b2: int)
    requires
        totals_bounded(m, b1),
        b1 <= b2,
    ensures
        totals_bounded(m, b2),
{
}

} // verus!
