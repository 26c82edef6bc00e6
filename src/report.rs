//! Chart requests: the categories that a report variant shows, their
//! labels, and the total series, for every worksheet.

use vstd::prelude::*;
use crate::period::{GroupBy, Period, group_by, group_named};
use crate::ledger::{
    CategoryTotals, Ledger, LedgerMap, category_pairs, lemma_assoc_get, names_sorted,
};
use crate::text::text_lt;
use crate::series::{
    ints, fits_i64, series_of, is_spending, is_regular, mean_thousands, y,
    is_spending_category, is_regular_category, mean_in_thousands,
};
use crate::sheet::{MyCustomError, Worksheet, read_worksheet, sheet_ledger};
use crate::text::{decimal, escape_spaces, fix_label, push_decimal};
use crate::window::{
    in_universe, strictly_sorted, trailing_window, worksheet_data_to_periods, last_n_groups,
};

verus! {

/// The number of periods that a chart shows unless told otherwise.
pub const MAX_PERIODS: usize = 12;

/// Which categories a chart shows.
#[derive(Clone, Copy, Debug, PartialEq, Eq, Structural)]
pub enum Variant {
    /// Every category whose median is positive.
    AllSpendings,
    /// Every spending category whose mean and median are within a factor
    /// of two of each other.
    RegularSpendings,
}

#[derive(Clone, Copy, Debug, PartialEq, Eq, Structural)]
pub enum LineStyle {
    Solid,
    LongDashDot,
}

/// One line of a chart: a value per period of the chart's axis.
pub struct Series {
    pub label: String,
    pub values: Vec<i128>,
    pub style: LineStyle,
}

/// What a renderer draws: a title, the periods of the horizontal axis and
/// the lines.
pub struct ChartRequest {
    pub title: String,
    pub x_axis: Vec<Period>,
    pub series: Vec<Series>,
}

pub open spec fn title_of(v: Variant) -> Seq<char> {
    match v {
        Variant::AllSpendings => seq!['A', 'l', 'l', ' ', 's', 'p', 'e', 'n', 'd', 'i', 'n', 'g', 's'],
        Variant::RegularSpendings => seq![
            'R', 'e', 'g', 'u', 'l', 'a', 'r', ' ', 's', 'p', 'e', 'n', 'd', 'i', 'n', 'g', 's'
        ],
    }
}

pub open spec fn total_label() -> Seq<char> {
    seq!['T', 'o', 't', 'a', 'l']
}

pub open spec fn accepts(v: Variant, s: Seq<int>) -> bool {
    match v {
        Variant::AllSpendings => is_spending(s),
        Variant::RegularSpendings => is_regular(s),
    }
}

/// `{category} (avg: {mean}k)`.
pub open spec fn category_label(c: Seq<char>, s: Seq<int>) -> Seq<char> {
    c + seq![' ', '(', 'a', 'v', 'g', ':', ' '] + decimal(mean_thousands(s)) + seq!['k', ')']
}

/// The series, over window `w`, of the categories that variant `v` shows,
/// in the order of the categories.
pub open spec fn selected(cats: Seq<CategoryTotals>, w: Seq<Period>, v: Variant) -> Seq<
    (Seq<char>, Seq<int>),
>
    decreases cats.len(),
{
    if cats.len() == 0 {
        Seq::empty()
    } else {
        let rest = selected(cats.drop_last(), w, v);
        let c = cats.last();
        let s = series_of(c.view_totals(), w);
        if accepts(v, s) {
            rest.push((c.category@, s))
        } else {
            rest
        }
    }
}

/// The sum at position `i` of the selected series.
pub open spec fn column_sum(sel: Seq<(Seq<char>, Seq<int>)>, i: int) -> int
    decreases sel.len(),
{
    if sel.len() == 0 {
        0
    } else {
        column_sum(sel.drop_last(), i) + sel.last().1[i]
    }
}

pub open spec fn column_sums(sel: Seq<(Seq<char>, Seq<int>)>, n: nat) -> Seq<int> {
    Seq::new(n, |i: int| column_sum(sel, i))
}

/// The chart of variant `v` of a worksheet's categories over window `w`:
/// the escaped title, the window as axis, a solid labelled line per shown
/// category in ascending order of name, and last the dash-dotted total of
/// the shown lines.
pub open spec fn chart_ok(c: ChartRequest, v: Variant, cats: Seq<CategoryTotals>, w: Seq<Period>) -> bool {
    let sel = selected(cats, w, v);
    &&& c.title@ == escape_spaces(title_of(v))
    &&& c.x_axis@ == w
    &&& c.series@.len() == sel.len() + 1
    &&& forall|i: int, j: int| 0 <= i < j < sel.len() ==> text_lt(#[trigger] sel[i].0, #[trigger] sel[j].0)
    &&& forall|i: int|
        0 <= i < sel.len() ==> {
            &&& ints((#[trigger] c.series@[i]).values@) == sel[i].1
            &&& c.series@[i].label@ == escape_spaces(category_label(sel[i].0, sel[i].1))
            &&& c.series@[i].style == LineStyle::Solid
        }
    &&& ints(c.series@[sel.len() as int].values@) == column_sums(sel, w.len())
    &&& c.series@[sel.len() as int].label@ == total_label()
    &&& c.series@[sel.len() as int].style == LineStyle::LongDashDot
}

/// The shown categories keep the ledger's ascending order of names.
pub proof fn lemma_selected_sorted(cats: Seq<CategoryTotals>, w: Seq<Period>, v: Variant)
    requires
        names_sorted(cats),
    ensures
        forall|i: int, j: int|
            0 <= i < j < selected(cats, w, v).len() ==> text_lt(
                #[trigger] selected(cats, w, v)[i].0,
                #[trigger] selected(cats, w, v)[j].0,
            ),
        forall|i: int|
            0 <= i < selected(cats, w, v).len() ==> exists|k: int|
                0 <= k < cats.len() && (#[trigger] selected(cats, w, v)[i]).0 == cats[k].category@,
    decreases cats.len(),
{
    if cats.len() > 0 {
        let rest = cats.drop_last();
        lemma_selected_sorted(rest, w, v);
        let sel = selected(cats, w, v);
        let prev = selected(rest, w, v);
        assert forall|i: int| 0 <= i < prev.len() implies exists|k: int|
            0 <= k < cats.len() && (#[trigger] prev[i]).0 == cats[k].category@ by {
            let k = choose|k: int| 0 <= k < rest.len() && prev[i].0 == rest[k].category@;
            assert(cats[k] == rest[k]);
        }
        if sel != prev {
            let last = cats.last();
            assert forall|i: int| 0 <= i < prev.len() implies text_lt(#[trigger] prev[i].0, last.category@) by {
                let k = choose|k: int| 0 <= k < rest.len() && prev[i].0 == rest[k].category@;
                assert(cats[k] == rest[k]);
                assert(text_lt(cats[k].category@, cats[cats.len() - 1].category@));
            }
            assert forall|i: int| 0 <= i < sel.len() implies exists|k: int|
                0 <= k < cats.len() && (#[trigger] sel[i]).0 == cats[k].category@ by {
                if i < prev.len() {
                    assert(sel[i] == prev[i]);
                } else {
                    assert(sel[i].0 == cats[cats.len() - 1].category@);
                }
            }
            assert forall|i: int, j: int| 0 <= i < j < sel.len() implies text_lt(
                #[trigger] sel[i].0,
                #[trigger] sel[j].0,
            ) by {
                assert(sel[i] == prev[i]);
                if j < prev.len() {
                    assert(sel[j] == prev[j]);
                }
            }
        }
    }
}

fn category_label_of(category: &String, values: &Vec<i128>) -> (r: String)
    requires
        fits_i64(ints(values@)),
    ensures
        r@ == escape_spaces(category_label(category@, ints(values@))),
{
    let mut s = category.clone();
    proof {
        reveal_strlit(" (avg: ");
        reveal_strlit("k)");
    }
    s.append(" (avg: ");
    push_decimal(&mut s, mean_in_thousands(values));
    s.append("k)");
    assert(s@ =~= category_label(category@, ints(values@)));
    fix_label(&s)
}

fn title_string(v: Variant) -> (r: String)
    ensures
        r@ == title_of(v),
{
    let t = match v {
        Variant::AllSpendings => "All spendings",
        Variant::RegularSpendings => "Regular spendings",
    };
    proof {
        reveal_strlit("All spendings");
        reveal_strlit("Regular spendings");
    }
    assert(t@ =~= title_of(v));
    String::from_str(t)
}

/// The chart of one variant for one worksheet over the given periods.
pub fn plot(variant: Variant, worksheet_data: &Ledger, periods: &Vec<Period>) -> (r: ChartRequest)
    requires
        worksheet_data.wf(),
    ensures
        chart_ok(r, variant, worksheet_data.categories@, periods@),
{
    let title = title_string(variant);
    let cats = &worksheet_data.categories;
    let ghost cps = category_pairs(cats@);
    let w = periods.len();
    let mut total: Vec<i128> = Vec::new();
    let mut i: usize = 0;
    while i < w
        invariant
            i <= w,
            w == periods@.len(),
            total@.len() == i,
            forall|k: int| 0 <= k < i ==> total@[k] == 0,
        decreases w - i,
    {
        total.push(0);
        i = i + 1;
    }
    let mut series: Vec<Series> = Vec::new();
    let n = cats.len();
    let mut k: usize = 0;
    while k < n
        invariant
            k <= n,
            n == cats@.len(),
            cats@ == worksheet_data.categories@,
            w == periods@.len(),
            worksheet_data.wf(),
            cps == category_pairs(cats@),
            total@.len() == w,
            ({
                let sel = selected(cats@.subrange(0, k as int), periods@, variant);
                &&& series@.len() == sel.len()
                &&& sel.len() <= k
                &&& ints(total@) == column_sums(sel, w as nat)
                &&& forall|j: int| 0 <= j < w ==> -(sel.len() * (i64::MAX as int)) <= #[trigger] total@[j]
                    <= sel.len() * (i64::MAX as int)
                &&& forall|q: int|
                    0 <= q < sel.len() ==> {
                        &&& ints((#[trigger] series@[q]).values@) == sel[q].1
                        &&& series@[q].label@ == escape_spaces(category_label(sel[q].0, sel[q].1))
                        &&& series@[q].style == LineStyle::Solid
                    }
            }),
        decreases n - k,
    {
        let cat = &cats[k];
        let ghost prev = selected(cats@.subrange(0, k as int), periods@, variant);
        assert(cats@.subrange(0, k + 1).drop_last() =~= cats@.subrange(0, k as int));
        assert(worksheet_data.keys_wf());
        assert(worksheet_data.categories@[k as int].wf());
        let values = y(cat, periods);
        proof {
            lemma_assoc_get(cps, k as int);
            assert(worksheet_data@[cat.category@] == cat.view_totals());
            assert forall|j: int| 0 <= j < ints(values@).len() implies -(i64::MAX as int)
                <= #[trigger] ints(values@)[j] <= i64::MAX as int by {
                let p = periods@[j];
                if cat.view_totals().contains_key(p) {
                    assert(worksheet_data@.contains_key(cat.category@) && worksheet_data@[cat.category@].contains_key(p));
                }
            }
        }
        let shown = match variant {
            Variant::AllSpendings => is_spending_category(&values),
            Variant::RegularSpendings => is_regular_category(&values),
        };
        if shown {
            let ghost sel = prev.push((cat.category@, ints(values@)));
            let ghost c = prev.len();
            assert(c + 1 <= usize::MAX);
            let mut j: usize = 0;
            while j < w
                invariant
                    j <= w,
                    w == periods@.len(),
                    total@.len() == w,
                    values@.len() == w,
                    c == prev.len(),
                    c + 1 <= usize::MAX,
                    sel == prev.push((cat.category@, ints(values@))),
                    fits_i64(ints(values@)),
                    forall|q: int| 0 <= q < j ==> #[trigger] ints(total@)[q] == column_sum(sel, q),
                    forall|q: int| j <= q < w ==> #[trigger] ints(total@)[q] == column_sum(prev, q),
                    forall|q: int| 0 <= q < j ==> -((c + 1) * (i64::MAX as int)) <= #[trigger] total@[q]
                        <= (c + 1) * (i64::MAX as int),
                    forall|q: int| j <= q < w ==> -(c * (i64::MAX as int)) <= #[trigger] total@[q]
                        <= c * (i64::MAX as int),
                decreases w - j,
            {
                assert(sel.drop_last() =~= prev);
                assert(-(i64::MAX as int) <= ints(values@)[j as int] <= i64::MAX as int);
                assert((c + 1) * (i64::MAX as int) == c * (i64::MAX as int) + i64::MAX as int) by (nonlinear_arith);
                assert((c + 1) * (i64::MAX as int) <= usize::MAX * (i64::MAX as int)) by (nonlinear_arith)
                    requires c + 1 <= usize::MAX;
                assert(usize::MAX * (i64::MAX as int) < i128::MAX) by (nonlinear_arith)
                    requires usize::MAX <= u64::MAX;
                assert(column_sum(sel, j as int) == column_sum(prev, j as int) + ints(values@)[j as int]);
                assert(ints(total@)[j as int] == column_sum(prev, j as int));
                let t = total[j] + values[j];
                let ghost t0 = total@;
                total.set(j, t);
                assert(ints(total@) =~= ints(t0).update(j as int, t as int));
                j = j + 1;
            }
            let label = category_label_of(&cat.category, &values);
            series.push(Series { label, values, style: LineStyle::Solid });
            proof {
                assert(selected(cats@.subrange(0, k + 1), periods@, variant) == sel);
                assert(ints(total@) =~= column_sums(sel, w as nat));
                assert forall|j: int| 0 <= j < w implies -(sel.len() * (i64::MAX as int)) <= #[trigger] total@[j]
                    <= sel.len() * (i64::MAX as int) by {
                    assert(-((c + 1) * (i64::MAX as int)) <= total@[j] <= (c + 1) * (i64::MAX as int));
                }
            }
        } else {
            assert(selected(cats@.subrange(0, k + 1), periods@, variant) == prev);
        }
        k = k + 1;
    }
    assert(cats@.subrange(0, n as int) =~= cats@);
    proof {
        reveal_strlit("Total");
        lemma_selected_sorted(cats@, periods@, variant);
    }
    let total_name = "Total";
    assert(total_name@ =~= total_label());
    series.push(Series { label: String::from_str(total_name), values: total, style: LineStyle::LongDashDot });
    let r = ChartRequest { title: fix_label(&title), x_axis: periods.clone(), series };
    r
}

/// `w` is the trailing window of size `size` of the periods that the
/// ledgers have totals in, sorted chronologically.
pub open spec fn is_window(data: Seq<Ledger>, size: nat, w: Seq<Period>) -> bool {
    exists|u: Seq<Period>|
        strictly_sorted(u) && (forall|p: Period| #[trigger] u.contains(p) <==> in_universe(data, p))
            && w == trailing_window(u, size)
}

/// The charts of every worksheet: for each ledger in turn, the chart of all
/// spending and the chart of regular spending, all over one trailing window
/// of `size` periods taken from the periods of every ledger.
pub fn draw(data: &Vec<Ledger>, size: usize) -> (r: Vec<ChartRequest>)
    requires
        forall|i: int| 0 <= i < data@.len() ==> (#[trigger] data@[i]).wf(),
    ensures
        r@.len() == 2 * data@.len(),
        forall|i: int|
            0 <= i < data@.len() ==> chart_ok(
                #[trigger] r@[2 * i],
                Variant::AllSpendings,
                data@[i].categories@,
                r@[2 * i].x_axis@,
            ) && chart_ok(
                r@[2 * i + 1],
                Variant::RegularSpendings,
                data@[i].categories@,
                r@[2 * i + 1].x_axis@,
            ),
        forall|k: int| 0 <= k < r@.len() ==> is_window(data@, size as nat, #[trigger] r@[k].x_axis@),
{
    let universe = worksheet_data_to_periods(data);
    let periods = last_n_groups(universe, size);
    assert(is_window(data@, size as nat, periods@));
    let mut charts: Vec<ChartRequest> = Vec::new();
    let n = data.len();
    let mut i: usize = 0;
    while i < n
        invariant
            i <= n,
            n == data@.len(),
            forall|k: int| 0 <= k < data@.len() ==> (#[trigger] data@[k]).wf(),
            is_window(data@, size as nat, periods@),
            charts@.len() == 2 * i,
            forall|k: int|
                0 <= k < i ==> chart_ok(
                    #[trigger] charts@[2 * k],
                    Variant::AllSpendings,
                    data@[k].categories@,
                    charts@[2 * k].x_axis@,
                ) && chart_ok(
                    charts@[2 * k + 1],
                    Variant::RegularSpendings,
                    data@[k].categories@,
                    charts@[2 * k + 1].x_axis@,
                ),
            forall|k: int| 0 <= k < charts@.len() ==> (#[trigger] charts@[k]).x_axis@ == periods@,
        decreases n - i,
    {
        assert(data@[i as int].wf());
        let all = plot(Variant::AllSpendings, &data[i], &periods);
        let regular = plot(Variant::RegularSpendings, &data[i], &periods);
        let ghost c0 = charts@;
        charts.push(all);
        charts.push(regular);
        proof {
            assert forall|k: int|
                0 <= k < i + 1 implies chart_ok(
                    #[trigger] charts@[2 * k],
                    Variant::AllSpendings,
                    data@[k].categories@,
                    charts@[2 * k].x_axis@,
                ) && chart_ok(
                    charts@[2 * k + 1],
                    Variant::RegularSpendings,
                    data@[k].categories@,
                    charts@[2 * k + 1].x_axis@,
                ) by {
                if k < i {
                    assert(charts@[2 * k] == c0[2 * k]);
                    assert(charts@[2 * k + 1] == c0[2 * k + 1]);
                }
            }
            assert forall|k: int| 0 <= k < charts@.len() implies (#[trigger] charts@[k]).x_axis@ == periods@ by {
                if k < 2 * i {
                    assert(charts@[k] == c0[k]);
                }
            }
        }
        i = i + 1;
    }
    charts
}

/// The ledger of every worksheet, or its failure, in the order of the
/// worksheets. A failing worksheet does not stop the others.
pub fn parse_worksheets(sheets: &Vec<Worksheet>, group_by: GroupBy) -> (r: Vec<Result<Ledger, MyCustomError>>)
    ensures
        r@.len() == sheets@.len(),
        forall|i: int|
            0 <= i < sheets@.len() ==> match #[trigger] r@[i] {
                Ok(l) => l.wf() && sheet_ledger(sheets@[i].rows@, group_by) == Ok::<
                    LedgerMap,
                    MyCustomError,
                >(l@),
                Err(e) => sheet_ledger(sheets@[i].rows@, group_by) == Err::<LedgerMap, MyCustomError>(e),
            },
{
    let mut r: Vec<Result<Ledger, MyCustomError>> = Vec::new();
    let n = sheets.len();
    let mut i: usize = 0;
    while i < n
        invariant
            i <= n,
            n == sheets@.len(),
            r@.len() == i,
            forall|k: int|
                0 <= k < i ==> match #[trigger] r@[k] {
                    Ok(l) => l.wf() && sheet_ledger(sheets@[k].rows@, group_by) == Ok::<
                        LedgerMap,
                        MyCustomError,
                    >(l@),
                    Err(e) => sheet_ledger(sheets@[k].rows@, group_by) == Err::<LedgerMap, MyCustomError>(e),
                },
        decreases n - i,
    {
        let one = read_worksheet(&sheets[i], group_by);
        let ghost r0 = r@;
        r.push(one);
        proof {
            assert forall|k: int| 0 <= k < i + 1 implies match #[trigger] r@[k] {
                Ok(l) => l.wf() && sheet_ledger(sheets@[k].rows@, group_by) == Ok::<
                    LedgerMap,
                    MyCustomError,
                >(l@),
                Err(e) => sheet_ledger(sheets@[k].rows@, group_by) == Err::<LedgerMap, MyCustomError>(e),
            } by {
                if k < i {
                    assert(r@[k] == r0[k]);
                }
            }
        }
        i = i + 1;
    }
    r
}

/// The outcome of a run over a workbook: the ledgers of the worksheets that
/// could be read, their charts, and the worksheets that failed, by position.
pub struct Report {
    pub ledgers: Vec<Ledger>,
    pub charts: Vec<ChartRequest>,
    pub failures: Vec<(usize, MyCustomError)>,
}

/// The ledger maps of the worksheets that can be read, in order.
pub open spec fn readable_ledgers(sheets: Seq<Worksheet>, g: GroupBy) -> Seq<LedgerMap>
    decreases sheets.len(),
{
    if sheets.len() == 0 {
        Seq::empty()
    } else {
        let rest = readable_ledgers(sheets.drop_last(), g);
        match sheet_ledger(sheets.last().rows@, g) {
            Ok(l) => rest.push(l),
            Err(_) => rest,
        }
    }
}

/// The position and failure of each worksheet that cannot be read, in order.
pub open spec fn sheet_failures(sheets: Seq<Worksheet>, g: GroupBy) -> Seq<(usize, MyCustomError)>
    decreases sheets.len(),
{
    if sheets.len() == 0 {
        Seq::empty()
    } else {
        let rest = sheet_failures(sheets.drop_last(), g);
        match sheet_ledger(sheets.last().rows@, g) {
            Ok(_) => rest,
            Err(e) => rest.push(((sheets.len() - 1) as usize, e)),
        }
    }
}

pub open spec fn ledger_views(ls: Seq<Ledger>) -> Seq<LedgerMap> {
    ls.map_values(|l: Ledger| l@)
}

/// Reads every worksheet under the granularity that `group` names, and
/// draws the charts of those that could be read over the trailing window
/// of the last `size` complete periods; the worksheets that fail are
/// listed, and hide nothing of the others.
pub fn draw_images(sheets: &Vec<Worksheet>, group: String, size: usize) -> (r: Report)
    ensures
        ledger_views(r.ledgers@) == readable_ledgers(sheets@, group_named(group@)),
        r.failures@ == sheet_failures(sheets@, group_named(group@)),
        r.charts@.len() == 2 * r.ledgers@.len(),
        forall|i: int|
            0 <= i < r.ledgers@.len() ==> chart_ok(
                #[trigger] r.charts@[2 * i],
                Variant::AllSpendings,
                r.ledgers@[i].categories@,
                r.charts@[2 * i].x_axis@,
            ) && chart_ok(
                r.charts@[2 * i + 1],
                Variant::RegularSpendings,
                r.ledgers@[i].categories@,
                r.charts@[2 * i + 1].x_axis@,
            ),
        forall|k: int|
            0 <= k < r.charts@.len() ==> is_window(
                r.ledgers@,
                size as nat,
                #[trigger] r.charts@[k].x_axis@,
            ),
{
    let g = group_by(group);
    let results = parse_worksheets(sheets, g);
    let mut ledgers: Vec<Ledger> = Vec::new();
    let mut failures: Vec<(usize, MyCustomError)> = Vec::new();
    let mut results = results;
    let n = results.len();
    let ghost all = results@;
    let mut i: usize = 0;
    while i < n
        invariant
            i <= n,
            n == sheets@.len(),
            results@.len() == n - i,
            forall|k: int| 0 <= k < n - i ==> results@[k] == all[i + k],
            forall|k: int|
                0 <= k < n ==> match #[trigger] all[k] {
                    Ok(l) => l.wf() && sheet_ledger(sheets@[k].rows@, g) == Ok::<LedgerMap, MyCustomError>(l@),
                    Err(e) => sheet_ledger(sheets@[k].rows@, g) == Err::<LedgerMap, MyCustomError>(e),
                },
            forall|k: int| 0 <= k < ledgers@.len() ==> (#[trigger] ledgers@[k]).wf(),
            ledger_views(ledgers@) == readable_ledgers(sheets@.subrange(0, i as int), g),
            failures@ == sheet_failures(sheets@.subrange(0, i as int), g),
        decreases n - i,
    {
        let one = results.remove(0);
        assert(one == all[i as int]);
        assert(sheets@.subrange(0, i + 1).drop_last() =~= sheets@.subrange(0, i as int));
        assert(sheets@.subrange(0, i + 1).last() == sheets@[i as int]);
        match one {
            Ok(l) => {
                let ghost l0 = ledgers@;
                ledgers.push(l);
                assert(ledger_views(ledgers@) =~= ledger_views(l0).push(l@));
            },
            Err(e) => {
                failures.push((i, e));
            },
        }
        proof {
            assert forall|k: int| 0 <= k < n - (i + 1) implies results@[k] == all[i + 1 + k] by {
            }
        }
        i = i + 1;
    }
    assert(sheets@.subrange(0, n as int) =~= sheets@);
    let charts = draw(&ledgers, size);
    Report { ledgers, charts, failures }
}

} // verus!
