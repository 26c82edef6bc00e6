//! Worksheets of cells: locating the columns by their headers, turning rows
//! into transactions, and folding them into a ledger.

use vstd::prelude::*;
use vstd::multiset::Multiset;
use chrono::Datelike;
use crate::period::{CalendarDate, GroupBy, Period, period_of, period_from_date};
use crate::ledger::{
    Entry, Ledger, LedgerMap, ledger_of, totals_bounded, lemma_add_entry_bounded,
    lemma_bounded_weaken, lemma_ledger_order_independent,
};
use crate::text::text_eq;

verus! {

/// Header of the column with the transaction date.
pub const PERIOD_HEADER: &'static str = "Период";

/// Header of the column with the category.
pub const CATEGORY_HEADER: &'static str = "Категория";

/// Header of the column with the transaction kind.
pub const TX_TYPE_HEADER: &'static str = "Доход/Расход";

/// Header of the column with the amount.
pub const VALUE_HEADER: &'static str = "RUB";

/// The transaction kind of income.
pub const INCOME: &'static str = "Доход";

/// The transaction kind of spending.
pub const OUTCOME: &'static str = "Расход";

/// One cell of a worksheet. A number is an amount in hundredths of the
/// currency unit.
pub enum Cell {
    Text(String),
    Number(i64),
    Other,
}

/// One worksheet: its name and its rows, the first of which holds the
/// column headers.
pub struct Worksheet {
    pub name: String,
    pub rows: Vec<Vec<Cell>>,
}

/// A failure that stops a whole run (`OpenError`) or one worksheet
/// (`OtherError`: no rows, a missing column header, or a total beyond the
/// range of an `i64`).
#[derive(Clone, Copy, Debug, PartialEq, Eq, Structural)]
pub enum MyCustomError {
    OpenError,
    OtherError,
}

impl MyCustomError {
    pub fn message(&self) -> (r: &'static str)
        ensures
            r@ == (match self {
                MyCustomError::OpenError => "Can't open file"@,
                MyCustomError::OtherError => "Other error"@,
            }),
    {
        match self {
            MyCustomError::OpenError => "Can't open file",
            MyCustomError::OtherError => "Other error",
        }
    }
}

/// The field of a row that could not be read.
#[derive(Clone, Copy, Debug, PartialEq, Eq, Structural)]
pub enum FieldError {
    Period,
    Category,
    TxType,
    Value,
}

#[derive(Clone, Copy, Debug, PartialEq, Eq, Structural)]
pub enum TxType {
    Income,
    Outcome,
}

/// The positions of the four columns that a row is read from.
#[derive(Clone, Copy, Debug, PartialEq, Eq, Structural)]
pub struct Columns {
    pub period: usize,
    pub category: usize,
    pub tx_type: usize,
    pub value: usize,
}

/// One row read as a transaction.
pub struct Fields {
    pub period: CalendarDate,
    pub category: String,
    pub tx_type: TxType,
    pub value: i64,
}

/// The date that chrono reads from a text in the format `DD.MM.YYYY`, as
/// year, month and day, if it reads one.
pub uninterp spec fn dmy_date(s: Seq<char>) -> Option<(int, int, int)>;

/// Relies on chrono's `NaiveDate::parse_from_str` with the format
/// `%d.%m.%Y`: its result depends on the text alone, and a `NaiveDate` is
/// always a valid day of the calendar.
#[verifier::external_body]
fn parse_day_month_year(s: &str) -> (r: Option<CalendarDate>)
    ensures
        match r {
            Some(d) => d.wf() && dmy_date(s@) == Some(
                (d.year as int, d.month as int, d.day as int),
            ),
            None => dmy_date(s@) is None,
        },
{
    match chrono::NaiveDate::parse_from_str(s, "%d.%m.%Y") {
        Ok(d) => Some(CalendarDate { year: d.year(), month: d.month(), day: d.day() }),
        Err(_) => None,
    }
}

pub open spec fn text_at(row: Seq<Cell>, i: int) -> Option<Seq<char>> {
    if 0 <= i < row.len() {
        match row[i] {
            Cell::Text(s) => Some(s@),
            _ => None,
        }
    } else {
        None
    }
}

pub open spec fn number_at(row: Seq<Cell>, i: int) -> Option<i64> {
    if 0 <= i < row.len() {
        match row[i] {
            Cell::Number(v) => Some(v),
            _ => None,
        }
    } else {
        None
    }
}

pub open spec fn date_at(row: Seq<Cell>, i: int) -> Option<CalendarDate> {
    match text_at(row, i) {
        Some(s) => match dmy_date(s) {
            Some(d) => Some(CalendarDate { year: d.0 as i32, month: d.1 as u32, day: d.2 as u32 }),
            None => None,
        },
        None => None,
    }
}

pub open spec fn tx_type_of(s: Seq<char>) -> Option<TxType> {
    if s == INCOME@ {
        Some(TxType::Income)
    } else if s == OUTCOME@ {
        Some(TxType::Outcome)
    } else {
        None
    }
}

/// A row read as date, category, kind and amount, or the first field, in
/// that order, that cannot be read.
pub open spec fn row_fields(cols: Columns, row: Seq<Cell>) -> Result<
    (CalendarDate, Seq<char>, TxType, i64),
    FieldError,
> {
    let date = date_at(row, cols.period as int);
    let category = text_at(row, cols.category as int);
    let kind = match text_at(row, cols.tx_type as int) {
        Some(s) => tx_type_of(s),
        None => None,
    };
    let value = number_at(row, cols.value as int);
    if date is None {
        Err(FieldError::Period)
    } else if category is None {
        Err(FieldError::Category)
    } else if kind is None {
        Err(FieldError::TxType)
    } else if value is None {
        Err(FieldError::Value)
    } else {
        Ok((date.unwrap(), category.unwrap(), kind.unwrap(), value.unwrap()))
    }
}

/// Spending counts positive, income negative.
pub open spec fn signed_amount(kind: TxType, v: i64) -> int {
    match kind {
        TxType::Outcome => v as int,
        TxType::Income => -(v as int),
    }
}

/// The ledger entry of a row, if the row can be read.
pub open spec fn row_entry(cols: Columns, g: GroupBy, row: Seq<Cell>) -> Option<Entry> {
    match row_fields(cols, row) {
        Ok(f) => Some((f.1, period_of(f.0, g), signed_amount(f.2, f.3))),
        Err(_) => None,
    }
}

/// The entries of the rows that can be read, in order; the others are
/// skipped.
pub open spec fn sheet_entries(cols: Columns, g: GroupBy, rows: Seq<Vec<Cell>>) -> Seq<Entry>
    decreases rows.len(),
{
    if rows.len() == 0 {
        Seq::empty()
    } else {
        let rest = sheet_entries(cols, g, rows.drop_last());
        match row_entry(cols, g, rows.last()@) {
            Some(e) => rest.push(e),
            None => rest,
        }
    }
}

/// The last position before `n` of a text cell that holds `label`.
pub open spec fn last_column(header: Seq<Cell>, label: Seq<char>, n: int) -> Option<int>
    decreases n,
{
    if n <= 0 {
        None
    } else if text_at(header, n - 1) == Some(label) {
        Some(n - 1)
    } else {
        last_column(header, label, n - 1)
    }
}

/// The columns named in a header row, if all four are there.
pub open spec fn columns_of(header: Seq<Cell>) -> Option<Columns> {
    let n = header.len() as int;
    let p = last_column(header, PERIOD_HEADER@, n);
    let c = last_column(header, CATEGORY_HEADER@, n);
    let t = last_column(header, TX_TYPE_HEADER@, n);
    let v = last_column(header, VALUE_HEADER@, n);
    if p is Some && c is Some && t is Some && v is Some {
        Some(
            Columns {
                period: p.unwrap() as usize,
                category: c.unwrap() as usize,
                tx_type: t.unwrap() as usize,
                value: v.unwrap() as usize,
            },
        )
    } else {
        None
    }
}

/// The ledger of a worksheet, or the worksheet's failure.
pub open spec fn sheet_ledger(rows: Seq<Vec<Cell>>, g: GroupBy) -> Result<LedgerMap, MyCustomError> {
    if rows.len() == 0 {
        Err(MyCustomError::OtherError)
    } else {
        match columns_of(rows[0]@) {
            None => Err(MyCustomError::OtherError),
            Some(cols) => {
                let l = ledger_of(sheet_entries(cols, g, rows));
                if totals_bounded(l, i64::MAX as int) {
                    Ok(l)
                } else {
                    Err(MyCustomError::OtherError)
                }
            },
        }
    }
}

fn text_cell<'a>(row: &'a Vec<Cell>, i: usize) -> (r: Option<&'a String>)
    ensures
        match r {
            Some(s) => text_at(row@, i as int) == Some(s@),
            None => text_at(row@, i as int) is None,
        },
{
    if i < row.len() {
        match &row[i] {
            Cell::Text(s) => Some(s),
            _ => None,
        }
    } else {
        None
    }
}

/// Reads one row as a transaction, or says which field could not be read.
pub fn read_row(columns: &Columns, row: &Vec<Cell>) -> (r: Result<Fields, FieldError>)
    ensures
        match r {
            Ok(f) => f.period.wf() && row_fields(*columns, row@) == Ok::<
                (CalendarDate, Seq<char>, TxType, i64),
                FieldError,
            >((f.period, f.category@, f.tx_type, f.value)),
            Err(e) => row_fields(*columns, row@) == Err::<
                (CalendarDate, Seq<char>, TxType, i64),
                FieldError,
            >(e),
        },
{
    let period = match text_cell(row, columns.period) {
        Some(s) => parse_day_month_year(s.as_str()),
        None => None,
    };
    let period = match period {
        Some(d) => d,
        None => {
            return Err(FieldError::Period);
        },
    };
    let category = match text_cell(row, columns.category) {
        Some(s) => s,
        None => {
            return Err(FieldError::Category);
        },
    };
    let tx_type = match text_cell(row, columns.tx_type) {
        Some(s) => {
            if text_eq(s.as_str(), INCOME) {
                TxType::Income
            } else if text_eq(s.as_str(), OUTCOME) {
                TxType::Outcome
            } else {
                return Err(FieldError::TxType);
            }
        },
        None => {
            return Err(FieldError::TxType);
        },
    };
    let value = if columns.value < row.len() {
        match &row[columns.value] {
            Cell::Number(v) => *v,
            _ => {
                return Err(FieldError::Value);
            },
        }
    } else {
        return Err(FieldError::Value);
    };
    Ok(Fields { period, category: category.clone(), tx_type, value })
}

fn find_column(header: &Vec<Cell>, label: &str) -> (r: Option<usize>)
    ensures
        match r {
            Some(i) => last_column(header@, label@, header@.len() as int) == Some(i as int),
            None => last_column(header@, label@, header@.len() as int) is None,
        },
{
    let mut i: usize = header.len();
    while i > 0
        invariant
            i <= header@.len(),
            last_column(header@, label@, header@.len() as int) == last_column(
                header@,
                label@,
                i as int,
            ),
        decreases i,
    {
        match text_cell(header, i - 1) {
            Some(s) => {
                if text_eq(s.as_str(), label) {
                    return Some(i - 1);
                }
            },
            None => {},
        }
        i = i - 1;
    }
    None
}

/// The columns named in a header row, if all four are there.
pub fn find_columns(header: &Vec<Cell>) -> (r: Option<Columns>)
    ensures
        r == columns_of(header@),
{
    let p = find_column(header, PERIOD_HEADER);
    let c = find_column(header, CATEGORY_HEADER);
    let t = find_column(header, TX_TYPE_HEADER);
    let v = find_column(header, VALUE_HEADER);
    match (p, c, t, v) {
        (Some(p), Some(c), Some(t), Some(v)) => Some(
            Columns { period: p, category: c, tx_type: t, value: v },
        ),
        _ => None,
    }
}

/// Folds the readable rows of a worksheet into its ledger. A worksheet
/// without rows, or whose first row lacks one of the four headers, fails as
/// a whole; rows that cannot be read are skipped.
pub fn read_worksheet(sheet: &Worksheet, group_by: GroupBy) -> (r: Result<Ledger, MyCustomError>)
    ensures
        match r {
            Ok(l) => l.wf() && sheet_ledger(sheet.rows@, group_by) == Ok::<
                LedgerMap,
                MyCustomError,
            >(l@),
            Err(e) => sheet_ledger(sheet.rows@, group_by) == Err::<LedgerMap, MyCustomError>(e),
        },
{
    let rows = &sheet.rows;
    if rows.len() == 0 {
        return Err(MyCustomError::OtherError);
    }
    let columns = match find_columns(&rows[0]) {
        Some(c) => c,
        None => {
            return Err(MyCustomError::OtherError);
        },
    };
    let mut ledger = Ledger::new();
    let n = rows.len();
    let mut i: usize = 0;
    while i < n
        invariant
            i <= n,
            n == rows@.len(),
            ledger.keys_wf(),
            ledger@ == ledger_of(sheet_entries(columns, group_by, rows@.subrange(0, i as int))),
            totals_bounded(ledger@, i * (i64::MAX as int + 1)),
        decreases n - i,
    {
        let ghost prev = rows@.subrange(0, i as int);
        assert(rows@.subrange(0, i + 1).drop_last() =~= prev);
        match read_row(&columns, &rows[i]) {
            Ok(fields) => {
                let period = period_from_date(group_by, fields.period);
                let amount: i128 = match fields.tx_type {
                    TxType::Outcome => fields.value as i128,
                    TxType::Income => -(fields.value as i128),
                };
                proof {
                    let b = i * (i64::MAX as int + 1);
                    assert(i + 1 <= usize::MAX);
                    assert((i + 1) * (i64::MAX as int + 1) <= i128::MAX) by (nonlinear_arith)
                        requires
                            i + 1 <= usize::MAX,
                            usize::MAX <= u64::MAX,
                    ;
                    assert(b + (i64::MAX as int + 1) == (i + 1) * (i64::MAX as int + 1)) by (
                    nonlinear_arith)
                        requires
                            b == i * (i64::MAX as int + 1),
                    ;
                    assert forall|c: Seq<char>, p: Period|
                        #[trigger] ledger@.contains_key(c) && #[trigger] ledger@[c].contains_key(
                            p,
                        ) implies -(i128::MAX - (i64::MAX as int + 1)) <= ledger@[c][p] <= i128::MAX
                        - (i64::MAX as int + 1) by {
                        assert(-b <= ledger@[c][p] <= b);
                    }
                    lemma_add_entry_bounded(ledger@, fields.category@, period, amount as int, b);
                }
                let ghost e: Entry = (fields.category@, period, amount as int);
                let ghost before = ledger@;
                ledger.add(fields.category, period, amount);
                proof {
                    let es = sheet_entries(columns, group_by, prev);
                    assert(sheet_entries(columns, group_by, rows@.subrange(0, i + 1)) == es.push(e));
                    assert(es.push(e).drop_last() =~= es);
                    lemma_bounded_weaken(
                        ledger@,
                        i * (i64::MAX as int + 1) + (if amount < 0 { -(amount as int) } else { amount as int }),
                        (i + 1) * (i64::MAX as int + 1),
                    );
                }
            },
            Err(_) => {
                proof {
                    assert((i + 1) * (i64::MAX as int + 1) == i * (i64::MAX as int + 1) + (i64::MAX as int + 1)) by (nonlinear_arith);
                    lemma_bounded_weaken(
                        ledger@,
                        i * (i64::MAX as int + 1),
                        (i + 1) * (i64::MAX as int + 1),
                    );
                }
            },
        }
        i = i + 1;
    }
    assert(rows@.subrange(0, n as int) =~= rows@);
    if ledger.fits_i64() {
        Ok(ledger)
    } else {
        Err(MyCustomError::OtherError)
    }
}

proof fn lemma_entries_skip_row(cols: Columns, g: GroupBy, rows: Seq<Vec<Cell>>, k: int, row: Vec<Cell>)
    requires
        0 <= k <= rows.len(),
        row_entry(cols, g, row@) is None,
    ensures
        sheet_entries(cols, g, rows.insert(k, row)) == sheet_entries(cols, g, rows),
    decreases rows.len(),
{
    let t = rows.insert(k, row);
    if k == rows.len() {
        assert(t.drop_last() =~= rows);
    } else {
        assert(t.drop_last() =~= rows.drop_last().insert(k, row));
        assert(t.last() == rows.last());
        lemma_entries_skip_row(cols, g, rows.drop_last(), k, row);
    }
}

/// A row that cannot be read, put anywhere after the header row, changes
/// nothing: the worksheet gives the same ledger, or the same failure.
pub proof fn lemma_unreadable_row_ignored(rows: Seq<Vec<Cell>>, k: int, row: Vec<Cell>, g: GroupBy)
    requires
        1 <= k <= rows.len(),
        match columns_of(rows[0]@) {
            Some(cols) => row_fields(cols, row@) is Err,
            None => true,
        },
    ensures
        sheet_ledger(rows.insert(k, row), g) == sheet_ledger(rows, g),
{
    let t = rows.insert(k, row);
    assert(t[0] == rows[0]);
    match columns_of(rows[0]@) {
        Some(cols) => {
            lemma_entries_skip_row(cols, g, rows, k, row);
        },
        None => {},
    }
}

pub open spec fn with_entry(m: Multiset<Entry>, e: Option<Entry>) -> Multiset<Entry> {
    match e {
        Some(x) => m.insert(x),
        None => m,
    }
}

proof fn lemma_entries_remove(cols: Columns, g: GroupBy, t: Seq<Vec<Cell>>, j: int)
    requires
        0 <= j < t.len(),
    ensures
        sheet_entries(cols, g, t).to_multiset() == with_entry(
            sheet_entries(cols, g, t.remove(j)).to_multiset(),
            row_entry(cols, g, t[j]@),
        ),
    decreases t.len(),
{
    broadcast use vstd::seq_lib::group_to_multiset_ensures;
    broadcast use vstd::multiset::group_multiset_axioms;

    if j == t.len() - 1 {
        assert(t.remove(j) =~= t.drop_last());
    } else {
        let rest = t.drop_last();
        lemma_entries_remove(cols, g, rest, j);
        assert(t.remove(j).drop_last() =~= rest.remove(j));
        assert(t.remove(j).last() == t.last());
        let a = sheet_entries(cols, g, rest.remove(j)).to_multiset();
        let x = row_entry(cols, g, t[j]@);
        let y = row_entry(cols, g, t.last()@);
        assert(with_entry(with_entry(a, x), y) =~= with_entry(with_entry(a, y), x));
    }
}

proof fn lemma_entries_permutation(cols: Columns, g: GroupBy, s: Seq<Vec<Cell>>, t: Seq<Vec<Cell>>)
    requires
        s.to_multiset() == t.to_multiset(),
    ensures
        sheet_entries(cols, g, s).to_multiset() == sheet_entries(cols, g, t).to_multiset(),
    decreases s.len(),
{
    broadcast use vstd::seq_lib::group_to_multiset_ensures;

    if s.len() == 0 {
        assert(t.to_multiset().len() == 0);
        assert(t.len() == 0);
        assert(t =~= s);
    } else {
        let x = s.last();
        assert(s[s.len() - 1] == x);
        assert(s.to_multiset().contains(x));
        assert(t.contains(x));
        let j = choose|j: int| 0 <= j < t.len() && t[j] == x;
        assert(s.drop_last() =~= s.remove(s.len() - 1));
        lemma_entries_permutation(cols, g, s.drop_last(), t.remove(j));
        lemma_entries_remove(cols, g, t, j);
        lemma_entries_remove(cols, g, s, s.len() - 1);
    }
}

/// A worksheet does not depend on the order of its rows after the header:
/// any permutation of them gives the same ledger, or the same failure.
pub proof fn lemma_sheet_rows_order_independent(r1: Seq<Vec<Cell>>, r2: Seq<Vec<Cell>>, g: GroupBy)
    requires
        r1.len() > 0,
        r2.len() > 0,
        r1[0] == r2[0],
        r1.subrange(1, r1.len() as int).to_multiset() == r2.subrange(1, r2.len() as int).to_multiset(),
    ensures
        sheet_ledger(r1, g) == sheet_ledger(r2, g),
{
    broadcast use vstd::seq_lib::lemma_multiset_commutative;

    let h = seq![r1[0]];
    assert(r1 =~= h + r1.subrange(1, r1.len() as int));
    assert(r2 =~= h + r2.subrange(1, r2.len() as int));
    assert(r1.to_multiset() == r2.to_multiset());
    match columns_of(r1[0]@) {
        Some(cols) => {
            lemma_entries_permutation(cols, g, r1, r2);
            lemma_ledger_order_independent(sheet_entries(cols, g, r1), sheet_entries(cols, g, r2));
        },
        None => {},
    }
}

} // verus!
