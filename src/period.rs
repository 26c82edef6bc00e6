//! Calendar dates, grouping granularities and the periods that dates fall in.

use vstd::prelude::*;
use crate::text::{digit_char, padded, push_padded, push_zero_padded, zero_pad, digits, text_eq};

verus! {

/// How coarsely dates are bucketed into periods.
#[derive(Clone, Copy, Debug, PartialEq, Eq, Structural)]
pub enum GroupBy {
    Month,
    Quarter,
    Year,
}

pub open spec fn is_leap_year(y: int) -> bool {
    y % 4 == 0 && (y % 100 != 0 || y % 400 == 0)
}

pub open spec fn days_in_month(y: int, m: int) -> int {
    if m == 2 {
        if is_leap_year(y) { 29 } else { 28 }
    } else if m == 4 || m == 6 || m == 9 || m == 11 {
        30
    } else {
        31
    }
}

/// A day of the proleptic Gregorian calendar.
#[derive(Clone, Copy, Debug, PartialEq, Eq, Structural)]
pub struct CalendarDate {
    pub year: i32,
    pub month: u32,
    pub day: u32,
}

impl CalendarDate {
    /// The date exists in the calendar.
    pub open spec fn wf(self) -> bool {
        1 <= self.month <= 12 && 1 <= self.day <= days_in_month(self.year as int, self.month as int)
    }

    /// `self` is an earlier day than `other`.
    pub open spec fn before(self, other: CalendarDate) -> bool {
        self.year < other.year || (self.year == other.year && (self.month < other.month || (
        self.month == other.month && self.day < other.day)))
    }
}

/// A time bucket: a month (`sub` is 1 to 12), a quarter (`sub` is 1 to 4) or
/// a whole year (`sub` is 0) of the year `year`.
#[derive(Clone, Copy, Debug, PartialEq, Eq, Structural)]
pub struct Period {
    pub group: GroupBy,
    pub year: i32,
    pub sub: u32,
}

pub open spec fn group_rank(g: GroupBy) -> int {
    match g {
        GroupBy::Month => 0,
        GroupBy::Quarter => 1,
        GroupBy::Year => 2,
    }
}

/// Chronological order of periods: by year, then by the month or quarter
/// within it (periods of different granularities, which one ledger never
/// mixes, are told apart by granularity last).
pub open spec fn period_lt(a: Period, b: Period) -> bool {
    a.year < b.year || (a.year == b.year && (a.sub < b.sub || (a.sub == b.sub && group_rank(a.group)
        < group_rank(b.group))))
}

pub open spec fn period_le(a: Period, b: Period) -> bool {
    period_lt(a, b) || a == b
}

/// The period that a date falls in under a granularity.
pub open spec fn period_of(d: CalendarDate, g: GroupBy) -> Period {
    match g {
        GroupBy::Month => Period { group: g, year: d.year, sub: d.month },
        GroupBy::Quarter => Period { group: g, year: d.year, sub: ((d.month - 1) / 3 + 1) as u32 },
        GroupBy::Year => Period { group: g, year: d.year, sub: 0 },
    }
}

impl Period {
    pub open spec fn wf(self) -> bool {
        match self.group {
            GroupBy::Month => 1 <= self.sub <= 12,
            GroupBy::Quarter => 1 <= self.sub <= 4,
            GroupBy::Year => self.sub == 0,
        }
    }

    /// The display label: `YYYY-MM`, `YYYY-qN` or `YYYY`.
    pub open spec fn label_spec(self) -> Seq<char> {
        let y = padded(self.year as int, 4);
        match self.group {
            GroupBy::Month => y + seq!['-'] + zero_pad(digits(self.sub as nat), 2),
            GroupBy::Quarter => y + seq!['-', 'q'] + digits(self.sub as nat),
            GroupBy::Year => y,
        }
    }

    pub fn label(&self) -> (r: String)
        ensures
            r@ == self.label_spec(),
    {
        let mut out = String::new();
        push_padded(&mut out, self.year as i64, 4);
        match self.group {
            GroupBy::Month => {
                proof {
                    reveal_strlit("-");
                }
                out.append("-");
                push_zero_padded(&mut out, self.sub as u64, 2);
            },
            GroupBy::Quarter => {
                proof {
                    reveal_strlit("-q");
                }
                out.append("-q");
                push_zero_padded(&mut out, self.sub as u64, 0);
            },
            GroupBy::Year => {},
        }
        assert(out@ =~= self.label_spec());
        out
    }

    /// Whether `self` comes strictly before `other`.
    pub fn precedes(&self, other: &Period) -> (r: bool)
        ensures
            r == period_lt(*self, *other),
    {
        let ra: u8 = match self.group {
            GroupBy::Month => 0,
            GroupBy::Quarter => 1,
            GroupBy::Year => 2,
        };
        let rb: u8 = match other.group {
            GroupBy::Month => 0,
            GroupBy::Quarter => 1,
            GroupBy::Year => 2,
        };
        self.year < other.year || (self.year == other.year && (self.sub < other.sub || (self.sub
            == other.sub && ra < rb)))
    }
}

pub fn by_month(date: CalendarDate) -> (r: Period)
    requires
        date.wf(),
    ensures
        r == period_of(date, GroupBy::Month),
        r.wf(),
{
    Period { group: GroupBy::Month, year: date.year, sub: date.month }
}

pub fn by_quarter(date: CalendarDate) -> (r: Period)
    requires
        date.wf(),
    ensures
        r == period_of(date, GroupBy::Quarter),
        r.wf(),
{
    Period { group: GroupBy::Quarter, year: date.year, sub: (date.month - 1) / 3 + 1 }
}

pub fn by_year(date: CalendarDate) -> (r: Period)
    requires
        date.wf(),
    ensures
        r == period_of(date, GroupBy::Year),
        r.wf(),
{
    Period { group: GroupBy::Year, year: date.year, sub: 0 }
}

/// The period of `date` under `group_by`. Every valid date has exactly one,
/// so this never fails.
pub fn period_from_date(group_by: GroupBy, date: CalendarDate) -> (r: Period)
    requires
        date.wf(),
    ensures
        r == period_of(date, group_by),
        r.wf(),
        r.group == group_by,
{
    match group_by {
        GroupBy::Year => by_year(date),
        GroupBy::Quarter => by_quarter(date),
        GroupBy::Month => by_month(date),
    }
}

/// The granularity that a command-line word names; anything else than
/// `year` or `quarter` means months.
pub open spec fn group_named(s: Seq<char>) -> GroupBy {
    if s == seq!['y', 'e', 'a', 'r'] {
        GroupBy::Year
    } else if s == seq!['q', 'u', 'a', 'r', 't', 'e', 'r'] {
        GroupBy::Quarter
    } else {
        GroupBy::Month
    }
}

pub fn group_by(group: String) -> (r: GroupBy)
    ensures
        r == group_named(group@),
{
    proof {
        reveal_strlit("year");
        reveal_strlit("quarter");
    }
    let year = "year";
    let quarter = "quarter";
    assert(year@ =~= seq!['y', 'e', 'a', 'r']);
    assert(quarter@ =~= seq!['q', 'u', 'a', 'r', 't', 'e', 'r']);
    if text_eq(group.as_str(), year) {
        GroupBy::Year
    } else if text_eq(group.as_str(), quarter) {
        GroupBy::Quarter
    } else {
        GroupBy::Month
    }
}

/// Within one year, a later date never falls in an earlier period, under
/// every granularity.
pub proof fn lemma_derive_monotonic(d1: CalendarDate, d2: CalendarDate, g: GroupBy)
    requires
        d1.wf(),
        d2.wf(),
        d1.year == d2.year,
        d1.before(d2),
    ensures
        period_le(period_of(d1, g), period_of(d2, g)),
{
}

/// Every valid date falls in one well-formed period of the chosen
/// granularity, and the same date always in the same one.
pub proof fn lemma_derive_total(d: CalendarDate, e: CalendarDate, g: GroupBy)
    requires
        d.wf(),
        e.wf(),
        d == e,
    ensures
        period_of(d, g).wf(),
        period_of(d, g).group == g,
        period_of(d, g) == period_of(e, g),
{
}

/// `a` comes no later than `b` in lexicographic order of character codes.
pub open spec fn lex_le(a: Seq<char>, b: Seq<char>) -> bool
    decreases a.len(),
{
    if a.len() == 0 {
        true
    } else if b.len() == 0 {
        false
    } else if (a[0] as u32) < (b[0] as u32) {
        true
    } else if a[0] == b[0] {
        lex_le(a.drop_first(), b.drop_first())
    } else {
        false
    }
}

proof fn lemma_lex_le_common_prefix(p: Seq<char>, a: Seq<char>, b: Seq<char>)
    ensures
        lex_le(p + a, p + b) == lex_le(a, b),
    decreases p.len(),
{
    if p.len() > 0 {
        assert((p + a).drop_first() =~= p.drop_first() + a);
        assert((p + b).drop_first() =~= p.drop_first() + b);
        lemma_lex_le_common_prefix(p.drop_first(), a, b);
    }
}

proof fn lemma_lex_le_refl(a: Seq<char>)
    ensures
        lex_le(a, a),
    decreases a.len(),
{
    if a.len() > 0 {
        lemma_lex_le_refl(a.drop_first());
    }
}

proof fn lemma_digit_char_monotonic(a: nat, b: nat)
    requires
        a < b < 10,
    ensures
        (digit_char(a) as u32) < (digit_char(b) as u32),
{
}

/// The two characters of a month number, as the label writes it.
proof fn lemma_two_digits(m: nat)
    requires
        1 <= m <= 12,
    ensures
        zero_pad(digits(m), 2) == seq![digit_char(m / 10), digit_char(m % 10)],
{
    if m < 10 {
        assert(digits(m) == seq![digit_char(m)]);
        assert(zero_pad(digits(m), 2) =~= seq![digit_char(0), digit_char(m)]);
    } else {
        assert(digits(m / 10) == seq![digit_char(m / 10)]);
        assert(digits(m) =~= seq![digit_char(m / 10), digit_char(m % 10)]);
    }
}

/// Within one year, a later date never has a label that sorts before the
/// label of an earlier one, under every granularity: the labels order as
/// the periods do.
pub proof fn lemma_derive_labels_ordered(d1: CalendarDate, d2: CalendarDate, g: GroupBy)
    requires
        d1.wf(),
        d2.wf(),
        d1.year == d2.year,
        d1.before(d2),
    ensures
        lex_le(period_of(d1, g).label_spec(), period_of(d2, g).label_spec()),
{
    let p1 = period_of(d1, g);
    let p2 = period_of(d2, g);
    let y = padded(d1.year as int, 4);
    match g {
        GroupBy::Month => {
            let (m1, m2) = (d1.month as nat, d2.month as nat);
            lemma_two_digits(m1);
            lemma_two_digits(m2);
            let t1 = seq!['-', digit_char(m1 / 10), digit_char(m1 % 10)];
            let t2 = seq!['-', digit_char(m2 / 10), digit_char(m2 % 10)];
            assert(p1.label_spec() =~= y + t1);
            assert(p2.label_spec() =~= y + t2);
            lemma_lex_le_common_prefix(y, t1, t2);
            assert(t1.drop_first() =~= seq![digit_char(m1 / 10), digit_char(m1 % 10)]);
            assert(t2.drop_first() =~= seq![digit_char(m2 / 10), digit_char(m2 % 10)]);
            let u1 = t1.drop_first();
            let u2 = t2.drop_first();
            assert(t1[0] == t2[0]);
            assert(lex_le(t1, t2) == lex_le(u1, u2));
            assert(m1 <= m2);
            if m1 / 10 < m2 / 10 {
                lemma_digit_char_monotonic(m1 / 10, m2 / 10);
                assert((u1[0] as u32) < (u2[0] as u32));
                assert(lex_le(u1, u2));
            } else {
                assert(m1 / 10 == m2 / 10);
                assert(u1[0] == u2[0]);
                let v1 = u1.drop_first();
                let v2 = u2.drop_first();
                assert(v1 =~= seq![digit_char(m1 % 10)]);
                assert(v2 =~= seq![digit_char(m2 % 10)]);
                assert(lex_le(u1, u2) == lex_le(v1, v2));
                if m1 % 10 < m2 % 10 {
                    lemma_digit_char_monotonic(m1 % 10, m2 % 10);
                    assert((v1[0] as u32) < (v2[0] as u32));
                    assert(lex_le(v1, v2));
                } else {
                    assert(m1 == m2);
                    lemma_lex_le_refl(v1);
                }
            }
        },
        GroupBy::Quarter => {
            let (q1, q2) = (p1.sub as nat, p2.sub as nat);
            assert(1 <= q1 <= q2 <= 4);
            assert(digits(q1) == seq![digit_char(q1)]);
            assert(digits(q2) == seq![digit_char(q2)]);
            let t1 = seq!['-', 'q', digit_char(q1)];
            let t2 = seq!['-', 'q', digit_char(q2)];
            assert(p1.label_spec() =~= y + t1);
            assert(p2.label_spec() =~= y + t2);
            lemma_lex_le_common_prefix(y, t1, t2);
            lemma_lex_le_common_prefix(seq!['-', 'q'], seq![digit_char(q1)], seq![digit_char(q2)]);
            assert(seq!['-', 'q'] + seq![digit_char(q1)] =~= t1);
            assert(seq!['-', 'q'] + seq![digit_char(q2)] =~= t2);
            if q1 < q2 {
                lemma_digit_char_monotonic(q1, q2);
            } else {
                lemma_lex_le_refl(seq![digit_char(q1)]);
            }
        },
        GroupBy::Year => {
            lemma_lex_le_refl(y);
        },
    }
}

} // verus!
