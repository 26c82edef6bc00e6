use money_manager::ledger::{CategoryTotals, Ledger};
use money_manager::naming::{filename_from_indices, generate_random_filename, CHARSET};
use money_manager::period::{by_month, group_by, period_from_date, CalendarDate, GroupBy, Period};
use money_manager::report::{draw, draw_images, plot, LineStyle, Variant};
use money_manager::series::{is_regular_category, is_spending_category, mean_in_thousands, y};
use money_manager::sheet::{
    find_columns, read_row, read_worksheet, Cell, Columns, FieldError, MyCustomError, TxType,
    Worksheet,
};
use money_manager::text::{fix_label, text_eq};
use money_manager::window::{last_n_groups, worksheet_data_to_periods};

fn text(s: &str) -> Cell {
    Cell::Text(s.to_string())
}

fn header() -> Vec<Cell> {
    vec![text("Период"), text("Категория"), text("Доход/Расход"), text("RUB")]
}

fn row(date: &str, category: &str, kind: &str, hundredths: i64) -> Vec<Cell> {
    vec![text(date), text(category), text(kind), Cell::Number(hundredths)]
}

fn sheet(name: &str, rows: Vec<Vec<Cell>>) -> Worksheet {
    Worksheet { name: name.to_string(), rows }
}

fn month(year: i32, m: u32) -> Period {
    Period { group: GroupBy::Month, year, sub: m }
}

fn date(year: i32, month: u32, day: u32) -> CalendarDate {
    CalendarDate { year, month, day }
}

/// The totals of a ledger as (category, sorted (label, total)) pairs, in
/// category order.
fn dump(l: &Ledger) -> Vec<(String, Vec<(String, i128)>)> {
    let mut out = Vec::new();
    for c in &l.categories {
        let mut t: Vec<(String, i128)> = c.totals.iter().map(|(p, v)| (p.label(), *v)).collect();
        t.sort();
        out.push((c.category.clone(), t));
    }
    out
}

fn category(name: &str, totals: Vec<(Period, i128)>) -> CategoryTotals {
    CategoryTotals { category: name.to_string(), totals }
}

#[test]
fn period_labels_are_zero_padded() {
    let d = date(2023, 1, 15);
    assert_eq!(period_from_date(GroupBy::Month, d).label(), "2023-01");
    assert_eq!(period_from_date(GroupBy::Quarter, d).label(), "2023-q1");
    assert_eq!(period_from_date(GroupBy::Year, d).label(), "2023");
    assert_eq!(period_from_date(GroupBy::Quarter, date(2023, 12, 31)).label(), "2023-q4");
    assert_eq!(period_from_date(GroupBy::Month, date(987, 11, 2)).label(), "0987-11");
    assert_eq!(period_from_date(GroupBy::Year, date(-5, 3, 1)).label(), "-005");
}

#[test]
fn quarters_split_the_year_in_three_month_blocks() {
    let q: Vec<u32> = (1..=12).map(|m| period_from_date(GroupBy::Quarter, date(2022, m, 1)).sub).collect();
    assert_eq!(q, vec![1, 1, 1, 2, 2, 2, 3, 3, 3, 4, 4, 4]);
}

#[test]
fn later_dates_of_a_year_never_fall_in_earlier_periods() {
    for g in [GroupBy::Month, GroupBy::Quarter, GroupBy::Year] {
        let a = period_from_date(g, date(2021, 2, 28));
        let b = period_from_date(g, date(2021, 11, 1));
        assert!(!b.precedes(&a));
        assert!(a.label() <= b.label());
    }
}

#[test]
fn derive_is_deterministic() {
    let d = date(2020, 2, 29);
    assert_eq!(by_month(d), by_month(d));
    assert_eq!(period_from_date(GroupBy::Quarter, d), period_from_date(GroupBy::Quarter, d));
}

#[test]
fn group_names() {
    assert_eq!(group_by("year".to_string()), GroupBy::Year);
    assert_eq!(group_by("quarter".to_string()), GroupBy::Quarter);
    assert_eq!(group_by("month".to_string()), GroupBy::Month);
    assert_eq!(group_by("weekly".to_string()), GroupBy::Month);
}

#[test]
fn labels_escape_spaces() {
    assert_eq!(fix_label(&"Все траты".to_string()), "Все&nbsp;траты");
    assert_eq!(fix_label(&"a  b".to_string()), "a&nbsp;&nbsp;b");
    assert_eq!(fix_label(&"".to_string()), "");
    assert!(text_eq("abc", "abc"));
    assert!(!text_eq("abc", "abd"));
}

#[test]
fn error_messages() {
    assert_eq!(MyCustomError::OpenError.message(), "Can't open file");
    assert_eq!(MyCustomError::OtherError.message(), "Other error");
}

#[test]
fn header_columns_are_found_in_any_order() {
    let h = vec![text("RUB"), Cell::Other, text("Категория"), text("Период"), text("Доход/Расход")];
    assert_eq!(find_columns(&h), Some(Columns { period: 3, category: 2, tx_type: 4, value: 0 }));
    let missing = vec![text("Период"), text("Категория"), text("Доход/Расход")];
    assert_eq!(find_columns(&missing), None);
}

#[test]
fn rows_are_read_field_by_field() {
    let cols = Columns { period: 0, category: 1, tx_type: 2, value: 3 };
    let f = read_row(&cols, &row("05.03.2022", "Food", "Расход", 12345)).unwrap();
    assert_eq!(f.period, date(2022, 3, 5));
    assert_eq!(f.category, "Food");
    assert_eq!(f.tx_type, TxType::Outcome);
    assert_eq!(f.value, 12345);
    let g = read_row(&cols, &row("29.02.2024", "Salary", "Доход", 1)).unwrap();
    assert_eq!(g.period, date(2024, 2, 29));
    assert_eq!(g.tx_type, TxType::Income);

    assert_eq!(read_row(&cols, &row("2022-03-05", "Food", "Расход", 1)).err(), Some(FieldError::Period));
    assert_eq!(read_row(&cols, &row("31.02.2022", "Food", "Расход", 1)).err(), Some(FieldError::Period));
    let no_category = vec![text("05.03.2022"), Cell::Number(7), text("Расход"), Cell::Number(1)];
    assert_eq!(read_row(&cols, &no_category).err(), Some(FieldError::Category));
    assert_eq!(read_row(&cols, &row("05.03.2022", "Food", "Перевод", 1)).err(), Some(FieldError::TxType));
    let no_kind = vec![text("05.03.2022"), text("Food"), Cell::Other, Cell::Number(1)];
    assert_eq!(read_row(&cols, &no_kind).err(), Some(FieldError::TxType));
    let no_value = vec![text("05.03.2022"), text("Food"), text("Расход"), text("12")];
    assert_eq!(read_row(&cols, &no_value).err(), Some(FieldError::Value));
    let short = vec![text("05.03.2022"), text("Food"), text("Расход")];
    assert_eq!(read_row(&cols, &short).err(), Some(FieldError::Value));
}

#[test]
fn ledger_of_food_rows_by_month() {
    let s = sheet(
        "2023",
        vec![
            header(),
            row("01.01.2023", "Food", "Расход", 30000),
            row("15.01.2023", "Food", "Расход", 10000),
            row("01.02.2023", "Food", "Доход", 5000),
        ],
    );
    let l = read_worksheet(&s, GroupBy::Month).unwrap();
    assert_eq!(
        dump(&l),
        vec![("Food".to_string(), vec![("2023-01".to_string(), 40000), ("2023-02".to_string(), -5000)])]
    );
}

#[test]
fn ledger_ignores_row_order() {
    let rows = vec![
        row("01.01.2023", "Food", "Расход", 30000),
        row("15.01.2023", "Rent", "Расход", 10000),
        row("01.04.2023", "Food", "Доход", 5000),
        row("03.05.2023", "Food", "Расход", 700),
    ];
    let mut forward = vec![header()];
    forward.extend(rows.iter().map(|r| r.iter().map(clone_cell).collect()));
    let mut backward = vec![header()];
    backward.extend(rows.iter().rev().map(|r| r.iter().map(clone_cell).collect()));
    let a = read_worksheet(&sheet("a", forward), GroupBy::Quarter).unwrap();
    let b = read_worksheet(&sheet("b", backward), GroupBy::Quarter).unwrap();
    let mut da = dump(&a);
    let mut db = dump(&b);
    da.sort();
    db.sort();
    assert_eq!(da, db);
    assert_eq!(
        da,
        vec![
            ("Food".to_string(), vec![("2023-q1".to_string(), 30000), ("2023-q2".to_string(), -4300)]),
            ("Rent".to_string(), vec![("2023-q1".to_string(), 10000)]),
        ]
    );
}

fn clone_cell(c: &Cell) -> Cell {
    match c {
        Cell::Text(s) => Cell::Text(s.clone()),
        Cell::Number(v) => Cell::Number(*v),
        Cell::Other => Cell::Other,
    }
}

#[test]
fn malformed_row_is_skipped() {
    let s = sheet(
        "x",
        vec![
            header(),
            row("01.01.2023", "Food", "Расход", 30000),
            row("not a date", "Food", "Расход", 99999),
            row("15.01.2023", "Food", "Расход", 10000),
        ],
    );
    let l = read_worksheet(&s, GroupBy::Month).unwrap();
    assert_eq!(dump(&l), vec![("Food".to_string(), vec![("2023-01".to_string(), 40000)])]);
}

#[test]
fn sheet_without_value_header_fails_alone() {
    let good = sheet("good", vec![header(), row("01.01.2023", "Food", "Расход", 30000)]);
    let bad = sheet(
        "bad",
        vec![
            vec![text("Период"), text("Категория"), text("Доход/Расход"), text("EUR")],
            row("01.01.2023", "Food", "Расход", 30000),
        ],
    );
    assert_eq!(read_worksheet(&bad, GroupBy::Month).err(), Some(MyCustomError::OtherError));
    let empty = sheet("empty", vec![]);
    assert_eq!(read_worksheet(&empty, GroupBy::Month).err(), Some(MyCustomError::OtherError));

    let report = draw_images(&vec![good, bad], "month".to_string(), 12);
    assert_eq!(report.failures, vec![(1, MyCustomError::OtherError)]);
    assert_eq!(report.ledgers.len(), 1);
    assert_eq!(report.charts.len(), 2);
}

#[test]
fn totals_beyond_i64_fail_the_sheet() {
    let s = sheet(
        "big",
        vec![
            header(),
            row("01.01.2023", "Food", "Расход", i64::MAX),
            row("02.01.2023", "Food", "Расход", 1),
        ],
    );
    assert_eq!(read_worksheet(&s, GroupBy::Month).err(), Some(MyCustomError::OtherError));
}

#[test]
fn window_drops_the_latest_period() {
    let u: Vec<Period> = (1..=5).map(|m| month(2023, m)).collect();
    assert_eq!(last_n_groups(u.clone(), 12), u[..4].to_vec());
    assert_eq!(last_n_groups(u.clone(), 2), vec![month(2023, 3), month(2023, 4)]);
    assert_eq!(last_n_groups(u.clone(), 0), Vec::<Period>::new());
    assert_eq!(last_n_groups(vec![month(2023, 1)], 12), Vec::<Period>::new());
    assert_eq!(last_n_groups(Vec::new(), 12), Vec::<Period>::new());
    assert_eq!(last_n_groups(u.clone(), usize::MAX).len(), 4);
}

#[test]
fn universe_is_sorted_and_distinct() {
    let a = Ledger {
        categories: vec![
            category("Food", vec![(month(2023, 3), 1), (month(2022, 12), 2)]),
            category("Rent", vec![(month(2023, 1), 1)]),
        ],
    };
    let b = Ledger { categories: vec![category("Car", vec![(month(2023, 1), 5), (month(2023, 2), 5)])] };
    let u = worksheet_data_to_periods(&vec![a, b]);
    assert_eq!(u, vec![month(2022, 12), month(2023, 1), month(2023, 2), month(2023, 3)]);
}

#[test]
fn series_are_zero_filled() {
    let c = category("Food", vec![(month(2023, 2), 700), (month(2023, 5), -3)]);
    let w = vec![month(2023, 1), month(2023, 2), month(2023, 3), month(2023, 5)];
    assert_eq!(y(&c, &w), vec![0, 700, 0, -3]);
    assert_eq!(y(&c, &Vec::new()), Vec::<i128>::new());
}

#[test]
fn one_large_outlier_is_not_regular() {
    let v: Vec<i128> = vec![100000, 100000, 100000, 1200000];
    assert!(is_spending_category(&v));
    assert!(!is_regular_category(&v));
    let steady: Vec<i128> = vec![100000, 90000, 110000, 100000];
    assert!(is_regular_category(&steady));
}

#[test]
fn median_is_exact_for_even_counts() {
    assert!(is_spending_category(&vec![-1, 2]));
    assert!(!is_spending_category(&vec![-3, 1, 2, -1]));
    assert!(!is_spending_category(&vec![0, 0, 0]));
    assert!(!is_spending_category(&vec![]));
    assert!(is_spending_category(&vec![5, -100, 7]));
    assert!(!is_regular_category(&vec![]));
    assert!(!is_regular_category(&vec![-100, -100]));
    assert!(!is_spending_category(&vec![-100, -100]));
}

#[test]
fn mean_is_shown_in_truncated_thousands() {
    assert_eq!(mean_in_thousands(&vec![375000, 0]), 1);
    assert_eq!(mean_in_thousands(&vec![-375000, 0]), -1);
    assert_eq!(mean_in_thousands(&vec![99999]), 0);
    assert_eq!(mean_in_thousands(&vec![]), 0);
    assert_eq!(mean_in_thousands(&vec![2500000, 2500000, 2500000]), 25);
}

#[test]
fn total_is_the_sum_of_the_shown_series() {
    let w = vec![month(2023, 1), month(2023, 2), month(2023, 3)];
    let l = Ledger {
        categories: vec![
            category("A", vec![(month(2023, 1), 100), (month(2023, 3), 200)]),
            category("B", vec![(month(2023, 1), 50), (month(2023, 2), 50), (month(2023, 3), 50)]),
            category("Salary", vec![(month(2023, 1), -900), (month(2023, 2), -900)]),
        ],
    };
    let chart = plot(Variant::AllSpendings, &l, &w);
    assert_eq!(chart.title, "All&nbsp;spendings");
    assert_eq!(chart.x_axis, w);
    assert_eq!(chart.series.len(), 3);
    assert_eq!(chart.series[0].values, vec![100, 0, 200]);
    assert_eq!(chart.series[0].label, "A&nbsp;(avg:&nbsp;0k)");
    assert_eq!(chart.series[1].values, vec![50, 50, 50]);
    assert_eq!(chart.series[2].values, vec![150, 50, 250]);
    assert_eq!(chart.series[2].label, "Total");
    assert_eq!(chart.series[2].style, LineStyle::LongDashDot);
    assert_eq!(chart.series[0].style, LineStyle::Solid);

    let regular = plot(Variant::RegularSpendings, &l, &w);
    assert_eq!(regular.title, "Regular&nbsp;spendings");
    assert_eq!(regular.series.len(), 3);
    assert_eq!(regular.series[0].values, vec![100, 0, 200]);
    assert_eq!(regular.series[2].values, vec![150, 50, 250]);

    let with_outlier = Ledger {
        categories: vec![
            category("B", vec![(month(2023, 1), 50), (month(2023, 2), 50), (month(2023, 3), 50)]),
            category("Insurance", vec![(month(2023, 1), 10), (month(2023, 2), 10), (month(2023, 3), 9000)]),
        ],
    };
    let all = plot(Variant::AllSpendings, &with_outlier, &w);
    assert_eq!(all.series.len(), 3);
    assert_eq!(all.series[2].values, vec![60, 60, 9050]);
    let regular = plot(Variant::RegularSpendings, &with_outlier, &w);
    assert_eq!(regular.series.len(), 2);
    assert_eq!(regular.series[1].values, vec![50, 50, 50]);
}

#[test]
fn labels_carry_the_mean_in_thousands() {
    let w = vec![month(2023, 1), month(2023, 2)];
    let l = Ledger { categories: vec![category("Big rent", vec![(month(2023, 1), 5000000), (month(2023, 2), 5000000)])] };
    let chart = plot(Variant::AllSpendings, &l, &w);
    assert_eq!(chart.series[0].label, "Big&nbsp;rent&nbsp;(avg:&nbsp;50k)");
}

#[test]
fn draw_makes_two_charts_per_ledger_over_one_window() {
    let s1 = sheet(
        "one",
        vec![
            header(),
            row("01.01.2023", "Food", "Расход", 30000),
            row("01.02.2023", "Food", "Расход", 30000),
            row("01.03.2023", "Food", "Расход", 30000),
        ],
    );
    let s2 = sheet("two", vec![header(), row("01.04.2023", "Rent", "Расход", 100)]);
    let l1 = read_worksheet(&s1, GroupBy::Month).unwrap();
    let l2 = read_worksheet(&s2, GroupBy::Month).unwrap();
    let charts = draw(&vec![l1, l2], 12);
    assert_eq!(charts.len(), 4);
    for c in &charts {
        assert_eq!(c.x_axis, vec![month(2023, 1), month(2023, 2), month(2023, 3)]);
    }
    assert_eq!(charts[0].series[0].values, vec![30000, 30000, 30000]);
    assert_eq!(charts[2].series.len(), 1);
    assert_eq!(charts[2].series[0].values, vec![0, 0, 0]);

    let report = draw_images(&vec![s1, s2], "quarter".to_string(), 12);
    assert!(report.failures.is_empty());
    assert_eq!(report.charts.len(), 4);
    assert_eq!(report.charts[0].x_axis, vec![Period { group: GroupBy::Quarter, year: 2023, sub: 1 }]);
    assert_eq!(report.charts[0].series[0].values, vec![90000]);
}

#[test]
fn random_names_use_the_charset() {
    let a = generate_random_filename(16);
    assert_eq!(a.chars().count(), 16);
    assert!(a.chars().all(|c| CHARSET.contains(c)));
    assert_eq!(generate_random_filename(0), "");
    let b = generate_random_filename(16);
    assert_ne!(a, b);
}

#[test]
fn names_follow_the_drawn_indices() {
    assert_eq!(filename_from_indices(&vec![0, 25, 26, 51, 52, 61]), "AZaz09");
    assert_eq!(filename_from_indices(&vec![]), "");
    assert_eq!(filename_from_indices(&vec![7, 7]), "HH");
}

#[test]
fn categories_are_kept_in_ascending_order() {
    let s = sheet(
        "x",
        vec![
            header(),
            row("01.01.2023", "Rent", "Расход", 100),
            row("01.01.2023", "Food", "Расход", 100),
            row("01.01.2023", "Car", "Расход", 100),
            row("01.02.2023", "Food", "Расход", 100),
            row("01.03.2023", "Food", "Расход", 100),
        ],
    );
    let l = read_worksheet(&s, GroupBy::Month).unwrap();
    let names: Vec<String> = l.categories.iter().map(|c| c.category.clone()).collect();
    assert_eq!(names, vec!["Car", "Food", "Rent"]);
    let w = vec![month(2023, 1), month(2023, 2)];
    let chart = plot(Variant::AllSpendings, &l, &w);
    let labels: Vec<String> = chart.series.iter().map(|s| s.label.clone()).collect();
    assert_eq!(
        labels,
        vec!["Car&nbsp;(avg:&nbsp;0k)", "Food&nbsp;(avg:&nbsp;0k)", "Rent&nbsp;(avg:&nbsp;0k)", "Total"]
    );
}

#[test]
fn outlier_category_is_only_in_the_all_spendings_chart() {
    let mut rows = vec![header()];
    for (d, v) in [("01.01.2023", 100000), ("01.02.2023", 100000), ("01.03.2023", 100000), ("01.04.2023", 1200000)] {
        rows.push(row(d, "Insurance", "Расход", v));
    }
    rows.push(row("01.05.2023", "Food", "Расход", 1));
    let l = read_worksheet(&sheet("x", rows), GroupBy::Month).unwrap();
    let charts = draw(&vec![l], 12);
    assert_eq!(charts.len(), 2);
    assert_eq!(charts[0].series[0].label, "Insurance&nbsp;(avg:&nbsp;3k)");
    assert_eq!(charts[0].series[0].values, vec![100000, 100000, 100000, 1200000]);
    assert_eq!(charts[1].series.len(), 1);
    assert_eq!(charts[1].series[0].label, "Total");
    assert_eq!(charts[1].series[0].values, vec![0, 0, 0, 0]);
}
