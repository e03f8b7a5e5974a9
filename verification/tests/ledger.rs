use rust_insight::ledger::{monthly_totals, Date, MonthTotal, Record};

fn rec(year: i32, month: u32, day: u32, usage: &str, amount: i32) -> Record {
    Record { date: Date { year, month, day }, usage: usage.to_string(), amount }
}

#[test]
fn totals_per_month() {
    let records = vec![
        rec(2024, 1, 3, "salary", 3000),
        rec(2024, 1, 20, "rent", -1200),
        rec(2024, 2, 1, "food", -300),
        rec(2023, 1, 5, "gift", 50),
        rec(2024, 2, 28, "refund", 20),
    ];
    let totals = monthly_totals(&records).unwrap();
    assert_eq!(
        totals,
        vec![
            MonthTotal { year: 2024, month: 1, total: 1800 },
            MonthTotal { year: 2024, month: 2, total: -280 },
            MonthTotal { year: 2023, month: 1, total: 50 },
        ]
    );
}

#[test]
fn no_records_no_totals() {
    assert!(monthly_totals(&vec![]).unwrap().is_empty());
}

#[test]
fn running_total_overflow_gives_none() {
    let records = vec![rec(2024, 3, 1, "a", i32::MAX), rec(2024, 3, 2, "b", 1)];
    assert_eq!(monthly_totals(&records), None);
    // Totals of different months do not add up.
    let records = vec![rec(2024, 3, 1, "a", i32::MAX), rec(2024, 4, 2, "b", 1)];
    assert_eq!(monthly_totals(&records).unwrap().len(), 2);
    // A running total that leaves the range fails even if later entries bring it back.
    let records = vec![rec(2024, 3, 1, "a", i32::MAX), rec(2024, 3, 2, "b", 1), rec(2024, 3, 3, "c", -5)];
    assert_eq!(monthly_totals(&records), None);
}

#[test]
fn grand_total_is_sum_of_amounts() {
    let records = vec![rec(2024, 1, 3, "x", 7), rec(2024, 2, 1, "y", -3), rec(2024, 1, 9, "z", 10)];
    let totals = monthly_totals(&records).unwrap();
    let grand: i64 = totals.iter().map(|t| t.total as i64).sum();
    assert_eq!(grand, 14);
}
