use tommaso_pfm::{
    parse, spending_by, spending_month_average, spending_per_category, spending_per_month,
    spending_per_month_per_category, Breakdown, Grouping, Timestamp, Totals, Transaction,
};

fn on(year: i32, month: u32, day: u32, category: &str, amount: i64) -> Transaction {
    Transaction {
        description: format!("{} on {}-{}-{}", category, year, month, day),
        date: Timestamp { year, month, day, hour: 12, minute: 0, second: 0 },
        category: category.to_string(),
        amount,
    }
}

fn entries(totals: &Totals) -> Vec<(String, i128)> {
    let mut out = Vec::new();
    for i in 0..totals.len() {
        out.push((totals.key(i).clone(), totals.total(i)));
    }
    out
}

fn pairs(values: &[(&str, i128)]) -> Vec<(String, i128)> {
    values.iter().map(|(k, v)| (k.to_string(), *v)).collect()
}

fn sum(totals: &Totals) -> i128 {
    let mut sum = 0;
    for i in 0..totals.len() {
        sum += totals.total(i);
    }
    sum
}

fn mixed() -> Vec<Transaction> {
    vec![
        on(2023, 1, 5, "Food", -2000),
        on(2023, 1, 20, "Rent", -50000),
        on(2023, 2, 1, "Food", -1234),
        on(2023, 2, 14, "Gifts", -4999),
        on(2023, 2, 28, "Salary", 250000),
        on(2023, 1, 31, "Salary", 250000),
        on(2022, 12, 24, "Gifts", -10001),
        on(2023, 12, 24, "Gifts", -1),
    ]
}

#[test]
fn example_rows_give_the_example_summaries() {
    let content = b"A;2023-01-05T00:00:00Z;Food;-20.0\nB;2023-01-20T00:00:00Z;Food;-30.0\nC;2023-02-01T00:00:00Z;Rent;-500.0\n";
    let (transactions, malformed) = parse(content);
    assert_eq!(malformed, 0);
    let by_category = spending_per_category(&transactions);
    assert_eq!(entries(&by_category), pairs(&[("Food", -5000), ("Rent", -50000)]));
    assert_eq!(by_category.get("Food").unwrap() as f64 / 100.0, -50.0);
    assert_eq!(by_category.get("Rent").unwrap() as f64 / 100.0, -500.0);
    let by_month = spending_per_month(&transactions);
    assert_eq!(entries(&by_month), pairs(&[("2023-1", -5000), ("2023-2", -50000)]));
    assert_eq!(by_month.get("2023-1").unwrap() as f64 / 100.0, -50.0);
    assert_eq!(by_month.get("2023-2").unwrap() as f64 / 100.0, -500.0);
    assert_eq!(spending_month_average(&transactions), -27500);
    assert_eq!(spending_month_average(&transactions) as f64 / 100.0, -275.0);
}

#[test]
fn average_of_no_transactions_is_zero() {
    assert_eq!(spending_month_average(&[]), 0);
}

#[test]
fn average_is_per_month_and_not_per_transaction() {
    let transactions = vec![
        on(2023, 1, 1, "a", 10000),
        on(2023, 1, 2, "b", 10000),
        on(2023, 1, 3, "c", 10000),
        on(2023, 2, 1, "a", 10000),
    ];
    assert_eq!(spending_month_average(&transactions), 20000);
}

#[test]
fn average_rounds_toward_zero() {
    assert_eq!(spending_month_average(&[on(2023, 1, 1, "a", -1), on(2023, 2, 1, "a", 0)]), 0);
    assert_eq!(spending_month_average(&[on(2023, 1, 1, "a", -3), on(2023, 2, 1, "a", 0)]), -1);
    assert_eq!(spending_month_average(&[on(2023, 1, 1, "a", 3), on(2023, 2, 1, "a", 0)]), 1);
    assert_eq!(
        spending_month_average(&[
            on(2023, 1, 1, "a", 10000),
            on(2023, 2, 1, "a", 0),
            on(2023, 3, 1, "a", 0)
        ]),
        3333
    );
    assert_eq!(
        spending_month_average(&[
            on(2023, 1, 1, "a", -20000),
            on(2023, 2, 1, "a", 0),
            on(2023, 3, 1, "a", 0)
        ]),
        -6666
    );
}

#[test]
fn average_of_one_month_is_its_total() {
    assert_eq!(
        spending_month_average(&[on(2023, 1, 1, "a", -150), on(2023, 1, 9, "b", 25)]),
        -125
    );
}

#[test]
fn no_transactions_give_no_totals() {
    assert_eq!(spending_per_category(&[]).len(), 0);
    assert_eq!(spending_per_month(&[]).len(), 0);
    assert_eq!(spending_per_month_per_category(&[]).len(), 0);
    assert_eq!(spending_per_category(&[]).get("Food"), None);
}

#[test]
fn categories_are_compared_exactly() {
    let transactions = vec![
        on(2023, 1, 1, "Food", -100),
        on(2023, 1, 2, "food", -20),
        on(2023, 1, 3, "Food ", -3),
        on(2023, 1, 4, "Food", -4000),
    ];
    let totals = spending_per_category(&transactions);
    assert_eq!(entries(&totals), pairs(&[("Food", -4100), ("food", -20), ("Food ", -3)]));
    assert_eq!(totals.get("Food"), Some(-4100));
    assert_eq!(totals.get("food"), Some(-20));
    assert_eq!(totals.get("FOOD"), None);
}

#[test]
fn keys_come_in_the_order_of_their_first_occurrence() {
    let totals = spending_per_category(&mixed());
    assert_eq!(
        entries(&totals),
        pairs(&[("Food", -3234), ("Rent", -50000), ("Gifts", -15001), ("Salary", 500000)])
    );
    let months = spending_per_month(&mixed());
    assert_eq!(
        entries(&months),
        pairs(&[("2023-1", 198000), ("2023-2", 243767), ("2022-12", -10001), ("2023-12", -1)])
    );
}

#[test]
fn the_same_month_of_two_years_is_two_months() {
    let totals = spending_per_month(&[on(2022, 3, 1, "a", 1), on(2023, 3, 1, "a", 2)]);
    assert_eq!(entries(&totals), pairs(&[("2022-3", 1), ("2023-3", 2)]));
}

#[test]
fn category_totals_sum_to_the_sum_of_the_amounts() {
    let transactions = mixed();
    let all: i128 = transactions.iter().map(|t| t.amount as i128).sum();
    assert_eq!(all, 431765);
    assert_eq!(sum(&spending_per_category(&transactions)), all);
}

#[test]
fn month_totals_sum_to_the_sum_of_the_amounts() {
    let transactions = mixed();
    let all: i128 = transactions.iter().map(|t| t.amount as i128).sum();
    assert_eq!(sum(&spending_per_month(&transactions)), all);
}

#[test]
fn totals_of_all_months_and_categories_sum_to_the_sum_of_the_amounts() {
    let transactions = mixed();
    let all: i128 = transactions.iter().map(|t| t.amount as i128).sum();
    let breakdown = spending_per_month_per_category(&transactions);
    let mut flattened = 0;
    for i in 0..breakdown.len() {
        flattened += sum(breakdown.totals(i));
    }
    assert_eq!(flattened, all);
}

#[test]
fn categories_are_totalled_within_each_month() {
    let breakdown = spending_per_month_per_category(&mixed());
    assert_eq!(breakdown.len(), 4);
    assert_eq!(breakdown.month(0), "2023-1");
    assert_eq!(
        entries(breakdown.totals(0)),
        pairs(&[("Food", -2000), ("Rent", -50000), ("Salary", 250000)])
    );
    assert_eq!(breakdown.month(1), "2023-2");
    assert_eq!(
        entries(breakdown.totals(1)),
        pairs(&[("Food", -1234), ("Gifts", -4999), ("Salary", 250000)])
    );
    assert_eq!(breakdown.month(2), "2022-12");
    assert_eq!(entries(breakdown.totals(2)), pairs(&[("Gifts", -10001)]));
    assert_eq!(breakdown.month(3), "2023-12");
    assert_eq!(entries(breakdown.totals(3)), pairs(&[("Gifts", -1)]));
    let february = breakdown.get("2023-2").expect("a month of the input");
    assert_eq!(february.get("Gifts"), Some(-4999));
    assert_eq!(february.get("Rent"), None);
    assert!(breakdown.get("2023-3").is_none());
    assert!(breakdown.get("2023-02").is_none());
}

#[test]
fn example_rows_by_month_and_category() {
    let content = b"A;2023-01-05T00:00:00Z;Food;-20.0\nB;2023-01-20T00:00:00Z;Food;-30.0\nC;2023-02-01T00:00:00Z;Rent;-500.0\n";
    let (transactions, _) = parse(content);
    let breakdown = spending_per_month_per_category(&transactions);
    assert_eq!(breakdown.len(), 2);
    assert_eq!(breakdown.month(0), "2023-1");
    assert_eq!(entries(breakdown.totals(0)), pairs(&[("Food", -5000)]));
    assert_eq!(breakdown.month(1), "2023-2");
    assert_eq!(entries(breakdown.totals(1)), pairs(&[("Rent", -50000)]));
}

#[test]
fn grouping_by_month_uses_the_month_key() {
    let transaction = on(2023, 7, 4, "Food", 5);
    assert_eq!(Grouping::Month.key(&transaction), "2023-7");
    assert_eq!(Grouping::Category.key(&transaction), "Food");
    assert_eq!(transaction.month(), "2023-7");
    let transactions = vec![transaction];
    assert_eq!(entries(&spending_by(&transactions, Grouping::Month)), pairs(&[("2023-7", 5)]));
    assert_eq!(entries(&spending_by(&transactions, Grouping::Category)), pairs(&[("Food", 5)]));
}

#[test]
fn totals_do_not_overflow_at_the_ends_of_the_range() {
    let transactions = vec![
        on(2023, 1, 1, "a", i64::MAX),
        on(2023, 1, 2, "a", i64::MAX),
        on(2023, 2, 1, "b", i64::MIN),
        on(2023, 2, 2, "b", i64::MIN),
        on(2023, 2, 3, "b", i64::MIN),
    ];
    let totals = spending_per_category(&transactions);
    assert_eq!(totals.get("a"), Some(2 * (i64::MAX as i128)));
    assert_eq!(totals.get("b"), Some(3 * (i64::MIN as i128)));
    assert_eq!(
        spending_month_average(&transactions),
        (2 * (i64::MAX as i128) + 3 * (i64::MIN as i128)) / 2
    );
}

#[test]
fn totals_grow_by_adding() {
    let totals = Totals::new();
    assert_eq!(totals.len(), 0);
    let totals = totals.add("Food".to_string(), -2000);
    let totals = totals.add("Rent".to_string(), -50000);
    let totals = totals.add("Food".to_string(), -3000);
    assert_eq!(entries(&totals), pairs(&[("Food", -5000), ("Rent", -50000)]));
    assert_eq!(totals.position(&"Rent".to_string()), Some(1));
    assert_eq!(totals.position(&"rent".to_string()), None);
}

#[test]
fn a_copy_of_a_transaction_has_the_same_fields() {
    let first = on(2023, 7, 4, "Food", 5);
    let copy = first.clone();
    assert_eq!(copy.description, first.description);
    assert_eq!(copy.date, first.date);
    assert_eq!(copy.category, first.category);
    assert_eq!(copy.amount, first.amount);
}

#[test]
fn a_breakdown_grows_by_months() {
    let breakdown = Breakdown::new();
    assert_eq!(breakdown.len(), 0);
    let january = Totals::new().add("Food".to_string(), -5000);
    let february = Totals::new().add("Rent".to_string(), -50000);
    let breakdown = breakdown.with("2023-1".to_string(), january);
    let breakdown = breakdown.with("2023-2".to_string(), february);
    assert_eq!(breakdown.len(), 2);
    assert_eq!(breakdown.position(&"2023-2".to_string()), Some(1));
    assert_eq!(breakdown.position(&"2023-3".to_string()), None);
    assert_eq!(breakdown.month(1), "2023-2");
    assert_eq!(entries(breakdown.totals(1)), pairs(&[("Rent", -50000)]));
    assert_eq!(breakdown.get("2023-1").unwrap().get("Food"), Some(-5000));
}
