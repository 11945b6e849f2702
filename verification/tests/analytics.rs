use lending_ledger::analytics::{
    average_return_time, balances_by_currency, calculate_avg_return_time,
    calculate_paid_back_transactions, calculate_person_stats, calculate_promise_keeping_rate,
    generate_balance_timeline, moments, sorted_places, stamps, totals_by_direction, ReturnLatency,
    Stamp, TimelinePoint,
};
use lending_ledger::calendar::{Date, DateTime};
use lending_ledger::models::{Direction, MoneyType, SortBy, Transaction};

fn on(year: i32, month: u8, day: u8) -> DateTime {
    DateTime::new(Date::new(year, month, day), 12, 0, 0)
}

fn entry(
    name: &str,
    amount: u64,
    currency: MoneyType,
    direction: Direction,
    moment: DateTime,
) -> Transaction {
    Transaction::new(name, amount, currency, direction, moment, None, None).unwrap()
}

fn loan(name: &str, amount: u64, moment: DateTime, expected: Date) -> Transaction {
    Transaction::new(
        name,
        amount,
        MoneyType::USD,
        Direction::Lent,
        moment,
        Some(expected),
        None,
    )
    .unwrap()
}

#[test]
fn reconciliation_depends_on_order() {
    let ledger = vec![
        entry("X", 100, MoneyType::USD, Direction::Lent, on(2024, 1, 1)),
        entry("X", 50, MoneyType::USD, Direction::Lent, on(2024, 1, 2)),
        entry("X", 120, MoneyType::USD, Direction::Returned, on(2024, 1, 3)),
    ];
    assert_eq!(calculate_paid_back_transactions(&ledger), vec![true, false, false]);
}

#[test]
fn reconciliation_stops_at_first_uncovered_loan() {
    let ledger = vec![
        entry("X", 100, MoneyType::USD, Direction::Lent, on(2024, 1, 1)),
        entry("X", 500, MoneyType::USD, Direction::Lent, on(2024, 1, 2)),
        entry("X", 10, MoneyType::USD, Direction::Lent, on(2024, 1, 3)),
        entry("X", 120, MoneyType::USD, Direction::Returned, on(2024, 1, 4)),
    ];
    assert_eq!(
        calculate_paid_back_transactions(&ledger),
        vec![true, false, false, false]
    );
}

#[test]
fn reconciliation_keeps_pairs_apart() {
    let ledger = vec![
        entry("X", 100, MoneyType::USD, Direction::Lent, on(2024, 1, 1)),
        entry("X", 100, MoneyType::EUR, Direction::Lent, on(2024, 1, 1)),
        entry("Y", 100, MoneyType::USD, Direction::Lent, on(2024, 1, 1)),
        entry("Y", 30, MoneyType::USD, Direction::Borrowed, on(2024, 1, 2)),
        entry("X", 100, MoneyType::EUR, Direction::Returned, on(2024, 1, 3)),
        entry("Y", 70, MoneyType::USD, Direction::Returned, on(2024, 1, 3)),
        entry("Y", 60, MoneyType::USD, Direction::Repaid, on(2024, 1, 4)),
    ];
    assert_eq!(
        calculate_paid_back_transactions(&ledger),
        vec![false, true, true, true, false, false, false]
    );
}

#[test]
fn reconciliation_of_an_exactly_covered_loan() {
    let ledger = vec![
        entry("X", 120, MoneyType::USD, Direction::Returned, on(2024, 1, 1)),
        entry("X", 120, MoneyType::USD, Direction::Lent, on(2024, 1, 2)),
        entry("X", 1, MoneyType::USD, Direction::Lent, on(2024, 1, 3)),
    ];
    assert_eq!(calculate_paid_back_transactions(&ledger), vec![false, true, false]);
    assert_eq!(calculate_paid_back_transactions(&Vec::new()), Vec::<bool>::new());
}

#[test]
fn balances_follow_the_sign_rule() {
    let ledger = vec![
        entry("A", 100, MoneyType::USD, Direction::Lent, on(2024, 1, 1)),
        entry("A", 40, MoneyType::USD, Direction::Returned, on(2024, 1, 2)),
        entry("B", 70, MoneyType::USD, Direction::Borrowed, on(2024, 1, 3)),
        entry("B", 20, MoneyType::USD, Direction::Repaid, on(2024, 1, 4)),
        entry("B", 5, MoneyType::GEL, Direction::Repaid, on(2024, 1, 5)),
    ];
    let balances = balances_by_currency(&ledger);
    assert_eq!(balances.get(MoneyType::USD), -100 + 40 + 70 - 20);
    assert_eq!(balances.get(MoneyType::GEL), -5);
    assert_eq!(balances.get(MoneyType::EUR), 0);
    assert_eq!(balances.get(MoneyType::GBP), 0);
    assert_eq!(balances.get(MoneyType::RUB), 0);
    assert_eq!(balances.get(MoneyType::Other), 0);
}

#[test]
fn totals_add_up_by_direction() {
    let ledger = vec![
        entry("A", 100, MoneyType::USD, Direction::Lent, on(2024, 1, 1)),
        entry("A", 1, MoneyType::EUR, Direction::Lent, on(2024, 1, 1)),
        entry("A", 40, MoneyType::USD, Direction::Returned, on(2024, 1, 2)),
        entry("B", 70, MoneyType::USD, Direction::Borrowed, on(2024, 1, 3)),
        entry("B", 20, MoneyType::USD, Direction::Repaid, on(2024, 1, 4)),
    ];
    let totals = totals_by_direction(&ledger);
    assert_eq!(totals.lent, 101);
    assert_eq!(totals.returned, 40);
    assert_eq!(totals.borrowed, 70);
    assert_eq!(totals.repaid, 20);
}

#[test]
fn balances_of_the_largest_amounts() {
    let largest = lending_ledger::models::MAX_AMOUNT;
    let ledger = vec![
        entry("A", largest, MoneyType::USD, Direction::Lent, on(2024, 1, 1)),
        entry("A", largest, MoneyType::USD, Direction::Repaid, on(2024, 1, 1)),
    ];
    assert_eq!(
        balances_by_currency(&ledger).get(MoneyType::USD),
        -2 * (largest as i128)
    );
}

#[test]
fn person_stats_group_by_counterparty() {
    let ledger = vec![
        entry("Ana", 100, MoneyType::USD, Direction::Lent, on(2024, 1, 1)),
        entry("Ben", 70, MoneyType::EUR, Direction::Borrowed, on(2024, 1, 2)),
        entry("Ana", 40, MoneyType::USD, Direction::Returned, on(2024, 1, 3)),
        entry("Ben", 20, MoneyType::EUR, Direction::Repaid, on(2024, 1, 4)),
        entry("Ana", 30, MoneyType::GEL, Direction::Lent, on(2024, 1, 5)),
        entry("Ana", 5, MoneyType::USD, Direction::Borrowed, on(2024, 1, 6)),
    ];
    let people = calculate_person_stats(&ledger);
    assert_eq!(people.len(), 2);
    assert_eq!(people[0].name, "Ana");
    assert_eq!(people[1].name, "Ben");
    let ana = &people[0].stats;
    assert_eq!((ana.lent, ana.borrowed, ana.returned, ana.repaid), (130, 5, 40, 0));
    assert_eq!(ana.outstanding, (130 - 40) - (5 - 0));
    assert_eq!(ana.currencies, vec![MoneyType::USD, MoneyType::GEL]);
    assert_eq!(ana.lent_transactions.len(), 2);
    assert_eq!(ana.lent_transactions[0].amount, 100);
    assert_eq!(ana.lent_transactions[1].amount, 30);
    assert_eq!(ana.return_transactions.len(), 1);
    assert_eq!(ana.return_transactions[0].amount, 40);
    let ben = &people[1].stats;
    assert_eq!((ben.lent, ben.borrowed, ben.returned, ben.repaid), (0, 70, 0, 20));
    assert_eq!(ben.outstanding, -50);
    assert_eq!(ben.currencies, vec![MoneyType::EUR]);
    assert!(ben.lent_transactions.is_empty());
}

#[test]
fn person_stats_count_deadline_changes() {
    let mut db = lending_ledger::database::Database::new();
    db.add_transaction(loan("Ana", 10, on(2024, 1, 1), Date::new(2024, 2, 1)));
    db.add_transaction(loan("Ben", 10, on(2024, 1, 1), Date::new(2024, 2, 1)));
    assert!(db
        .edit_expected_return_date(0, Date::new(2024, 3, 1), on(2024, 1, 15))
        .is_some());
    assert!(db
        .edit_expected_return_date(0, Date::new(2024, 4, 1), on(2024, 1, 20))
        .is_some());
    let people = calculate_person_stats(&db.transactions);
    assert_eq!(people[0].stats.deadline_changes_count, 2);
    assert_eq!(people[1].stats.deadline_changes_count, 0);
    assert!(calculate_person_stats(&Vec::new()).is_empty());
}

#[test]
fn promise_is_kept_on_the_expected_day() {
    let expected = Date::new(2024, 2, 1);
    let lent = vec![loan("X", 100, on(2024, 1, 1), expected)];
    let on_time = vec![entry("X", 1, MoneyType::USD, Direction::Returned, on(2024, 2, 1))];
    let late = vec![entry("X", 100, MoneyType::USD, Direction::Returned, on(2024, 2, 2))];
    assert_eq!(calculate_promise_keeping_rate(&lent, &on_time), Some((1, 1)));
    assert_eq!(calculate_promise_keeping_rate(&lent, &late), Some((0, 1)));
}

#[test]
fn promise_is_judged_by_the_first_return_after_the_loan() {
    let lent = vec![
        loan("X", 100, on(2024, 1, 10), Date::new(2024, 1, 20)),
        loan("X", 100, on(2024, 1, 12), Date::new(2024, 1, 13)),
        entry("X", 100, MoneyType::USD, Direction::Lent, on(2024, 1, 1)),
    ];
    let returned = vec![
        entry("X", 5, MoneyType::USD, Direction::Returned, on(2024, 3, 1)),
        entry("X", 5, MoneyType::USD, Direction::Returned, on(2024, 1, 15)),
        entry("X", 5, MoneyType::USD, Direction::Returned, on(2024, 1, 5)),
    ];
    assert_eq!(calculate_promise_keeping_rate(&lent, &returned), Some((1, 2)));
}

#[test]
fn promise_rate_needs_a_loan_with_a_deadline() {
    let lent = vec![entry("X", 100, MoneyType::USD, Direction::Lent, on(2024, 1, 1))];
    let returned = vec![entry("X", 100, MoneyType::USD, Direction::Returned, on(2024, 1, 5))];
    assert_eq!(calculate_promise_keeping_rate(&lent, &returned), None);
    assert_eq!(calculate_promise_keeping_rate(&Vec::new(), &returned), None);
    let promised = vec![loan("X", 100, on(2024, 1, 1), Date::new(2024, 2, 1))];
    assert_eq!(calculate_promise_keeping_rate(&promised, &Vec::new()), Some((0, 1)));
}

#[test]
fn average_return_time_without_returns_is_not_computable() {
    let lent = vec![entry("X", 100, MoneyType::USD, Direction::Lent, on(2024, 1, 1))];
    assert_eq!(calculate_avg_return_time(&lent, &Vec::new()), None);
    let returned = vec![entry("X", 100, MoneyType::USD, Direction::Returned, on(2024, 1, 5))];
    assert_eq!(calculate_avg_return_time(&Vec::new(), &returned), None);
}

#[test]
fn average_return_time_counts_calendar_days() {
    let lent = vec![entry("X", 100, MoneyType::USD, Direction::Lent, on(2024, 1, 1))];
    let returned = vec![entry("X", 100, MoneyType::USD, Direction::Returned, on(2024, 3, 1))];
    assert_eq!(
        calculate_avg_return_time(&lent, &returned),
        Some(ReturnLatency { total_days: 60, matched: 1 })
    );
    let next_year = vec![entry("X", 100, MoneyType::USD, Direction::Returned, on(2025, 3, 1))];
    assert_eq!(
        calculate_avg_return_time(&lent, &next_year),
        Some(ReturnLatency { total_days: 425, matched: 1 })
    );
}

#[test]
fn average_return_time_takes_the_latest_loan_before_each_return() {
    let lent = vec![
        entry("X", 100, MoneyType::USD, Direction::Lent, on(2024, 1, 1)),
        entry("X", 100, MoneyType::USD, Direction::Lent, on(2024, 1, 11)),
        entry("X", 100, MoneyType::USD, Direction::Lent, on(2024, 6, 1)),
    ];
    let returned = vec![
        entry("X", 1, MoneyType::USD, Direction::Returned, on(2023, 12, 31)),
        entry("X", 1, MoneyType::USD, Direction::Returned, on(2024, 1, 5)),
        entry("X", 1, MoneyType::USD, Direction::Returned, on(2024, 1, 21)),
    ];
    assert_eq!(
        calculate_avg_return_time(&lent, &returned),
        Some(ReturnLatency { total_days: 4 + 10, matched: 2 })
    );
    let early = vec![entry("X", 1, MoneyType::USD, Direction::Returned, on(2023, 1, 1))];
    assert_eq!(calculate_avg_return_time(&lent, &early), None);
}

#[test]
fn average_return_time_is_none_for_a_day_that_does_not_exist() {
    let mut odd = entry("X", 100, MoneyType::USD, Direction::Lent, on(2024, 1, 1));
    odd.datetime.date = Date::new(2023, 2, 29);
    let returned = vec![entry("X", 100, MoneyType::USD, Direction::Returned, on(2024, 3, 1))];
    assert_eq!(calculate_avg_return_time(&vec![odd], &returned), None);
}

#[test]
fn average_return_time_from_stamps() {
    let lent = vec![
        Stamp { moment: 10, day: 100 },
        Stamp { moment: 20, day: 200 },
        Stamp { moment: 20, day: 201 },
    ];
    let returned = vec![
        Stamp { moment: 5, day: 50 },
        Stamp { moment: 10, day: 110 },
        Stamp { moment: 25, day: 250 },
    ];
    assert_eq!(
        average_return_time(&lent, &returned),
        Some(ReturnLatency { total_days: 10 + 49, matched: 2 })
    );
    assert_eq!(average_return_time(&lent, &Vec::new()), None);
}

#[test]
fn timeline_runs_in_order_of_time() {
    let ledger = vec![
        entry("A", 100, MoneyType::USD, Direction::Lent, on(2024, 1, 3)),
        entry("A", 30, MoneyType::EUR, Direction::Borrowed, on(2024, 1, 2)),
        entry("A", 40, MoneyType::USD, Direction::Returned, on(2024, 1, 1)),
        entry("A", 7, MoneyType::USD, Direction::Repaid, on(2024, 1, 3)),
    ];
    let timeline = generate_balance_timeline(&ledger);
    assert_eq!(timeline.len(), 6);
    assert_eq!(
        timeline[MoneyType::USD.position()],
        vec![
            TimelinePoint { index: 0, balance: 40 },
            TimelinePoint { index: 2, balance: -60 },
            TimelinePoint { index: 3, balance: -67 },
        ]
    );
    assert_eq!(
        timeline[MoneyType::EUR.position()],
        vec![TimelinePoint { index: 1, balance: 30 }]
    );
    assert!(timeline[MoneyType::GEL.position()].is_empty());
}

#[test]
fn timeline_ends_at_the_balance() {
    let ledger = vec![
        entry("A", 100, MoneyType::USD, Direction::Lent, on(2024, 5, 3)),
        entry("B", 30, MoneyType::EUR, Direction::Borrowed, on(2024, 1, 2)),
        entry("A", 40, MoneyType::USD, Direction::Returned, on(2023, 1, 1)),
        entry("C", 7, MoneyType::RUB, Direction::Repaid, on(2024, 1, 3)),
        entry("C", 9, MoneyType::USD, Direction::Borrowed, on(2022, 1, 3)),
    ];
    let timeline = generate_balance_timeline(&ledger);
    let balances = balances_by_currency(&ledger);
    for place in 0..6 {
        let currency = MoneyType::from_position(place);
        match timeline[place].last() {
            Some(point) => assert_eq!(point.balance, balances.get(currency)),
            None => assert_eq!(balances.get(currency), 0),
        }
    }
}

#[test]
fn lists_are_ordered_as_asked() {
    let ledger = vec![
        entry("ben", 30, MoneyType::USD, Direction::Lent, on(2024, 1, 2)),
        entry("Ana", 10, MoneyType::USD, Direction::Lent, on(2024, 1, 3)),
        entry("cy", 30, MoneyType::USD, Direction::Lent, on(2024, 1, 1)),
        entry("ben", 20, MoneyType::USD, Direction::Lent, on(2024, 1, 3)),
        entry("Ana", 30, MoneyType::USD, Direction::Lent, on(2024, 1, 2)),
    ];
    assert_eq!(sorted_places(&ledger, SortBy::DateNewest), vec![1, 3, 0, 4, 2]);
    assert_eq!(sorted_places(&ledger, SortBy::DateOldest), vec![2, 0, 4, 1, 3]);
    assert_eq!(sorted_places(&ledger, SortBy::AmountHighest), vec![0, 2, 4, 3, 1]);
    assert_eq!(sorted_places(&ledger, SortBy::AmountLowest), vec![1, 3, 0, 2, 4]);
    assert_eq!(sorted_places(&ledger, SortBy::Person), vec![1, 4, 0, 3, 2]);
    assert_eq!(sorted_places(&Vec::new(), SortBy::Person), Vec::<usize>::new());
}

#[test]
fn moments_and_stamps_of_transactions() {
    let ledger = vec![
        entry("A", 1, MoneyType::USD, Direction::Lent, on(1970, 1, 1)),
        entry("A", 1, MoneyType::USD, Direction::Lent, on(1970, 1, 2)),
    ];
    let keys = moments(&ledger);
    assert_eq!(keys, vec![on(1970, 1, 1).order_key(), on(1970, 1, 2).order_key()]);
    assert_eq!(
        stamps(&ledger),
        Some(vec![
            Stamp { moment: keys[0], day: 719_163 },
            Stamp { moment: keys[1], day: 719_164 },
        ])
    );
}
