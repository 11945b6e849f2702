use lending_ledger::calendar::{Date, DateTime};
use lending_ledger::database::Database;
use lending_ledger::models::{
    amounts_within_bounds, DeadlineChange, Direction, InputError, MoneyType, Person, PersonStats,
    SortBy, Transaction, MAX_AMOUNT,
};

fn noon(year: i32, month: u8, day: u8) -> DateTime {
    DateTime::new(Date::new(year, month, day), 12, 0, 0)
}

#[test]
fn currency_symbols() {
    assert_eq!(MoneyType::GEL.symbol(), "₾");
    assert_eq!(MoneyType::USD.symbol(), "$");
    assert_eq!(MoneyType::EUR.symbol(), "€");
    assert_eq!(MoneyType::GBP.symbol(), "£");
    assert_eq!(MoneyType::RUB.symbol(), "₽");
    assert_eq!(MoneyType::Other.symbol(), "¤");
}

#[test]
fn currency_codes_and_places() {
    let all = [
        (MoneyType::GEL, "GEL"),
        (MoneyType::USD, "USD"),
        (MoneyType::EUR, "EUR"),
        (MoneyType::GBP, "GBP"),
        (MoneyType::RUB, "RUB"),
        (MoneyType::Other, "Other"),
    ];
    for (place, (currency, code)) in all.iter().enumerate() {
        assert_eq!(currency.code(), *code);
        assert_eq!(currency.position(), place);
        assert_eq!(MoneyType::from_position(place), *currency);
    }
    assert_eq!(MoneyType::from_position(6), MoneyType::Other);
}

#[test]
fn directions_that_open_a_debt() {
    assert!(Direction::Lent.opens_debt());
    assert!(Direction::Borrowed.opens_debt());
    assert!(!Direction::Returned.opens_debt());
    assert!(!Direction::Repaid.opens_debt());
}

#[test]
fn new_transaction_takes_the_name_without_blanks() {
    let t = Transaction::new(
        "  Ana Maria\t\n",
        1250,
        MoneyType::EUR,
        Direction::Lent,
        noon(2024, 2, 29),
        Some(Date::new(2024, 3, 31)),
        Some("attachments/a.png".to_string()),
    )
    .unwrap();
    assert_eq!(t.person.name, "Ana Maria");
    assert_eq!(t.amount, 1250);
    assert_eq!(t.money_type, MoneyType::EUR);
    assert_eq!(t.direction, Direction::Lent);
    assert_eq!(t.datetime, noon(2024, 2, 29));
    assert_eq!(t.expected_return_date, Some(Date::new(2024, 3, 31)));
    assert_eq!(t.attachment_path.as_deref(), Some("attachments/a.png"));
    assert!(t.deadline_changes.is_empty());
    assert!(t.is_well_formed());
}

#[test]
fn new_transaction_keeps_a_deadline_only_for_a_loan() {
    let expected = Some(Date::new(2024, 3, 31));
    for (direction, kept) in [
        (Direction::Lent, expected),
        (Direction::Borrowed, expected),
        (Direction::Returned, None),
        (Direction::Repaid, None),
    ] {
        let t = Transaction::new("Ana", 1, MoneyType::USD, direction, noon(2024, 1, 1), expected, None)
            .unwrap();
        assert_eq!(t.expected_return_date, kept);
    }
    let unchecked = Transaction::new(
        "Ana",
        1,
        MoneyType::USD,
        Direction::Returned,
        noon(2024, 1, 1),
        Some(Date::new(2024, 2, 30)),
        None,
    );
    assert!(unchecked.is_ok());
}

#[test]
fn new_transaction_refuses_bad_input() {
    let make = |name: &str, amount: u64, moment: DateTime, expected: Option<Date>| {
        Transaction::new(name, amount, MoneyType::USD, Direction::Lent, moment, expected, None)
            .map(|_| ())
    };
    let fine = noon(2024, 1, 1);
    assert_eq!(make("", 1, fine, None), Err(InputError::EmptyName));
    assert_eq!(make(" \u{a0}\u{3000}\t", 1, fine, None), Err(InputError::EmptyName));
    assert_eq!(make("Ana", 0, fine, None), Err(InputError::NonPositiveAmount));
    assert_eq!(make("Ana", MAX_AMOUNT + 1, fine, None), Err(InputError::AmountTooLarge));
    assert_eq!(make("Ana", 1, noon(2023, 2, 29), None), Err(InputError::InvalidDate));
    assert_eq!(
        make("Ana", 1, DateTime::new(Date::new(2024, 1, 1), 24, 0, 0), None),
        Err(InputError::InvalidDate)
    );
    assert_eq!(
        make("Ana", 1, fine, Some(Date::new(2024, 4, 31))),
        Err(InputError::InvalidDate)
    );
    assert_eq!(make("", 0, noon(2023, 2, 29), None), Err(InputError::EmptyName));
    assert_eq!(make("Ana", MAX_AMOUNT, fine, None), Ok(()));
}

#[test]
fn calendar_dates() {
    assert!(Date::new(2024, 2, 29).is_valid());
    assert!(!Date::new(2023, 2, 29).is_valid());
    assert!(!Date::new(1900, 2, 29).is_valid());
    assert!(Date::new(2000, 2, 29).is_valid());
    assert!(Date::new(-4, 2, 29).is_valid());
    assert!(!Date::new(2024, 0, 1).is_valid());
    assert!(!Date::new(2024, 13, 1).is_valid());
    assert!(!Date::new(2024, 1, 0).is_valid());
    assert!(!Date::new(2024, 4, 31).is_valid());
    assert!(Date::new(2024, 12, 31).is_valid());
    assert!(Date::new(262142, 12, 31).is_valid());
    assert!(!Date::new(262143, 1, 1).is_valid());
    assert!(Date::new(-262143, 1, 1).is_valid());
    assert!(!Date::new(-262144, 12, 31).is_valid());
}

#[test]
fn day_numbers() {
    assert_eq!(Date::new(1, 1, 1).to_day_number(), Some(1));
    assert_eq!(Date::new(1970, 1, 1).to_day_number(), Some(719_163));
    assert_eq!(Date::new(0, 1, 1).to_day_number(), Some(-365));
    assert_eq!(Date::new(2024, 2, 30).to_day_number(), None);
    assert_eq!(Date::new(262143, 1, 1).to_day_number(), None);
    let a = Date::new(2024, 2, 28).to_day_number().unwrap();
    let b = Date::new(2024, 3, 1).to_day_number().unwrap();
    assert_eq!(b - a, 2);
}

#[test]
fn order_keys_follow_the_calendar() {
    let moments = [
        DateTime::new(Date::new(-5, 12, 31), 23, 59, 59),
        DateTime::new(Date::new(2023, 12, 31), 23, 59, 59),
        DateTime::new(Date::new(2024, 1, 1), 0, 0, 0),
        DateTime::new(Date::new(2024, 1, 1), 0, 0, 1),
        DateTime::new(Date::new(2024, 1, 1), 0, 1, 0),
        DateTime::new(Date::new(2024, 1, 1), 1, 0, 0),
        DateTime::new(Date::new(2024, 1, 2), 0, 0, 0),
        DateTime::new(Date::new(2024, 2, 1), 0, 0, 0),
    ];
    for pair in moments.windows(2) {
        assert!(pair[0].order_key() < pair[1].order_key());
        assert!(pair[0].date.order_key() <= pair[1].date.order_key());
    }
    assert_eq!(Date::new(0, 0, 0).order_key(), 0x8000_0000u128 << 16);
    assert_eq!(
        DateTime::new(Date::new(0, 1, 2), 3, 4, 5).order_key(),
        ((((((0x8000_0000u128 << 8) + 1) << 8) + 2 << 8) + 3 << 8) + 4 << 8) + 5
    );
}

#[test]
fn moment_from_hour_and_minute() {
    let day = Date::new(2024, 5, 6);
    assert_eq!(DateTime::at(day, 23, 59), DateTime::new(day, 23, 59, 0));
    assert_eq!(DateTime::at(day, 0, 0), DateTime::new(day, 0, 0, 0));
    assert_eq!(DateTime::at(day, 24, 10), DateTime::new(day, 0, 0, 0));
    assert_eq!(DateTime::at(day, 10, 60), DateTime::new(day, 0, 0, 0));
    assert!(DateTime::new(day, 23, 59, 59).is_valid());
    assert!(!DateTime::new(day, 23, 59, 60).is_valid());
    assert!(!DateTime::new(day, 23, 60, 0).is_valid());
}

#[test]
fn ledger_grows_by_appending() {
    let mut db = Database::new();
    assert!(db.transactions.is_empty());
    assert!(Database::default().transactions.is_empty());
    let first = Transaction::new("Ana", 1, MoneyType::USD, Direction::Lent, noon(2024, 1, 2), None, None)
        .unwrap();
    let second = Transaction::new("Ben", 2, MoneyType::EUR, Direction::Repaid, noon(2024, 1, 1), None, None)
        .unwrap();
    db.add_transaction(first);
    db.add_transaction(second);
    assert_eq!(db.transactions.len(), 2);
    assert_eq!(db.transactions[0].person.name, "Ana");
    assert_eq!(db.transactions[1].person.name, "Ben");
    assert!(db.is_well_formed());
    db.transactions[1].amount = 0;
    assert!(!db.is_well_formed());
}

#[test]
fn deadline_edit_is_noted_in_the_history() {
    let mut db = Database::new();
    let first = Date::new(2024, 2, 1);
    let second = Date::new(2024, 3, 1);
    db.add_transaction(
        Transaction::new("Ana", 1, MoneyType::USD, Direction::Lent, noon(2024, 1, 1), Some(first), None)
            .unwrap(),
    );
    db.add_transaction(
        Transaction::new("Ana", 1, MoneyType::USD, Direction::Returned, noon(2024, 1, 1), None, None)
            .unwrap(),
    );
    let at = noon(2024, 1, 15);
    let change = db.edit_expected_return_date(0, second, at);
    assert_eq!(
        change,
        Some(DeadlineChange { old_date: first, new_date: second, changed_at: at })
    );
    assert_eq!(db.transactions[0].expected_return_date, Some(second));
    assert_eq!(db.transactions[0].deadline_changes, vec![change.unwrap()]);
    assert_eq!(db.edit_expected_return_date(0, second, at), None);
    assert_eq!(db.edit_expected_return_date(1, second, at), None);
    assert_eq!(db.edit_expected_return_date(2, second, at), None);
    assert_eq!(db.edit_expected_return_date(0, Date::new(2024, 2, 30), at), None);
    assert_eq!(db.edit_expected_return_date(0, first, noon(2024, 13, 1)), None);
    assert_eq!(db.transactions[0].deadline_changes.len(), 1);
    let later = noon(2024, 1, 16);
    assert!(db.edit_expected_return_date(0, first, later).is_some());
    assert_eq!(db.transactions[0].deadline_changes.len(), 2);
    assert_eq!(db.transactions[0].deadline_changes[1].old_date, second);
    assert!(db.is_well_formed());
}

#[test]
fn attachment_can_be_set_and_cleared() {
    let mut db = Database::new();
    db.add_transaction(
        Transaction::new("Ana", 1, MoneyType::USD, Direction::Lent, noon(2024, 1, 1), None, None)
            .unwrap(),
    );
    assert!(db.set_attachment(0, Some("attachments/x.png".to_string())));
    assert_eq!(db.transactions[0].attachment_path.as_deref(), Some("attachments/x.png"));
    assert!(db.set_attachment(0, None));
    assert_eq!(db.transactions[0].attachment_path, None);
    assert!(!db.set_attachment(1, None));
}

#[test]
fn copies_are_equal_to_their_source() {
    let mut db = Database::new();
    db.add_transaction(
        Transaction::new(
            "Ana",
            5,
            MoneyType::GBP,
            Direction::Borrowed,
            noon(2024, 1, 1),
            Some(Date::new(2024, 2, 1)),
            Some("p".to_string()),
        )
        .unwrap(),
    );
    db.edit_expected_return_date(0, Date::new(2024, 2, 2), noon(2024, 1, 2));
    let copy = db.transactions[0].clone();
    let source = &db.transactions[0];
    assert_eq!(copy.person.name, source.person.name);
    assert_eq!(copy.amount, source.amount);
    assert_eq!(copy.money_type, source.money_type);
    assert_eq!(copy.direction, source.direction);
    assert_eq!(copy.datetime, source.datetime);
    assert_eq!(copy.expected_return_date, source.expected_return_date);
    assert_eq!(copy.attachment_path, source.attachment_path);
    assert_eq!(copy.deadline_changes, source.deadline_changes);
    assert_eq!(source.person.clone().name, "Ana");
}

#[test]
fn empty_stats_and_sort_orders() {
    let stats = PersonStats::default();
    assert_eq!((stats.lent, stats.borrowed, stats.returned, stats.repaid), (0, 0, 0, 0));
    assert_eq!(stats.outstanding, 0);
    assert!(stats.currencies.is_empty());
    assert_ne!(SortBy::DateNewest, SortBy::DateOldest);
    assert_eq!(SortBy::Person, SortBy::Person);
}

#[test]
fn input_errors_in_words() {
    assert_eq!(InputError::EmptyName.describe(), "a name is required");
    assert_eq!(InputError::NonPositiveAmount.describe(), "the amount must be positive");
    assert_eq!(InputError::AmountTooLarge.describe(), "the amount is too large");
    assert_eq!(InputError::InvalidDate.describe(), "the date does not exist");
}

#[test]
fn amounts_are_bounded() {
    let mut db = Database::new();
    assert!(amounts_within_bounds(&db.transactions));
    db.add_transaction(
        Transaction::new("Ana", MAX_AMOUNT, MoneyType::USD, Direction::Lent, noon(2024, 1, 1), None, None)
            .unwrap(),
    );
    assert!(amounts_within_bounds(&db.transactions));
    db.transactions[0].amount = MAX_AMOUNT + 1;
    assert!(!amounts_within_bounds(&db.transactions));
    db.transactions[0].amount = 0;
    assert!(amounts_within_bounds(&db.transactions));
    assert!(!db.is_well_formed());
}

#[test]
fn people_are_equal_by_name() {
    let ana = Person { name: "Ana".to_string() };
    assert!(ana == Person { name: "Ana".to_string() });
    assert!(ana != Person { name: "ana".to_string() });
}

#[test]
fn ledger_answers_without_conditions() {
    let mut db = Database::new();
    db.add_transaction(
        Transaction::new("Ana", 100, MoneyType::USD, Direction::Lent, noon(2024, 1, 1), None, None)
            .unwrap(),
    );
    db.add_transaction(
        Transaction::new("Ana", 100, MoneyType::USD, Direction::Returned, noon(2024, 1, 2), None, None)
            .unwrap(),
    );
    assert_eq!(db.balances().unwrap().get(MoneyType::USD), 0);
    assert_eq!(db.person_stats().unwrap()[0].stats.outstanding, 0);
    assert_eq!(db.balance_timeline().unwrap()[MoneyType::USD.position()].len(), 2);
    assert_eq!(db.paid_back(), vec![true, false]);
    db.transactions[0].amount = MAX_AMOUNT + 1;
    assert!(db.balances().is_none());
    assert!(db.person_stats().is_none());
    assert!(db.balance_timeline().is_none());
    assert_eq!(db.paid_back(), vec![false, false]);
}

#[test]
fn the_second_and_the_day_after() {
    let day = Date::new(2024, 12, 31);
    assert_eq!(day.following(), Some(Date::new(2025, 1, 1)));
    assert_eq!(Date::new(2024, 2, 28).following(), Some(Date::new(2024, 2, 29)));
    assert_eq!(Date::new(2024, 2, 29).following(), Some(Date::new(2024, 3, 1)));
    assert_eq!(Date::new(1900, 2, 28).following(), Some(Date::new(1900, 3, 1)));
    assert_eq!(Date::new(2024, 6, 30).following(), Some(Date::new(2024, 7, 1)));
    assert_eq!(Date::new(2024, 6, 15).following(), Some(Date::new(2024, 6, 16)));
    assert_eq!(Date::new(-1, 12, 31).following(), Some(Date::new(0, 1, 1)));
    assert_eq!(Date::new(262142, 12, 31).following(), None);
    assert_eq!(Date::new(2024, 6, 31).following(), None);
    assert_eq!(
        DateTime::new(day, 23, 59, 59).following_second(),
        Some(DateTime::new(Date::new(2025, 1, 1), 0, 0, 0))
    );
    assert_eq!(
        DateTime::new(day, 22, 59, 59).following_second(),
        Some(DateTime::new(day, 23, 0, 0))
    );
    assert_eq!(
        DateTime::new(day, 22, 58, 59).following_second(),
        Some(DateTime::new(day, 22, 59, 0))
    );
    assert_eq!(
        DateTime::new(day, 0, 0, 0).following_second(),
        Some(DateTime::new(day, 0, 0, 1))
    );
    assert_eq!(DateTime::new(day, 24, 0, 0).following_second(), None);
    assert_eq!(
        DateTime::new(Date::new(262142, 12, 31), 23, 59, 59).following_second(),
        None
    );
}

fn leap(year: i64) -> bool {
    year.rem_euclid(4) == 0 && (year.rem_euclid(100) != 0 || year.rem_euclid(400) == 0)
}

fn counted(year: i64, month: u8, day: u8) -> i64 {
    let years = year - 1;
    let mut days =
        365 * years + years.div_euclid(4) - years.div_euclid(100) + years.div_euclid(400);
    for before in 1..month {
        days += match before {
            2 => {
                if leap(year) {
                    29
                } else {
                    28
                }
            }
            4 | 6 | 9 | 11 => 30,
            _ => 31,
        };
    }
    days + day as i64
}

#[test]
fn day_numbers_count_the_days_of_the_calendar() {
    let mut years: Vec<i32> = (-410..=410).collect();
    years.extend(1890..=2110);
    years.extend([-262143, -262142, -100000, -4001, -4000, 9999, 10000, 99999, 262141, 262142]);
    for year in years {
        let mut last: Option<i32> = None;
        for month in 0..=13u8 {
            for day in 0..=32u8 {
                let date = Date::new(year, month, day);
                let number = date.to_day_number();
                assert_eq!(number.is_some(), date.is_valid(), "{:?}", date);
                if let Some(number) = number {
                    assert_eq!(number as i64, counted(year as i64, month, day), "{:?}", date);
                    if let Some(last) = last {
                        assert_eq!(number, last + 1, "{:?}", date);
                    }
                    last = Some(number);
                }
            }
        }
        assert_eq!(last.is_some(), true);
        let first = Date::new(year, 1, 1).to_day_number().unwrap();
        assert_eq!(last.unwrap() - first + 1, if leap(year as i64) { 366 } else { 365 });
    }
}
