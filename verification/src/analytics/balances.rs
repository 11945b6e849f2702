use crate::analytics::totals::{lemma_total_step, total};
use crate::models::{amounts_fit, ledger_of, Direction, Entry, MoneyType, Transaction, MAX_AMOUNT};
use vstd::prelude::*;

verus! {

/// What an entry adds to the owner's balance in one currency.
pub open spec fn balance_weight(currency: MoneyType) -> spec_fn(Entry) -> int {
    |e: Entry|
        if e.money_type == currency {
            e.signed_amount()
        } else {
            0
        }
}

/// The owner's balance in one currency: what came in less what went out. A negative
/// balance means that, all counterparties together, the owner is owed money.
pub open spec fn balance_of(ledger: Seq<Entry>, currency: MoneyType) -> int {
    total(ledger, balance_weight(currency))
}

/// What an entry adds to the sum of all amounts that moved in one direction.
pub open spec fn direction_weight(direction: Direction) -> spec_fn(Entry) -> int {
    |e: Entry|
        if e.direction == direction {
            e.amount as int
        } else {
            0
        }
}

/// The sum of all amounts that moved in one direction, whatever the currency.
pub open spec fn direction_total(ledger: Seq<Entry>, direction: Direction) -> int {
    total(ledger, direction_weight(direction))
}

/// One signed total for each currency.
#[derive(Clone, Copy, Debug, PartialEq, Eq, Structural)]
pub struct CurrencyBalances {
    pub gel: i128,
    pub usd: i128,
    pub eur: i128,
    pub gbp: i128,
    pub rub: i128,
    pub other: i128,
}

impl CurrencyBalances {
    /// The total kept for one currency.
    pub open spec fn of(self, currency: MoneyType) -> int {
        match currency {
            MoneyType::GEL => self.gel as int,
            MoneyType::USD => self.usd as int,
            MoneyType::EUR => self.eur as int,
            MoneyType::GBP => self.gbp as int,
            MoneyType::RUB => self.rub as int,
            MoneyType::Other => self.other as int,
        }
    }

    pub fn zero() -> (balances: CurrencyBalances)
        ensures
            forall|c: MoneyType| #[trigger] balances.of(c) == 0,
    {
        CurrencyBalances { gel: 0, usd: 0, eur: 0, gbp: 0, rub: 0, other: 0 }
    }

    pub fn get(&self, currency: MoneyType) -> (value: i128)
        ensures
            value == self.of(currency),
    {
        match currency {
            MoneyType::GEL => self.gel,
            MoneyType::USD => self.usd,
            MoneyType::EUR => self.eur,
            MoneyType::GBP => self.gbp,
            MoneyType::RUB => self.rub,
            MoneyType::Other => self.other,
        }
    }

    /// The balances with `delta` added to the total of one currency.
    pub fn with_change(self, currency: MoneyType, delta: i128) -> (balances: CurrencyBalances)
        requires
            i128::MIN <= self.of(currency) + delta <= i128::MAX,
        ensures
            balances.of(currency) == self.of(currency) + delta,
            forall|c: MoneyType| c != currency ==> #[trigger] balances.of(c) == self.of(c),
    {
        let mut balances = self;
        match currency {
            MoneyType::GEL => balances.gel = self.gel + delta,
            MoneyType::USD => balances.usd = self.usd + delta,
            MoneyType::EUR => balances.eur = self.eur + delta,
            MoneyType::GBP => balances.gbp = self.gbp + delta,
            MoneyType::RUB => balances.rub = self.rub + delta,
            MoneyType::Other => balances.other = self.other + delta,
        }
        balances
    }
}

/// The amount of a transaction with the sign with which it enters the balance.
pub fn signed_amount(transaction: &Transaction) -> (value: i128)
    ensures
        value == transaction@.signed_amount(),
{
    match transaction.direction {
        Direction::Lent => -(transaction.amount as i128),
        Direction::Borrowed => transaction.amount as i128,
        Direction::Returned => transaction.amount as i128,
        Direction::Repaid => -(transaction.amount as i128),
    }
}

/// The owner's balance in each currency.
pub fn balances_by_currency(transactions: &Vec<Transaction>) -> (balances: CurrencyBalances)
    requires
        amounts_fit(ledger_of(transactions@)),
    ensures
        forall|c: MoneyType| #[trigger] balances.of(c) == balance_of(ledger_of(transactions@), c),
{
    let ghost ledger = ledger_of(transactions@);
    let mut balances = CurrencyBalances::zero();
    let mut i: usize = 0;
    while i < transactions.len()
        invariant
            i <= transactions.len(),
            ledger == ledger_of(transactions@),
            amounts_fit(ledger),
            forall|c: MoneyType| #[trigger] balances.of(c) == balance_of(ledger.take(i as int), c),
            forall|c: MoneyType| -i * MAX_AMOUNT <= #[trigger] balances.of(c) <= i * MAX_AMOUNT,
        decreases transactions.len() - i,
    {
        let transaction = &transactions[i];
        let delta = signed_amount(transaction);
        proof {
            assert(ledger[i as int].amount <= MAX_AMOUNT);
            assert forall|c: MoneyType|
                balance_of(ledger.take(i + 1), c) == balance_of(ledger.take(i as int), c)
                    + balance_weight(c)(ledger[i as int]) by {
                lemma_total_step(ledger, i as int, balance_weight(c));
            }
        }
        balances = balances.with_change(transaction.money_type, delta);
        i += 1;
    }
    proof {
        assert(ledger.take(i as int) =~= ledger);
    }
    balances
}

/// The sums of all amounts lent, borrowed, returned and repaid, whatever the currency.
#[derive(Clone, Copy, Debug, PartialEq, Eq, Structural)]
pub struct DirectionTotals {
    pub lent: u128,
    pub borrowed: u128,
    pub returned: u128,
    pub repaid: u128,
}

impl DirectionTotals {
    pub open spec fn of(self, direction: Direction) -> int {
        match direction {
            Direction::Lent => self.lent as int,
            Direction::Borrowed => self.borrowed as int,
            Direction::Returned => self.returned as int,
            Direction::Repaid => self.repaid as int,
        }
    }
}

/// The sums of all amounts that moved in each direction.
pub fn totals_by_direction(transactions: &Vec<Transaction>) -> (totals: DirectionTotals)
    ensures
        forall|d: Direction| #[trigger]
            totals.of(d) == direction_total(ledger_of(transactions@), d),
{
    let ghost ledger = ledger_of(transactions@);
    let mut totals = DirectionTotals { lent: 0, borrowed: 0, returned: 0, repaid: 0 };
    let mut i: usize = 0;
    while i < transactions.len()
        invariant
            i <= transactions.len(),
            ledger == ledger_of(transactions@),
            totals.lent == direction_total(ledger.take(i as int), Direction::Lent),
            totals.borrowed == direction_total(ledger.take(i as int), Direction::Borrowed),
            totals.returned == direction_total(ledger.take(i as int), Direction::Returned),
            totals.repaid == direction_total(ledger.take(i as int), Direction::Repaid),
            totals.lent <= i * u64::MAX,
            totals.borrowed <= i * u64::MAX,
            totals.returned <= i * u64::MAX,
            totals.repaid <= i * u64::MAX,
        decreases transactions.len() - i,
    {
        let transaction = &transactions[i];
        let amount = transaction.amount as u128;
        proof {
            lemma_total_step(ledger, i as int, direction_weight(Direction::Lent));
            lemma_total_step(ledger, i as int, direction_weight(Direction::Borrowed));
            lemma_total_step(ledger, i as int, direction_weight(Direction::Returned));
            lemma_total_step(ledger, i as int, direction_weight(Direction::Repaid));
        }
        match transaction.direction {
            Direction::Lent => totals.lent = totals.lent + amount,
            Direction::Borrowed => totals.borrowed = totals.borrowed + amount,
            Direction::Returned => totals.returned = totals.returned + amount,
            Direction::Repaid => totals.repaid = totals.repaid + amount,
        }
        i += 1;
    }
    proof {
        assert(ledger.take(i as int) =~= ledger);
    }
    totals
}

} // verus!
