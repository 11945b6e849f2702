use crate::calendar::{Date, DateTime};
use crate::text::{trim, trimmed};
use vstd::prelude::*;

verus! {

/// The largest amount a single transaction may carry. With it, any total over a whole
/// ledger fits in 128 bits.
pub const MAX_AMOUNT: u64 = 0x7fff_ffff_ffff_ffff;

/// A counterparty: someone the ledger's owner lends to or borrows from.
#[derive(Debug, Hash)]
pub struct Person {
    pub name: String,
}

impl View for Person {
    type V = Seq<char>;

    open spec fn view(&self) -> Seq<char> {
        self.name@
    }
}

impl PartialEq for Person {
    fn eq(&self, other: &Self) -> (same: bool) {
        self.name == other.name
    }
}

impl Eq for Person {

}

impl vstd::std_specs::cmp::PartialEqSpecImpl for Person {
    open spec fn obeys_eq_spec() -> bool {
        true
    }

    open spec fn eq_spec(&self, other: &Self) -> bool {
        self.name@ == other.name@
    }
}

impl Clone for Person {
    fn clone(&self) -> (copy: Self)
        ensures
            copy@ == self@,
    {
        Person { name: self.name.clone() }
    }
}

/// The currency of a transaction.
#[derive(Clone, Copy, Debug, PartialEq, Eq, Hash, Structural)]
pub enum MoneyType {
    GEL,
    USD,
    EUR,
    GBP,
    RUB,
    Other,
}

impl MoneyType {
    /// The sign that is written before an amount of this currency.
    pub open spec fn symbol_text(self) -> Seq<char> {
        match self {
            MoneyType::GEL => seq!['\u{20be}'],
            MoneyType::USD => seq!['$'],
            MoneyType::EUR => seq!['\u{20ac}'],
            MoneyType::GBP => seq!['\u{a3}'],
            MoneyType::RUB => seq!['\u{20bd}'],
            MoneyType::Other => seq!['\u{a4}'],
        }
    }

    /// The three-letter code of the currency, `Other` for the unnamed one.
    pub open spec fn code_text(self) -> Seq<char> {
        match self {
            MoneyType::GEL => seq!['G', 'E', 'L'],
            MoneyType::USD => seq!['U', 'S', 'D'],
            MoneyType::EUR => seq!['E', 'U', 'R'],
            MoneyType::GBP => seq!['G', 'B', 'P'],
            MoneyType::RUB => seq!['R', 'U', 'B'],
            MoneyType::Other => seq!['O', 't', 'h', 'e', 'r'],
        }
    }

    /// The place of the currency among the six, from 0.
    pub open spec fn index(self) -> int {
        match self {
            MoneyType::GEL => 0,
            MoneyType::USD => 1,
            MoneyType::EUR => 2,
            MoneyType::GBP => 3,
            MoneyType::RUB => 4,
            MoneyType::Other => 5,
        }
    }

    pub fn symbol(&self) -> (sign: &'static str)
        ensures
            sign@ == self.symbol_text(),
    {
        proof {
            reveal_strlit("\u{20be}");
            reveal_strlit("$");
            reveal_strlit("\u{20ac}");
            reveal_strlit("\u{a3}");
            reveal_strlit("\u{20bd}");
            reveal_strlit("\u{a4}");
        }
        let sign = match self {
            MoneyType::GEL => "\u{20be}",
            MoneyType::USD => "$",
            MoneyType::EUR => "\u{20ac}",
            MoneyType::GBP => "\u{a3}",
            MoneyType::RUB => "\u{20bd}",
            MoneyType::Other => "\u{a4}",
        };
        assert(sign@ =~= self.symbol_text());
        sign
    }

    pub fn code(&self) -> (name: &'static str)
        ensures
            name@ == self.code_text(),
    {
        proof {
            reveal_strlit("GEL");
            reveal_strlit("USD");
            reveal_strlit("EUR");
            reveal_strlit("GBP");
            reveal_strlit("RUB");
            reveal_strlit("Other");
        }
        let name = match self {
            MoneyType::GEL => "GEL",
            MoneyType::USD => "USD",
            MoneyType::EUR => "EUR",
            MoneyType::GBP => "GBP",
            MoneyType::RUB => "RUB",
            MoneyType::Other => "Other",
        };
        assert(name@ =~= self.code_text());
        name
    }

    pub fn position(&self) -> (i: usize)
        ensures
            i == self.index(),
            i < 6,
    {
        match self {
            MoneyType::GEL => 0,
            MoneyType::USD => 1,
            MoneyType::EUR => 2,
            MoneyType::GBP => 3,
            MoneyType::RUB => 4,
            MoneyType::Other => 5,
        }
    }

    /// The currency at a place among the six; `Other` beyond them.
    pub fn from_position(i: usize) -> (currency: MoneyType)
        ensures
            i < 6 ==> currency.index() == i,
            i >= 6 ==> currency == MoneyType::Other,
    {
        if i == 0 {
            MoneyType::GEL
        } else if i == 1 {
            MoneyType::USD
        } else if i == 2 {
            MoneyType::EUR
        } else if i == 3 {
            MoneyType::GBP
        } else if i == 4 {
            MoneyType::RUB
        } else {
            MoneyType::Other
        }
    }
}

/// The direction of a recorded movement of money, seen from the ledger's owner.
#[derive(Clone, Copy, Debug, PartialEq, Eq, Structural)]
pub enum Direction {
    /// The owner gave a loan.
    Lent,
    /// The owner took a loan.
    Borrowed,
    /// The counterparty gave money back.
    Returned,
    /// The owner gave money back.
    Repaid,
}

impl Direction {
    /// A loan in either direction: money that is expected to come back.
    pub open spec fn is_debt(self) -> bool {
        self is Lent || self is Borrowed
    }

    pub fn opens_debt(&self) -> (b: bool)
        ensures
            b == self.is_debt(),
    {
        match self {
            Direction::Lent | Direction::Borrowed => true,
            _ => false,
        }
    }
}

/// One change of the date by which a loan is expected back.
#[derive(Clone, Copy, Debug, PartialEq, Eq, Structural)]
pub struct DeadlineChange {
    pub old_date: Date,
    pub new_date: Date,
    pub changed_at: DateTime,
}

impl DeadlineChange {
    pub open spec fn valid(self) -> bool {
        self.old_date.valid() && self.new_date.valid() && self.changed_at.valid()
    }

    pub fn is_valid(&self) -> (ok: bool)
        ensures
            ok == self.valid(),
    {
        self.old_date.is_valid() && self.new_date.is_valid() && self.changed_at.is_valid()
    }
}

/// The text of a path, where there is one.
pub open spec fn path_text(path: Option<String>) -> Option<Seq<char>> {
    match path {
        Some(text) => Some(text@),
        None => None,
    }
}

/// One recorded movement of money between the owner and a counterparty.
/// Amounts are whole numbers of the smallest unit that the ledger keeps.
#[derive(Debug)]
pub struct Transaction {
    pub person: Person,
    pub amount: u64,
    pub money_type: MoneyType,
    pub direction: Direction,
    pub datetime: DateTime,
    pub expected_return_date: Option<Date>,
    pub attachment_path: Option<String>,
    pub deadline_changes: Vec<DeadlineChange>,
}

/// What a transaction says, as plain mathematical values.
pub struct Entry {
    pub person: Seq<char>,
    pub amount: u64,
    pub money_type: MoneyType,
    pub direction: Direction,
    pub datetime: DateTime,
    pub expected_return_date: Option<Date>,
    pub attachment_path: Option<Seq<char>>,
    pub deadline_changes: Seq<DeadlineChange>,
}

impl Entry {
    /// The changes of the deadline are in the order in which they were made.
    pub open spec fn history_ordered(self) -> bool {
        forall|i: int, j: int|
            0 <= i <= j < self.deadline_changes.len() ==> self.deadline_changes[i].changed_at.key()
                <= self.deadline_changes[j].changed_at.key()
    }

    /// What holds of every transaction that the ledger accepts.
    pub open spec fn wf(self) -> bool {
        &&& self.person.len() > 0
        &&& 0 < self.amount <= MAX_AMOUNT
        &&& self.datetime.valid()
        &&& (self.expected_return_date matches Some(date) ==> self.direction.is_debt()
            && date.valid())
        &&& forall|i: int|
            0 <= i < self.deadline_changes.len() ==> (#[trigger] self.deadline_changes[i]).valid()
    }

    /// The amount with the sign with which it enters the owner's balance: what was
    /// lent or repaid has left, what was borrowed or returned has come in.
    pub open spec fn signed_amount(self) -> int {
        match self.direction {
            Direction::Lent => -(self.amount as int),
            Direction::Borrowed => self.amount as int,
            Direction::Returned => self.amount as int,
            Direction::Repaid => -(self.amount as int),
        }
    }
}

impl View for Transaction {
    type V = Entry;

    open spec fn view(&self) -> Entry {
        Entry {
            person: self.person@,
            amount: self.amount,
            money_type: self.money_type,
            direction: self.direction,
            datetime: self.datetime,
            expected_return_date: self.expected_return_date,
            attachment_path: path_text(self.attachment_path),
            deadline_changes: self.deadline_changes@,
        }
    }
}

impl Clone for Transaction {
    fn clone(&self) -> (copy: Self)
        ensures
            copy@ == self@,
    {
        let attachment_path = match &self.attachment_path {
            Some(path) => Some(path.clone()),
            None => None,
        };
        let deadline_changes = self.deadline_changes.clone();
        assert(deadline_changes@ =~= self.deadline_changes@);
        Transaction {
            person: self.person.clone(),
            amount: self.amount,
            money_type: self.money_type,
            direction: self.direction,
            datetime: self.datetime,
            expected_return_date: self.expected_return_date,
            attachment_path,
            deadline_changes,
        }
    }
}

/// Why a transaction was not accepted.
#[derive(Clone, Copy, Debug, PartialEq, Eq, Structural)]
pub enum InputError {
    /// The counterparty's name is empty or blank.
    EmptyName,
    /// The amount is zero.
    NonPositiveAmount,
    /// The amount is above `MAX_AMOUNT`.
    AmountTooLarge,
    /// The moment of the transaction, or the date by which it is expected back,
    /// does not exist in the calendar.
    InvalidDate,
}

impl InputError {
    /// What went wrong, in words.
    pub open spec fn text(self) -> Seq<char> {
        match self {
            InputError::EmptyName => "a name is required"@,
            InputError::NonPositiveAmount => "the amount must be positive"@,
            InputError::AmountTooLarge => "the amount is too large"@,
            InputError::InvalidDate => "the date does not exist"@,
        }
    }

    pub fn describe(&self) -> (message: &'static str)
        ensures
            message@ == self.text(),
    {
        match self {
            InputError::EmptyName => "a name is required",
            InputError::NonPositiveAmount => "the amount must be positive",
            InputError::AmountTooLarge => "the amount is too large",
            InputError::InvalidDate => "the date does not exist",
        }
    }
}

/// Whether and why the given values are refused as a new transaction.
pub open spec fn input_error(
    name: Seq<char>,
    amount: u64,
    direction: Direction,
    datetime: DateTime,
    expected_return_date: Option<Date>,
) -> Option<InputError> {
    if trimmed(name).len() == 0 {
        Some(InputError::EmptyName)
    } else if amount == 0 {
        Some(InputError::NonPositiveAmount)
    } else if amount > MAX_AMOUNT {
        Some(InputError::AmountTooLarge)
    } else if !datetime.valid() {
        Some(InputError::InvalidDate)
    } else if deadline_for(direction, expected_return_date) matches Some(date) && !date.valid() {
        Some(InputError::InvalidDate)
    } else {
        None
    }
}

/// The date by which money is expected back, which only a loan has.
pub open spec fn deadline_for(direction: Direction, expected_return_date: Option<Date>) -> Option<
    Date,
> {
    if direction.is_debt() {
        expected_return_date
    } else {
        None
    }
}

impl Transaction {
    pub open spec fn wf(&self) -> bool {
        self@.wf()
    }

    /// A new transaction from what the user entered. The name is taken without the
    /// blanks around it; a date of return is kept only for a loan.
    pub fn new(
        name: &str,
        amount: u64,
        money_type: MoneyType,
        direction: Direction,
        datetime: DateTime,
        expected_return_date: Option<Date>,
        attachment_path: Option<String>,
    ) -> (r: Result<Transaction, InputError>)
        ensures
            match input_error(name@, amount, direction, datetime, expected_return_date) {
                Some(e) => r == Err::<Transaction, InputError>(e),
                None => r is Ok && r->Ok_0.wf() && r->Ok_0@ == (Entry {
                    person: trimmed(name@),
                    amount,
                    money_type,
                    direction,
                    datetime,
                    expected_return_date: deadline_for(direction, expected_return_date),
                    attachment_path: path_text(attachment_path),
                    deadline_changes: Seq::empty(),
                }),
            },
    {
        let person_name = trim(name);
        if person_name.is_empty() {
            return Err(InputError::EmptyName);
        }
        if amount == 0 {
            return Err(InputError::NonPositiveAmount);
        }
        if amount > MAX_AMOUNT {
            return Err(InputError::AmountTooLarge);
        }
        if !datetime.is_valid() {
            return Err(InputError::InvalidDate);
        }
        let deadline = if direction.opens_debt() {
            expected_return_date
        } else {
            None
        };
        match deadline {
            Some(date) => {
                if !date.is_valid() {
                    return Err(InputError::InvalidDate);
                }
            },
            None => {},
        }
        Ok(
            Transaction {
                person: Person { name: person_name.to_owned() },
                amount,
                money_type,
                direction,
                datetime,
                expected_return_date: deadline,
                attachment_path,
                deadline_changes: Vec::new(),
            },
        )
    }

    /// Whether the ledger accepts this transaction.
    pub fn is_well_formed(&self) -> (ok: bool)
        ensures
            ok == self.wf(),
    {
        if self.person.name.as_str().is_empty() || self.amount == 0 || self.amount > MAX_AMOUNT
            || !self.datetime.is_valid() {
            return false;
        }
        match self.expected_return_date {
            Some(date) => {
                if !self.direction.opens_debt() || !date.is_valid() {
                    return false;
                }
            },
            None => {},
        }
        let mut i: usize = 0;
        while i < self.deadline_changes.len()
            invariant
                i <= self.deadline_changes.len(),
                forall|j: int| 0 <= j < i ==> (#[trigger] self.deadline_changes@[j]).valid(),
            decreases self.deadline_changes.len() - i,
        {
            if !self.deadline_changes[i].is_valid() {
                assert(!self@.deadline_changes[i as int].valid());
                return false;
            }
            i += 1;
        }
        true
    }
}

/// The ledger that a list of transactions stands for.
pub open spec fn ledger_of(transactions: Seq<Transaction>) -> Seq<Entry> {
    Seq::new(transactions.len(), |i: int| transactions[i]@)
}

/// Every entry of the ledger is one that the ledger accepts.
pub open spec fn ledger_wf(ledger: Seq<Entry>) -> bool {
    forall|i: int| 0 <= i < ledger.len() ==> (#[trigger] ledger[i]).wf()
}

/// No amount of the ledger is above `MAX_AMOUNT`, so that every total over the ledger
/// fits in 128 bits. This holds of a ledger whose entries the ledger accepts.
pub open spec fn amounts_fit(ledger: Seq<Entry>) -> bool {
    forall|i: int| 0 <= i < ledger.len() ==> (#[trigger] ledger[i]).amount <= MAX_AMOUNT
}

/// Whether no amount is above `MAX_AMOUNT`.
pub fn amounts_within_bounds(transactions: &Vec<Transaction>) -> (ok: bool)
    ensures
        ok == amounts_fit(ledger_of(transactions@)),
        ledger_wf(ledger_of(transactions@)) ==> ok,
{
    let ghost ledger = ledger_of(transactions@);
    let mut i: usize = 0;
    while i < transactions.len()
        invariant
            i <= transactions.len(),
            ledger == ledger_of(transactions@),
            forall|j: int| 0 <= j < i ==> (#[trigger] ledger[j]).amount <= MAX_AMOUNT,
        decreases transactions.len() - i,
    {
        if transactions[i].amount > MAX_AMOUNT {
            assert(ledger[i as int].amount > MAX_AMOUNT);
            assert(!ledger[i as int].wf());
            return false;
        }
        i += 1;
    }
    true
}

/// What the ledger says of one counterparty.
#[derive(Debug)]
pub struct PersonStats {
    /// The sum of what the owner lent to the counterparty.
    pub lent: u128,
    /// The sum of what the owner borrowed from the counterparty.
    pub borrowed: u128,
    /// The sum of what the counterparty gave back.
    pub returned: u128,
    /// The sum of what the owner gave back.
    pub repaid: u128,
    /// What the counterparty still owes the owner; negative where the owner owes.
    pub outstanding: i128,
    /// The loans given to the counterparty, in the order of the ledger.
    pub lent_transactions: Vec<Transaction>,
    /// What the counterparty gave back, in the order of the ledger.
    pub return_transactions: Vec<Transaction>,
    /// The currencies of the counterparty's transactions, each once, in the order in
    /// which they first occur.
    pub currencies: Vec<MoneyType>,
    /// How often the deadline of one of the counterparty's transactions was changed.
    pub deadline_changes_count: u128,
}

/// What the ledger says of one counterparty, as plain mathematical values.
pub struct PersonStatsView {
    pub lent: int,
    pub borrowed: int,
    pub returned: int,
    pub repaid: int,
    pub outstanding: int,
    pub lent_transactions: Seq<Entry>,
    pub return_transactions: Seq<Entry>,
    pub currencies: Seq<MoneyType>,
    pub deadline_changes_count: int,
}

impl View for PersonStats {
    type V = PersonStatsView;

    open spec fn view(&self) -> PersonStatsView {
        PersonStatsView {
            lent: self.lent as int,
            borrowed: self.borrowed as int,
            returned: self.returned as int,
            repaid: self.repaid as int,
            outstanding: self.outstanding as int,
            lent_transactions: ledger_of(self.lent_transactions@),
            return_transactions: ledger_of(self.return_transactions@),
            currencies: self.currencies@,
            deadline_changes_count: self.deadline_changes_count as int,
        }
    }
}

impl PersonStats {
    /// The statistics of a counterparty without transactions.
    pub open spec fn empty() -> PersonStatsView {
        PersonStatsView {
            lent: 0,
            borrowed: 0,
            returned: 0,
            repaid: 0,
            outstanding: 0,
            lent_transactions: Seq::empty(),
            return_transactions: Seq::empty(),
            currencies: Seq::empty(),
            deadline_changes_count: 0,
        }
    }

    pub fn new() -> (stats: PersonStats)
        ensures
            stats@ == PersonStats::empty(),
    {
        let stats = PersonStats {
            lent: 0,
            borrowed: 0,
            returned: 0,
            repaid: 0,
            outstanding: 0,
            lent_transactions: Vec::new(),
            return_transactions: Vec::new(),
            currencies: Vec::new(),
            deadline_changes_count: 0,
        };
        assert(stats@.lent_transactions =~= Seq::empty());
        assert(stats@.return_transactions =~= Seq::empty());
        stats
    }
}

impl Default for PersonStats {
    fn default() -> (stats: PersonStats)
        ensures
            stats@ == PersonStats::empty(),
    {
        PersonStats::new()
    }
}

/// A counterparty with what the ledger says of them.
#[derive(Debug)]
pub struct PersonRecord {
    pub name: String,
    pub stats: PersonStats,
}

/// The order in which a list of transactions is shown.
#[derive(Clone, Copy, Debug, PartialEq, Eq, Structural)]
pub enum SortBy {
    DateNewest,
    DateOldest,
    AmountHighest,
    AmountLowest,
    Person,
}

} // verus!
