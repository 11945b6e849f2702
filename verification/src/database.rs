use crate::analytics::balances::{balance_of, balances_by_currency, CurrencyBalances};
use crate::analytics::people::{calculate_person_stats, people_of, stats_of};
use crate::analytics::reconciliation::{calculate_paid_back_transactions, is_paid_back};
use crate::analytics::timeline::{
    generate_balance_timeline, samples_of, timeline_of, TimelinePoint,
};
use crate::calendar::{Date, DateTime};
use crate::models::{
    amounts_fit, amounts_within_bounds, ledger_of, ledger_wf, path_text, DeadlineChange, Entry,
    MoneyType, PersonRecord, Transaction,
};
use vstd::prelude::*;

verus! {

/// The ledger: all recorded transactions, in the order in which they were entered.
/// The place of a transaction in it does not change.
#[derive(Debug)]
pub struct Database {
    pub transactions: Vec<Transaction>,
}

impl View for Database {
    type V = Seq<Entry>;

    open spec fn view(&self) -> Seq<Entry> {
        ledger_of(self.transactions@)
    }
}

/// The change that moving the deadline of an entry to `new_date` at the moment `now`
/// makes; none where the entry has no deadline, where the deadline is `new_date`
/// already, or where `new_date` or `now` does not exist in the calendar.
pub open spec fn deadline_edit(e: Entry, new_date: Date, now: DateTime) -> Option<DeadlineChange> {
    match e.expected_return_date {
        Some(old_date) => if old_date != new_date && new_date.valid() && now.valid() {
            Some(DeadlineChange { old_date, new_date, changed_at: now })
        } else {
            None
        },
        None => None,
    }
}

/// The entry after a change of its deadline: the new date is expected, and the change
/// is the last of its history.
pub open spec fn with_deadline(e: Entry, change: DeadlineChange) -> Entry {
    Entry {
        expected_return_date: Some(change.new_date),
        deadline_changes: e.deadline_changes.push(change),
        ..e
    }
}

/// The history of the entry is in order, and `now` is not before the last change in it.
pub open spec fn history_grows_at(e: Entry, now: DateTime) -> bool {
    e.history_ordered() && (e.deadline_changes.len() == 0
        || e.deadline_changes.last().changed_at.key() <= now.key())
}

/// The entry with another attachment, or with none.
pub open spec fn with_attachment(e: Entry, path: Option<Seq<char>>) -> Entry {
    Entry { attachment_path: path, ..e }
}

impl Database {
    /// Every transaction is one that the ledger accepts.
    pub open spec fn wf(&self) -> bool {
        ledger_wf(self@)
    }

    /// The empty ledger.
    pub fn new() -> (db: Database)
        ensures
            db@ == Seq::<Entry>::empty(),
            db.wf(),
    {
        let db = Database { transactions: Vec::new() };
        assert(db@ =~= Seq::<Entry>::empty());
        db
    }

    /// Whether every transaction is one that the ledger accepts.
    pub fn is_well_formed(&self) -> (ok: bool)
        ensures
            ok == self.wf(),
    {
        let mut i: usize = 0;
        while i < self.transactions.len()
            invariant
                i <= self.transactions.len(),
                forall|j: int| 0 <= j < i ==> (#[trigger] self@[j]).wf(),
            decreases self.transactions.len() - i,
        {
            if !self.transactions[i].is_well_formed() {
                assert(!self@[i as int].wf());
                return false;
            }
            i += 1;
        }
        true
    }

    /// Enters a transaction behind all others.
    pub fn add_transaction(&mut self, transaction: Transaction)
        ensures
            final(self)@ == old(self)@.push(transaction@),
            old(self).wf() && transaction.wf() ==> final(self).wf(),
    {
        self.transactions.push(transaction);
        assert(self@ =~= old(self)@.push(transaction@));
    }

    /// Moves the date by which the transaction at `index` is expected back to `new_date`
    /// and notes the change, made at the moment `now`, in its history. Nothing happens
    /// where there is no such transaction or `deadline_edit` gives no change.
    pub fn edit_expected_return_date(&mut self, index: usize, new_date: Date, now: DateTime) -> (r:
        Option<DeadlineChange>)
        ensures
            index >= old(self)@.len() ==> r is None && final(self)@ == old(self)@,
            index < old(self)@.len() ==> r == deadline_edit(old(self)@[index as int], new_date, now),
            index < old(self)@.len() ==> match r {
                Some(change) => final(self)@ == old(self)@.update(
                    index as int,
                    with_deadline(old(self)@[index as int], change),
                ),
                None => final(self)@ == old(self)@,
            },
            old(self).wf() ==> final(self).wf(),
            r is Some && history_grows_at(old(self)@[index as int], now) ==> final(
                self
            )@[index as int].history_ordered(),
    {
        if index >= self.transactions.len() {
            return None;
        }
        let old_date = match self.transactions[index].expected_return_date {
            Some(date) => date,
            None => {
                return None;
            },
        };
        if old_date == new_date || !new_date.is_valid() || !now.is_valid() {
            return None;
        }
        let change = DeadlineChange { old_date, new_date, changed_at: now };
        let ghost before = self@[index as int];
        proof {
            if old(self).wf() {
                assert(before.wf());
            }
        }
        self.transactions[index].deadline_changes.push(change);
        self.transactions[index].expected_return_date = Some(new_date);
        proof {
            let after = with_deadline(before, change);
            assert(self.transactions[index as int]@.deadline_changes =~= after.deadline_changes);
            assert(self.transactions[index as int]@ == after);
            assert(self@ =~= old(self)@.update(index as int, after));
            if old(self).wf() {
                assert forall|j: int| 0 <= j < after.deadline_changes.len() implies (
                #[trigger] after.deadline_changes[j]).valid() by {
                    if j < before.deadline_changes.len() {
                        assert(before.deadline_changes[j].valid());
                    }
                }
                assert(after.wf());
                assert forall|j: int| 0 <= j < self@.len() implies (#[trigger] self@[j]).wf() by {
                    if j != index {
                        assert(old(self)@[j].wf());
                    }
                }
            }
            if before.history_ordered() && (before.deadline_changes.len() == 0
                || before.deadline_changes.last().changed_at.key() <= now.key()) {
                assert forall|i: int, j: int|
                    0 <= i <= j < after.deadline_changes.len() implies after.deadline_changes[i].changed_at.key()
                    <= after.deadline_changes[j].changed_at.key() by {
                    let last = before.deadline_changes.len() - 1;
                    if j < before.deadline_changes.len() {
                        assert(before.deadline_changes[i].changed_at.key()
                            <= before.deadline_changes[j].changed_at.key());
                    } else if i < before.deadline_changes.len() {
                        assert(before.deadline_changes[i].changed_at.key()
                            <= before.deadline_changes[last].changed_at.key());
                    }
                }
            }
        }
        Some(change)
    }

    /// Gives the transaction at `index` another attachment, or none. Says whether there
    /// is such a transaction; nothing happens where there is none.
    pub fn set_attachment(&mut self, index: usize, path: Option<String>) -> (done: bool)
        ensures
            done == (index < old(self)@.len()),
            done ==> final(self)@ == old(self)@.update(
                index as int,
                with_attachment(old(self)@[index as int], path_text(path)),
            ),
            !done ==> final(self)@ == old(self)@,
            old(self).wf() ==> final(self).wf(),
    {
        if index >= self.transactions.len() {
            return false;
        }
        let ghost before = self@[index as int];
        let ghost given = path_text(path);
        self.transactions[index].attachment_path = path;
        proof {
            let after = with_attachment(before, given);
            assert(self.transactions[index as int]@ == after);
            assert(self@ =~= old(self)@.update(index as int, after));
            if old(self).wf() {
                assert(before.wf());
                assert forall|j: int| 0 <= j < self@.len() implies (#[trigger] self@[j]).wf() by {
                    if j != index {
                        assert(old(self)@[j].wf());
                    }
                }
            }
        }
        true
    }
    /// The owner's balance in each currency; none where an amount of the ledger is
    /// above `MAX_AMOUNT`, which is so of no ledger whose transactions were accepted.
    pub fn balances(&self) -> (r: Option<CurrencyBalances>)
        ensures
            r is Some <==> amounts_fit(self@),
            r matches Some(balances) ==> forall|c: MoneyType| #[trigger]
                balances.of(c) == balance_of(self@, c),
    {
        if amounts_within_bounds(&self.transactions) {
            Some(balances_by_currency(&self.transactions))
        } else {
            None
        }
    }

    /// For each counterparty, in the order in which they first occur, what the ledger
    /// says of them; none where an amount of the ledger is above `MAX_AMOUNT`.
    pub fn person_stats(&self) -> (r: Option<Vec<PersonRecord>>)
        ensures
            r is Some <==> amounts_fit(self@),
            r matches Some(people) ==> people.len() == people_of(self@).len() && forall|j: int|
                0 <= j < people.len() ==> (#[trigger] people[j]).name@ == people_of(self@)[j]
                    && people[j].stats@ == stats_of(self@, people[j].name@),
    {
        if amounts_within_bounds(&self.transactions) {
            Some(calculate_person_stats(&self.transactions))
        } else {
            None
        }
    }

    /// For each of the six currencies, at its place among them, the timeline of the
    /// owner's balance in it; none where an amount of the ledger is above `MAX_AMOUNT`.
    pub fn balance_timeline(&self) -> (r: Option<Vec<Vec<TimelinePoint>>>)
        ensures
            r is Some <==> amounts_fit(self@),
            r matches Some(timeline) ==> timeline.len() == 6 && forall|c: MoneyType|
                samples_of((#[trigger] timeline[c.index()])@) == timeline_of(self@, c),
    {
        if amounts_within_bounds(&self.transactions) {
            Some(generate_balance_timeline(&self.transactions))
        } else {
            None
        }
    }

    /// For each transaction, whether it is a loan that counts as paid back.
    pub fn paid_back(&self) -> (marks: Vec<bool>)
        ensures
            marks.len() == self@.len(),
            forall|i: int| 0 <= i < marks.len() ==> marks[i] == is_paid_back(self@, i),
    {
        calculate_paid_back_transactions(&self.transactions)
    }
}

impl Default for Database {
    fn default() -> (db: Database)
        ensures
            db@ == Seq::<Entry>::empty(),
    {
        Database::new()
    }
}

} // verus!
