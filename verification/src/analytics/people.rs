use crate::analytics::totals::{lemma_total_step, total};
use crate::models::{
    amounts_fit, ledger_of, Direction, Entry, MoneyType, PersonRecord, PersonStats, PersonStatsView,
    Transaction, MAX_AMOUNT,
};
use vstd::prelude::*;

verus! {

/// The amount of an entry with `person` in one direction; nothing for any other entry.
pub open spec fn person_weight(person: Seq<char>, direction: Direction) -> spec_fn(Entry) -> int {
    |e: Entry|
        if e.person == person && e.direction == direction {
            e.amount as int
        } else {
            0
        }
}

/// The sum of the amounts that moved between the owner and `person` in one direction.
pub open spec fn person_total(ledger: Seq<Entry>, person: Seq<char>, direction: Direction) -> int {
    total(ledger, person_weight(person, direction))
}

/// How often the deadline of an entry with `person` was changed; nothing for any other entry.
pub open spec fn history_weight(person: Seq<char>) -> spec_fn(Entry) -> int {
    |e: Entry|
        if e.person == person {
            e.deadline_changes.len() as int
        } else {
            0
        }
}

/// The entries with `person` in one direction.
pub open spec fn person_filter(person: Seq<char>, direction: Direction) -> spec_fn(Entry) -> bool {
    |e: Entry| e.person == person && e.direction == direction
}

/// The currencies of the entries with `person`, each once, in the order in which they
/// first occur.
pub open spec fn currencies_of(ledger: Seq<Entry>, person: Seq<char>) -> Seq<MoneyType>
    decreases ledger.len(),
{
    if ledger.len() == 0 {
        Seq::empty()
    } else {
        let before = currencies_of(ledger.drop_last(), person);
        let e = ledger.last();
        if e.person == person && !before.contains(e.money_type) {
            before.push(e.money_type)
        } else {
            before
        }
    }
}

/// What `person` still owes the owner: what was lent and not returned, less what was
/// borrowed and not repaid.
pub open spec fn outstanding_of(ledger: Seq<Entry>, person: Seq<char>) -> int {
    (person_total(ledger, person, Direction::Lent) - person_total(
        ledger,
        person,
        Direction::Returned,
    )) - (person_total(ledger, person, Direction::Borrowed) - person_total(
        ledger,
        person,
        Direction::Repaid,
    ))
}

/// What the ledger says of `person`.
pub open spec fn stats_of(ledger: Seq<Entry>, person: Seq<char>) -> PersonStatsView {
    PersonStatsView {
        lent: person_total(ledger, person, Direction::Lent),
        borrowed: person_total(ledger, person, Direction::Borrowed),
        returned: person_total(ledger, person, Direction::Returned),
        repaid: person_total(ledger, person, Direction::Repaid),
        outstanding: outstanding_of(ledger, person),
        lent_transactions: ledger.filter(person_filter(person, Direction::Lent)),
        return_transactions: ledger.filter(person_filter(person, Direction::Returned)),
        currencies: currencies_of(ledger, person),
        deadline_changes_count: total(ledger, history_weight(person)),
    }
}

/// The counterparties of a ledger, each once, in the order in which they first occur.
pub open spec fn people_of(ledger: Seq<Entry>) -> Seq<Seq<char>>
    decreases ledger.len(),
{
    if ledger.len() == 0 {
        Seq::empty()
    } else {
        let before = people_of(ledger.drop_last());
        if before.contains(ledger.last().person) {
            before
        } else {
            before.push(ledger.last().person)
        }
    }
}

/// The statistics of a counterparty after one more of their entries.
pub open spec fn stats_with(before: PersonStatsView, e: Entry) -> PersonStatsView {
    PersonStatsView {
        lent: before.lent + if e.direction is Lent {
            e.amount as int
        } else {
            0
        },
        borrowed: before.borrowed + if e.direction is Borrowed {
            e.amount as int
        } else {
            0
        },
        returned: before.returned + if e.direction is Returned {
            e.amount as int
        } else {
            0
        },
        repaid: before.repaid + if e.direction is Repaid {
            e.amount as int
        } else {
            0
        },
        outstanding: before.outstanding + if e.direction is Lent || e.direction is Repaid {
            e.amount as int
        } else {
            -(e.amount as int)
        },
        lent_transactions: if e.direction is Lent {
            before.lent_transactions.push(e)
        } else {
            before.lent_transactions
        },
        return_transactions: if e.direction is Returned {
            before.return_transactions.push(e)
        } else {
            before.return_transactions
        },
        currencies: if before.currencies.contains(e.money_type) {
            before.currencies
        } else {
            before.currencies.push(e.money_type)
        },
        deadline_changes_count: before.deadline_changes_count + e.deadline_changes.len(),
    }
}

/// Taking one more entry changes the statistics of its counterparty alone.
pub proof fn lemma_stats_step(ledger: Seq<Entry>, i: int, person: Seq<char>)
    requires
        0 <= i < ledger.len(),
    ensures
        stats_of(ledger.take(i + 1), person) == if ledger[i].person == person {
            stats_with(stats_of(ledger.take(i), person), ledger[i])
        } else {
            stats_of(ledger.take(i), person)
        },
{
    reveal(Seq::filter);
    assert(ledger.take(i + 1).drop_last() =~= ledger.take(i));
    lemma_total_step(ledger, i, person_weight(person, Direction::Lent));
    lemma_total_step(ledger, i, person_weight(person, Direction::Borrowed));
    lemma_total_step(ledger, i, person_weight(person, Direction::Returned));
    lemma_total_step(ledger, i, person_weight(person, Direction::Repaid));
    lemma_total_step(ledger, i, history_weight(person));
}

fn find_person(people: &Vec<PersonRecord>, name: &String) -> (r: Option<usize>)
    ensures
        match r {
            Some(j) => j < people.len() && people[j as int].name@ == name@,
            None => forall|j: int| 0 <= j < people.len() ==> (#[trigger] people[j]).name@ != name@,
        },
{
    let mut j: usize = 0;
    while j < people.len()
        invariant
            j <= people.len(),
            forall|k: int| 0 <= k < j ==> (#[trigger] people[k]).name@ != name@,
        decreases people.len() - j,
    {
        if people[j].name == *name {
            return Some(j);
        }
        j += 1;
    }
    None
}

fn has_currency(currencies: &Vec<MoneyType>, currency: MoneyType) -> (found: bool)
    ensures
        found == currencies@.contains(currency),
{
    let mut j: usize = 0;
    while j < currencies.len()
        invariant
            j <= currencies.len(),
            forall|k: int| 0 <= k < j ==> currencies[k] != currency,
        decreases currencies.len() - j,
    {
        if currencies[j] == currency {
            return true;
        }
        j += 1;
    }
    false
}

/// The sums of the statistics are those of at most `k` entries that the ledger accepts.
spec fn within(stats: PersonStats, k: int) -> bool {
    &&& stats.lent <= k * u64::MAX
    &&& stats.borrowed <= k * u64::MAX
    &&& stats.returned <= k * u64::MAX
    &&& stats.repaid <= k * u64::MAX
    &&& stats.deadline_changes_count <= k * usize::MAX
    &&& -k * MAX_AMOUNT <= stats.outstanding <= k * MAX_AMOUNT
}

/// Adds a transaction to the statistics of its counterparty.
fn add_to_stats(stats: &mut PersonStats, transaction: &Transaction, Ghost(k): Ghost<int>)
    requires
        0 <= k < usize::MAX,
        within(*old(stats), k),
        transaction.amount <= MAX_AMOUNT,
    ensures
        final(stats)@ == stats_with(old(stats)@, transaction@),
        within(*final(stats), k + 1),
{
    let ghost before = stats@;
    if !has_currency(&stats.currencies, transaction.money_type) {
        stats.currencies.push(transaction.money_type);
    }
    stats.deadline_changes_count = stats.deadline_changes_count
        + transaction.deadline_changes.len() as u128;
    let amount = transaction.amount as u128;
    match transaction.direction {
        Direction::Lent => {
            stats.lent = stats.lent + amount;
            stats.outstanding = stats.outstanding + amount as i128;
            stats.lent_transactions.push(transaction.clone());
        },
        Direction::Borrowed => {
            stats.borrowed = stats.borrowed + amount;
            stats.outstanding = stats.outstanding - amount as i128;
        },
        Direction::Returned => {
            stats.returned = stats.returned + amount;
            stats.outstanding = stats.outstanding - amount as i128;
            stats.return_transactions.push(transaction.clone());
        },
        Direction::Repaid => {
            stats.repaid = stats.repaid + amount;
            stats.outstanding = stats.outstanding + amount as i128;
        },
    }
    proof {
        let after = stats_with(before, transaction@);
        assert(stats@.lent_transactions =~= after.lent_transactions);
        assert(stats@.return_transactions =~= after.return_transactions);
    }
}

/// The records are those of the counterparties of the first `k` entries, each with what
/// these entries say of them.
spec fn stats_through(ledger: Seq<Entry>, people: Seq<PersonRecord>, k: int) -> bool {
    &&& people.len() == people_of(ledger.take(k)).len()
    &&& forall|j: int|
        0 <= j < people.len() ==> (#[trigger] people[j]).name@ == people_of(ledger.take(k))[j]
            && people[j].stats@ == stats_of(ledger.take(k), people[j].name@) && within(
            people[j].stats,
            k,
        )
    &&& forall|a: int, b: int|
        0 <= a < b < people.len() ==> (#[trigger] people[a]).name@ != (#[trigger] people[b]).name@
}

/// Adds transaction `i` to the record of its counterparty, which is made where there
/// is none yet.
fn record_transaction(transactions: &Vec<Transaction>, people: &mut Vec<PersonRecord>, i: usize)
    requires
        i < transactions.len(),
        amounts_fit(ledger_of(transactions@)),
        stats_through(ledger_of(transactions@), old(people)@, i as int),
    ensures
        stats_through(ledger_of(transactions@), final(people)@, i + 1),
{
    let ghost ledger = ledger_of(transactions@);
    let ghost e = ledger[i as int];
    let ghost names = people_of(ledger.take(i as int));
    let transaction = &transactions[i];
    proof {
        assert(ledger.take(i + 1).drop_last() =~= ledger.take(i as int));
        assert(ledger.take(i + 1).last() == e);
        assert(e.amount <= MAX_AMOUNT);
    }
    let found = find_person(people, &transaction.person.name);
    let at = match found {
        Some(j) => {
            proof {
                assert(names[j as int] == e.person);
                assert(names.contains(e.person));
            }
            j
        },
        None => {
            proof {
                if names.contains(e.person) {
                    let k = choose|k: int| 0 <= k < names.len() && names[k] == e.person;
                    assert(people[k].name@ == e.person);
                }
                let front = ledger.take(i as int);
                assert forall|t: int| 0 <= t < front.len() implies front[t].person != e.person by {
                    lemma_people_cover(front, t);
                }
                lemma_stats_of_stranger(front, e.person);
            }
            people.push(
                PersonRecord { name: transaction.person.name.clone(), stats: PersonStats::new() },
            );
            people.len() - 1
        },
    };
    let ghost middle = people@;
    proof {
        assert(middle.len() == people_of(ledger.take(i + 1)).len());
        assert(middle[at as int].name@ == e.person);
        assert forall|j: int| 0 <= j < middle.len() implies (#[trigger] middle[j]).name@
            == people_of(ledger.take(i + 1))[j] by {
            if j < old(people).len() {
                assert(middle[j] == old(people)[j]);
            }
        }
    }
    add_to_stats(&mut people[at].stats, transaction, Ghost(i as int));
    proof {
        assert forall|j: int| 0 <= j < people.len() implies (#[trigger] people[j]).name@
            == people_of(ledger.take(i + 1))[j] && people[j].stats@ == stats_of(
            ledger.take(i + 1),
            people[j].name@,
        ) && within(people[j].stats, i + 1) by {
            lemma_stats_step(ledger, i as int, middle[j].name@);
            if j != at {
                assert(people[j] == middle[j]);
                if j < old(people).len() {
                    assert(middle[j] == old(people)[j]);
                }
            } else {
                assert(people[j].name == middle[j].name);
            }
        }
        assert forall|a: int, b: int| 0 <= a < b < people.len() implies (
        #[trigger] people[a]).name@ != (#[trigger] people[b]).name@ by {
            assert(people[a].name@ == middle[a].name@);
            assert(people[b].name@ == middle[b].name@);
            if b < old(people).len() {
                assert(middle[a] == old(people)[a] && middle[b] == old(people)[b]);
            } else if a < old(people).len() {
                assert(middle[a] == old(people)[a]);
            }
        }
    }
}

/// For each counterparty of the ledger, in the order in which they first occur, what the
/// ledger says of them.
pub fn calculate_person_stats(transactions: &Vec<Transaction>) -> (people: Vec<PersonRecord>)
    requires
        amounts_fit(ledger_of(transactions@)),
    ensures
        people.len() == people_of(ledger_of(transactions@)).len(),
        forall|j: int|
            0 <= j < people.len() ==> (#[trigger] people[j]).name@ == people_of(
                ledger_of(transactions@),
            )[j] && people[j].stats@ == stats_of(ledger_of(transactions@), people[j].name@),
{
    let ghost ledger = ledger_of(transactions@);
    let n = transactions.len();
    let mut people: Vec<PersonRecord> = Vec::new();
    let mut i: usize = 0;
    while i < n
        invariant
            i <= n,
            n == transactions.len(),
            ledger == ledger_of(transactions@),
            amounts_fit(ledger),
            stats_through(ledger, people@, i as int),
        decreases n - i,
    {
        record_transaction(transactions, &mut people, i);
        i += 1;
    }
    proof {
        assert(ledger.take(n as int) =~= ledger);
    }
    people
}

/// Each entry's counterparty is among the people of the ledger.
proof fn lemma_people_cover(ledger: Seq<Entry>, t: int)
    requires
        0 <= t < ledger.len(),
    ensures
        people_of(ledger).contains(ledger[t].person),
    decreases ledger.len(),
{
    let before = people_of(ledger.drop_last());
    if t < ledger.len() - 1 {
        lemma_people_cover(ledger.drop_last(), t);
        assert(ledger.drop_last()[t] == ledger[t]);
        let k = choose|k: int| 0 <= k < before.len() && before[k] == ledger[t].person;
        assert(people_of(ledger)[k] == ledger[t].person);
    } else {
        if before.contains(ledger.last().person) {
        } else {
            assert(people_of(ledger)[before.len() as int] == ledger.last().person);
        }
    }
}

/// Of someone without entries the ledger says nothing.
proof fn lemma_stats_of_stranger(ledger: Seq<Entry>, person: Seq<char>)
    requires
        forall|t: int| 0 <= t < ledger.len() ==> ledger[t].person != person,
    ensures
        stats_of(ledger, person) == PersonStats::empty(),
    decreases ledger.len(),
{
    reveal(Seq::filter);
    if ledger.len() > 0 {
        let front = ledger.drop_last();
        assert forall|t: int| 0 <= t < front.len() implies front[t].person != person by {
            assert(front[t] == ledger[t]);
        }
        lemma_stats_of_stranger(front, person);
        assert(ledger[ledger.len() - 1].person != person);
    } else {
        assert(ledger.filter(person_filter(person, Direction::Lent)) =~= Seq::empty());
        assert(ledger.filter(person_filter(person, Direction::Returned)) =~= Seq::empty());
    }
}

/// An entry between the owner and `person` is in `currency`.
pub open spec fn uses_currency(ledger: Seq<Entry>, person: Seq<char>, currency: MoneyType) -> bool {
    exists|i: int|
        0 <= i < ledger.len() && (#[trigger] ledger[i]).person == person && ledger[i].money_type
            == currency
}

/// The currencies of a counterparty are those of their entries, each once.
pub proof fn lemma_currencies_of(ledger: Seq<Entry>, person: Seq<char>)
    ensures
        currencies_of(ledger, person).no_duplicates(),
        forall|currency: MoneyType|
            currencies_of(ledger, person).contains(currency) <==> #[trigger] uses_currency(
                ledger,
                person,
                currency,
            ),
    decreases ledger.len(),
{
    let now = currencies_of(ledger, person);
    if ledger.len() > 0 {
        let front = ledger.drop_last();
        let before = currencies_of(front, person);
        let e = ledger.last();
        lemma_currencies_of(front, person);
        assert forall|currency: MoneyType| now.contains(currency) <==> #[trigger] uses_currency(
            ledger,
            person,
            currency,
        ) by {
            if now.contains(currency) {
                let j = choose|j: int| 0 <= j < now.len() && now[j] == currency;
                if j < before.len() {
                    assert(before[j] == currency);
                    assert(before.contains(currency));
                    assert(uses_currency(front, person, currency));
                    let i = choose|i: int|
                        0 <= i < front.len() && (#[trigger] front[i]).person == person
                            && front[i].money_type == currency;
                    assert(ledger[i] == front[i]);
                } else {
                    assert(ledger[ledger.len() - 1] == e);
                }
            }
            if uses_currency(ledger, person, currency) {
                let i = choose|i: int|
                    0 <= i < ledger.len() && (#[trigger] ledger[i]).person == person
                        && ledger[i].money_type == currency;
                if i < front.len() {
                    assert(front[i] == ledger[i]);
                    assert(uses_currency(front, person, currency));
                    assert(before.contains(currency));
                    let j = choose|j: int| 0 <= j < before.len() && before[j] == currency;
                    assert(now[j] == currency);
                } else if before.contains(currency) {
                    let j = choose|j: int| 0 <= j < before.len() && before[j] == currency;
                    assert(now[j] == currency);
                } else {
                    assert(now[now.len() - 1] == currency);
                }
            }
        }
        assert forall|a: int, b: int| 0 <= a < now.len() && 0 <= b < now.len() && a != b implies now[a]
            != now[b] by {
            if a < before.len() && b < before.len() {
                assert(before[a] != before[b]);
            } else if a < before.len() {
                assert(before.contains(before[a]));
            } else if b < before.len() {
                assert(before.contains(before[b]));
            }
        }
    }
}

/// The people of a ledger are the counterparties of its entries, each once.
pub proof fn lemma_people_of(ledger: Seq<Entry>)
    ensures
        people_of(ledger).no_duplicates(),
        forall|i: int| 0 <= i < ledger.len() ==> people_of(ledger).contains(
            (#[trigger] ledger[i]).person,
        ),
        forall|j: int|
            0 <= j < people_of(ledger).len() ==> exists|i: int|
                0 <= i < ledger.len() && (#[trigger] ledger[i]).person == #[trigger] people_of(
                    ledger,
                )[j],
    decreases ledger.len(),
{
    let now = people_of(ledger);
    assert forall|i: int| 0 <= i < ledger.len() implies now.contains(
        (#[trigger] ledger[i]).person,
    ) by {
        lemma_people_cover(ledger, i);
    }
    if ledger.len() > 0 {
        let front = ledger.drop_last();
        let before = people_of(front);
        lemma_people_of(front);
        assert forall|j: int| 0 <= j < now.len() implies exists|i: int|
            0 <= i < ledger.len() && (#[trigger] ledger[i]).person == #[trigger] now[j] by {
            if j < before.len() {
                let i = choose|i: int|
                    0 <= i < front.len() && (#[trigger] front[i]).person == before[j];
                assert(ledger[i] == front[i]);
            } else {
                assert(ledger[ledger.len() - 1].person == now[j]);
            }
        }
        assert forall|a: int, b: int| 0 <= a < now.len() && 0 <= b < now.len() && a != b implies now[a]
            != now[b] by {
            if a < before.len() && b < before.len() {
                assert(before[a] != before[b]);
            } else if a < before.len() {
                assert(before.contains(before[a]));
            } else if b < before.len() {
                assert(before.contains(before[b]));
            }
        }
    }
}

} // verus!
