use crate::analytics::totals::{lemma_total_bounds, lemma_total_step, total};
use crate::models::{ledger_of, Entry, MoneyType, Transaction};
use vstd::prelude::*;

verus! {

/// The amount of an entry between the owner and `person` in `currency` that is a loan
/// (`debts`) or gives money back (not `debts`); nothing for any other entry.
pub open spec fn pair_weight(person: Seq<char>, currency: MoneyType, debts: bool) -> spec_fn(
    Entry,
) -> int {
    |e: Entry|
        if e.person == person && e.money_type == currency && e.direction.is_debt() == debts {
            e.amount as int
        } else {
            0
        }
}

/// All that the owner and `person` gave back to each other in `currency`.
pub open spec fn repayments(ledger: Seq<Entry>, person: Seq<char>, currency: MoneyType) -> int {
    total(ledger, pair_weight(person, currency, false))
}

/// The loans between the owner and the counterparty of entry `i`, in its currency, from
/// the first entry of the ledger up to and with entry `i`.
pub open spec fn debts_through(ledger: Seq<Entry>, i: int) -> int {
    total(ledger.take(i + 1), pair_weight(ledger[i].person, ledger[i].money_type, true))
}

/// Entry `i` is a loan that counts as paid back: what was given back between the two
/// parties in that currency covers this loan and every earlier one between them.
pub open spec fn is_paid_back(ledger: Seq<Entry>, i: int) -> bool {
    &&& 0 <= i < ledger.len()
    &&& ledger[i].direction.is_debt()
    &&& debts_through(ledger, i) <= repayments(ledger, ledger[i].person, ledger[i].money_type)
}

/// Where the walk over the loans of one pair stands after the first `k` entries of the
/// ledger: what is left of the repayments, and whether a loan has been met that they no
/// longer covered.
pub open spec fn reconcile(
    ledger: Seq<Entry>,
    person: Seq<char>,
    currency: MoneyType,
    k: nat,
) -> (int, bool)
    decreases k,
{
    if k == 0 {
        (repayments(ledger, person, currency), false)
    } else {
        let (available, stopped) = reconcile(ledger, person, currency, (k - 1) as nat);
        let e = ledger[k - 1];
        if stopped || !(e.person == person && e.money_type == currency && e.direction.is_debt()) {
            (available, stopped)
        } else if available >= e.amount {
            (available - e.amount, false)
        } else {
            (available, true)
        }
    }
}

/// Entry `i` is a loan that the walk over its pair marks: the walk has not stopped before
/// it, and what is left covers it.
pub open spec fn marked_by_walk(ledger: Seq<Entry>, i: int) -> bool {
    let e = ledger[i];
    let (available, stopped) = reconcile(ledger, e.person, e.money_type, i as nat);
    0 <= i < ledger.len() && e.direction.is_debt() && !stopped && available >= e.amount
}

proof fn lemma_reconcile(ledger: Seq<Entry>, person: Seq<char>, currency: MoneyType, k: nat)
    requires
        k <= ledger.len(),
    ensures
        ({
            let (available, stopped) = reconcile(ledger, person, currency, k);
            let debts = total(ledger.take(k as int), pair_weight(person, currency, true));
            let pool = repayments(ledger, person, currency);
            &&& debts >= 0
            &&& !stopped ==> available == pool - debts && available >= 0
            &&& stopped ==> debts > pool
        }),
    decreases k,
{
    let weight = pair_weight(person, currency, true);
    if k == 0 {
        assert(ledger.take(0).len() == 0);
        lemma_total_bounds(ledger, pair_weight(person, currency, false), 0, u64::MAX as int);
        assert(ledger.len() * 0 == 0);
    } else {
        lemma_reconcile(ledger, person, currency, (k - 1) as nat);
        lemma_total_step(ledger, k - 1, weight);
    }
}

/// The loans that count as paid back are those that the walk marks: for each pair of
/// counterparty and currency the repayments are pooled, the loans are met in the order of
/// the ledger, each loan that the rest of the pool covers is marked and taken from it, and
/// the first loan that it does not cover ends the walk for that pair.
pub proof fn lemma_paid_back_is_walk(ledger: Seq<Entry>, i: int)
    ensures
        is_paid_back(ledger, i) == marked_by_walk(ledger, i),
{
    if 0 <= i < ledger.len() {
        let e = ledger[i];
        lemma_reconcile(ledger, e.person, e.money_type, i as nat);
        lemma_total_step(ledger, i, pair_weight(e.person, e.money_type, true));
    }
}

/// What the reconciliation keeps for one pair of counterparty and currency: the place of
/// the pair's first entry, what was given back, and the loans met so far.
#[derive(Clone, Copy)]
struct PairState {
    first: usize,
    pool: u128,
    used: u128,
}

spec fn same_pair(a: Entry, b: Entry) -> bool {
    a.person == b.person && a.money_type == b.money_type
}

spec fn pair_total(ledger: Seq<Entry>, state: PairState, upto: int, debts: bool) -> int {
    total(
        ledger.take(upto),
        pair_weight(
            ledger[state.first as int].person,
            ledger[state.first as int].money_type,
            debts,
        ),
    )
}

/// One of the states stands for the pair of entry `t`.
spec fn covered(ledger: Seq<Entry>, pairs: Seq<PairState>, t: int) -> bool {
    exists|j: int|
        0 <= j < pairs.len() && same_pair(ledger[(#[trigger] pairs[j]).first as int], ledger[t])
}

/// The states stand for different pairs, and each of the first `k` entries has one.
spec fn pairs_cover(ledger: Seq<Entry>, pairs: Seq<PairState>, k: int) -> bool {
    &&& forall|j: int| 0 <= j < pairs.len() ==> (#[trigger] pairs[j]).first < ledger.len()
    &&& forall|a: int, b: int|
        0 <= a < b < pairs.len() ==> !same_pair(
            ledger[(#[trigger] pairs[a]).first as int],
            ledger[(#[trigger] pairs[b]).first as int],
        )
    &&& forall|t: int| 0 <= t < k ==> #[trigger] covered(ledger, pairs, t)
}

fn find_pair(
    transactions: &Vec<Transaction>,
    pairs: &Vec<PairState>,
    transaction: &Transaction,
) -> (r: Option<usize>)
    requires
        forall|j: int| 0 <= j < pairs.len() ==> (#[trigger] pairs[j]).first < transactions.len(),
    ensures
        match r {
            Some(j) => j < pairs.len() && same_pair(
                transactions[pairs[j as int].first as int]@,
                transaction@,
            ),
            None => forall|j: int|
                0 <= j < pairs.len() ==> !same_pair(
                    transactions[(#[trigger] pairs[j]).first as int]@,
                    transaction@,
                ),
        },
{
    let mut j: usize = 0;
    while j < pairs.len()
        invariant
            j <= pairs.len(),
            forall|k: int| 0 <= k < pairs.len() ==> (#[trigger] pairs[k]).first < transactions.len(),
            forall|k: int|
                0 <= k < j ==> !same_pair(
                    transactions[(#[trigger] pairs[k]).first as int]@,
                    transaction@,
                ),
        decreases pairs.len() - j,
    {
        let first = &transactions[pairs[j].first];
        if first.money_type == transaction.money_type && first.person.name
            == transaction.person.name {
            return Some(j);
        }
        j += 1;
    }
    None
}

/// The states have the same pairs in the same places.
spec fn same_keys(a: Seq<PairState>, b: Seq<PairState>) -> bool {
    &&& a.len() == b.len()
    &&& forall|j: int|
        #![trigger a[j]]
        #![trigger b[j]]
        0 <= j < a.len() ==> a[j].first == b[j].first
}

proof fn lemma_cover_same_keys(ledger: Seq<Entry>, a: Seq<PairState>, b: Seq<PairState>, k: int)
    requires
        pairs_cover(ledger, a, k),
        same_keys(a, b),
    ensures
        pairs_cover(ledger, b, k),
{
    assert forall|x: int, y: int| 0 <= x < y < b.len() implies !same_pair(
        ledger[(#[trigger] b[x]).first as int],
        ledger[(#[trigger] b[y]).first as int],
    ) by {
        assert(a[x].first == b[x].first && a[y].first == b[y].first);
    }
    assert forall|t: int| 0 <= t < k implies #[trigger] covered(ledger, b, t) by {
        assert(covered(ledger, a, t));
        let j = choose|j: int|
            0 <= j < a.len() && same_pair(ledger[(#[trigger] a[j]).first as int], ledger[t]);
        assert(a[j].first == b[j].first);
    }
    assert forall|j: int| 0 <= j < b.len() implies (#[trigger] b[j]).first < ledger.len() by {
        assert(a[j].first == b[j].first);
    }
}

/// One more entry adds its amount to the total of its own pair and kind, and to no other.
proof fn lemma_pair_total_step(ledger: Seq<Entry>, state: PairState, i: int, debts: bool)
    requires
        0 <= i < ledger.len(),
        0 <= state.first < ledger.len(),
    ensures
        pair_total(ledger, state, i + 1, debts) == pair_total(ledger, state, i, debts) + if same_pair(
            ledger[state.first as int],
            ledger[i],
        ) && ledger[i].direction.is_debt() == debts {
            ledger[i].amount as int
        } else {
            0
        },
{
    let key = ledger[state.first as int];
    lemma_total_step(ledger, i, pair_weight(key.person, key.money_type, debts));
}

/// The pairs of the first `k` entries are known, each with what was given back in it
/// among these entries.
spec fn pools_through(ledger: Seq<Entry>, pairs: Seq<PairState>, k: int) -> bool {
    &&& pairs_cover(ledger, pairs, k)
    &&& forall|j: int|
        0 <= j < pairs.len() ==> (#[trigger] pairs[j]).pool == pair_total(
            ledger,
            pairs[j],
            k,
            false,
        ) && pairs[j].pool <= k * u64::MAX && pairs[j].used == 0
}

/// The pairs of the ledger are known, each with all that was given back in it and with
/// the loans in it among the first `k` entries.
spec fn walk_through(ledger: Seq<Entry>, pairs: Seq<PairState>, k: int) -> bool {
    &&& pairs_cover(ledger, pairs, ledger.len() as int)
    &&& forall|j: int|
        0 <= j < pairs.len() ==> (#[trigger] pairs[j]).pool == pair_total(
            ledger,
            pairs[j],
            ledger.len() as int,
            false,
        ) && pairs[j].used == pair_total(ledger, pairs[j], k, true) && pairs[j].used <= k
            * u64::MAX
}

/// A pair that none of the first `k` entries belongs to has had nothing given back.
proof fn lemma_new_pair(ledger: Seq<Entry>, pairs: Seq<PairState>, k: int)
    requires
        0 <= k < ledger.len() <= usize::MAX,
        pools_through(ledger, pairs, k),
        forall|j: int|
            0 <= j < pairs.len() ==> !same_pair(
                ledger[(#[trigger] pairs[j]).first as int],
                ledger[k],
            ),
    ensures
        pools_through(ledger, pairs.push(PairState { first: k as usize, pool: 0, used: 0 }), k),
{
    let state = PairState { first: k as usize, pool: 0, used: 0 };
    let more = pairs.push(state);
    let weight = pair_weight(ledger[k].person, ledger[k].money_type, false);
    let front = ledger.take(k);
    assert forall|t: int| 0 <= t < front.len() implies 0 <= #[trigger] weight(front[t]) <= 0 by {
        assert(front[t] == ledger[t]);
        assert(covered(ledger, pairs, t));
        let j = choose|j: int|
            0 <= j < pairs.len() && same_pair(
                ledger[(#[trigger] pairs[j]).first as int],
                ledger[t],
            );
        assert(!same_pair(ledger[pairs[j].first as int], ledger[k]));
    }
    lemma_total_bounds(front, weight, 0, 0);
    assert(front.len() * 0 == 0);
    assert(pair_total(ledger, state, k, false) == 0);
    assert forall|t: int| 0 <= t < k implies #[trigger] covered(ledger, more, t) by {
        assert(covered(ledger, pairs, t));
        let j = choose|j: int|
            0 <= j < pairs.len() && same_pair(
                ledger[(#[trigger] pairs[j]).first as int],
                ledger[t],
            );
        assert(more[j] == pairs[j]);
    }
    assert forall|a: int, b: int| 0 <= a < b < more.len() implies !same_pair(
        ledger[(#[trigger] more[a]).first as int],
        ledger[(#[trigger] more[b]).first as int],
    ) by {
        assert(more[a] == pairs[a]);
        if b < pairs.len() {
            assert(more[b] == pairs[b]);
        }
    }
    assert forall|j: int| 0 <= j < more.len() implies (#[trigger] more[j]).pool == pair_total(
        ledger,
        more[j],
        k,
        false,
    ) && more[j].pool <= k * u64::MAX && more[j].used == 0 && more[j].first < ledger.len() by {
        if j < pairs.len() {
            assert(more[j] == pairs[j]);
        }
    }
}

/// Entry `k` adds what it gives back to the pool of its pair.
proof fn lemma_pool_step(ledger: Seq<Entry>, pairs: Seq<PairState>, k: int, at: int)
    requires
        0 <= k < ledger.len() <= usize::MAX,
        0 <= at < pairs.len(),
        pools_through(ledger, pairs, k),
        same_pair(ledger[pairs[at].first as int], ledger[k]),
    ensures
        ({
            let given = if ledger[k].direction.is_debt() {
                0
            } else {
                ledger[k].amount as int
            };
            pairs[at].pool + given <= (k + 1) * u64::MAX && pools_through(
                ledger,
                pairs.update(
                    at,
                    PairState {
                        first: pairs[at].first,
                        pool: (pairs[at].pool + given) as u128,
                        used: 0,
                    },
                ),
                k + 1,
            )
        }),
{
    let given = if ledger[k].direction.is_debt() {
        0
    } else {
        ledger[k].amount as int
    };
    let state = PairState {
        first: pairs[at].first,
        pool: (pairs[at].pool + given) as u128,
        used: 0,
    };
    let after = pairs.update(at, state);
    assert(same_keys(pairs, after)) by {
        assert forall|j: int| 0 <= j < pairs.len() implies pairs[j].first == after[j].first by {
            if j != at {
                assert(after[j] == pairs[j]);
            }
        }
    }
    lemma_cover_same_keys(ledger, pairs, after, k);
    assert(pairs_cover(ledger, after, k + 1)) by {
        assert forall|t: int| 0 <= t < k + 1 implies #[trigger] covered(ledger, after, t) by {
            if t == k {
                assert(after[at].first == pairs[at].first);
            }
        }
    }
    assert forall|j: int| 0 <= j < after.len() implies (#[trigger] after[j]).pool == pair_total(
        ledger,
        after[j],
        k + 1,
        false,
    ) && after[j].pool <= (k + 1) * u64::MAX && after[j].used == 0 by {
        lemma_pair_total_step(ledger, pairs[j], k, false);
        assert(after[j].first == pairs[j].first);
        if j != at {
            assert(after[j] == pairs[j]);
            if j < at {
                assert(!same_pair(ledger[pairs[j].first as int], ledger[pairs[at].first as int]));
            } else {
                assert(!same_pair(ledger[pairs[at].first as int], ledger[pairs[j].first as int]));
            }
        }
    }
}

/// Entry `k`, where it is a loan, adds its amount to the loans of its pair, and it
/// counts as paid back exactly where the pool of the pair covers the loans so far.
proof fn lemma_walk_step(ledger: Seq<Entry>, pairs: Seq<PairState>, k: int, at: int)
    requires
        0 <= k < ledger.len() <= usize::MAX,
        0 <= at < pairs.len(),
        walk_through(ledger, pairs, k),
        same_pair(ledger[pairs[at].first as int], ledger[k]),
    ensures
        ({
            let loan = if ledger[k].direction.is_debt() {
                ledger[k].amount as int
            } else {
                0
            };
            &&& pairs[at].used + loan <= (k + 1) * u64::MAX
            &&& walk_through(
                ledger,
                pairs.update(
                    at,
                    PairState {
                        first: pairs[at].first,
                        pool: pairs[at].pool,
                        used: (pairs[at].used + loan) as u128,
                    },
                ),
                k + 1,
            )
            &&& is_paid_back(ledger, k) == (ledger[k].direction.is_debt() && pairs[at].used + loan
                <= pairs[at].pool)
        }),
{
    let loan = if ledger[k].direction.is_debt() {
        ledger[k].amount as int
    } else {
        0
    };
    let state = PairState {
        first: pairs[at].first,
        pool: pairs[at].pool,
        used: (pairs[at].used + loan) as u128,
    };
    let after = pairs.update(at, state);
    assert(same_keys(pairs, after)) by {
        assert forall|j: int| 0 <= j < pairs.len() implies pairs[j].first == after[j].first by {
            if j != at {
                assert(after[j] == pairs[j]);
            }
        }
    }
    lemma_cover_same_keys(ledger, pairs, after, ledger.len() as int);
    assert forall|j: int| 0 <= j < after.len() implies (#[trigger] after[j]).pool == pair_total(
        ledger,
        after[j],
        ledger.len() as int,
        false,
    ) && after[j].used == pair_total(ledger, after[j], k + 1, true) && after[j].used <= (k + 1)
        * u64::MAX by {
        lemma_pair_total_step(ledger, pairs[j], k, true);
        assert(after[j].first == pairs[j].first);
        assert(after[j].pool == pairs[j].pool);
        if j != at {
            assert(after[j] == pairs[j]);
            if j < at {
                assert(!same_pair(ledger[pairs[j].first as int], ledger[pairs[at].first as int]));
            } else {
                assert(!same_pair(ledger[pairs[at].first as int], ledger[pairs[j].first as int]));
            }
        }
    }
    lemma_pair_total_step(ledger, pairs[at], k, true);
    assert(ledger.take(ledger.len() as int) =~= ledger);
}

/// Finds the pair of transaction `i`, or adds it, and adds to its pool what the
/// transaction gives back.
fn pool_repayment(transactions: &Vec<Transaction>, pairs: &mut Vec<PairState>, i: usize)
    requires
        i < transactions.len(),
        pools_through(ledger_of(transactions@), old(pairs)@, i as int),
    ensures
        pools_through(ledger_of(transactions@), final(pairs)@, i + 1),
{
    let ghost ledger = ledger_of(transactions@);
    let transaction = &transactions[i];
    let found = find_pair(transactions, pairs, transaction);
    let at = match found {
        Some(j) => j,
        None => {
            proof {
                lemma_new_pair(ledger, pairs@, i as int);
            }
            pairs.push(PairState { first: i, pool: 0, used: 0 });
            pairs.len() - 1
        },
    };
    proof {
        lemma_pool_step(ledger, pairs@, i as int, at as int);
    }
    let state = pairs[at];
    let given: u128 = if transaction.direction.opens_debt() {
        0
    } else {
        transaction.amount as u128
    };
    pairs.set(at, PairState { first: state.first, pool: state.pool + given, used: 0 });
}

/// Meets transaction `i` on the walk over the loans: where it is a loan, adds it to the
/// loans of its pair and says whether the pool of the pair covers them.
fn meet_loan(transactions: &Vec<Transaction>, pairs: &mut Vec<PairState>, i: usize) -> (mark: bool)
    requires
        i < transactions.len(),
        walk_through(ledger_of(transactions@), old(pairs)@, i as int),
    ensures
        walk_through(ledger_of(transactions@), final(pairs)@, i + 1),
        mark == is_paid_back(ledger_of(transactions@), i as int),
{
    let ghost ledger = ledger_of(transactions@);
    let transaction = &transactions[i];
    let found = find_pair(transactions, pairs, transaction);
    proof {
        assert(covered(ledger, pairs@, i as int));
        let j = choose|j: int|
            0 <= j < pairs.len() && same_pair(
                ledger[(#[trigger] pairs[j]).first as int],
                ledger[i as int],
            );
        assert(same_pair(transactions[pairs[j].first as int]@, transaction@));
    }
    match found {
        Some(at) => {
            proof {
                lemma_walk_step(ledger, pairs@, i as int, at as int);
            }
            let state = pairs[at];
            let loan: u128 = if transaction.direction.opens_debt() {
                transaction.amount as u128
            } else {
                0
            };
            let used = state.used + loan;
            pairs.set(at, PairState { first: state.first, pool: state.pool, used });
            transaction.direction.opens_debt() && used <= state.pool
        },
        None => {
            // Every entry of the ledger has a pair among the states.
            assert(false);
            false
        },
    }
}

/// For each transaction, whether it is a loan that counts as paid back.
pub fn calculate_paid_back_transactions(transactions: &Vec<Transaction>) -> (marks: Vec<bool>)
    ensures
        marks.len() == transactions.len(),
        forall|i: int|
            0 <= i < marks.len() ==> marks[i] == is_paid_back(ledger_of(transactions@), i),
{
    let ghost ledger = ledger_of(transactions@);
    let n = transactions.len();
    let mut pairs: Vec<PairState> = Vec::new();
    let mut i: usize = 0;
    while i < n
        invariant
            i <= n,
            n == transactions.len(),
            ledger == ledger_of(transactions@),
            pools_through(ledger, pairs@, i as int),
        decreases n - i,
    {
        pool_repayment(transactions, &mut pairs, i);
        i += 1;
    }
    let mut marks: Vec<bool> = Vec::new();
    let mut i: usize = 0;
    while i < n
        invariant
            i <= n,
            n == transactions.len(),
            ledger == ledger_of(transactions@),
            walk_through(ledger, pairs@, i as int),
            marks.len() == i,
            forall|t: int| 0 <= t < i ==> marks[t] == is_paid_back(ledger, t),
        decreases n - i,
    {
        let mark = meet_loan(transactions, &mut pairs, i);
        marks.push(mark);
        i += 1;
    }
    marks
}

} // verus!
