use crate::analytics::balances::{
    balance_of, balance_weight, signed_amount, CurrencyBalances,
};
use crate::analytics::totals::{lemma_total_insert, lemma_total_step, total};
use crate::models::{amounts_fit, ledger_of, Entry, MoneyType, Transaction, MAX_AMOUNT};
use crate::sorting::{
    insertion_point, lemma_insertion_point, lemma_stable_order, places, sort_numbers,
    sorted_order, stable_order,
};
use vstd::prelude::*;

verus! {

/// The keys of the moments of the entries of a ledger.
pub open spec fn moments_of(ledger: Seq<Entry>) -> Seq<u128> {
    Seq::new(ledger.len(), |i: int| ledger[i].datetime.key() as u128)
}

/// The entries of a ledger at the places that `order` lists.
pub open spec fn arranged(ledger: Seq<Entry>, order: Seq<int>) -> Seq<Entry> {
    Seq::new(order.len(), |p: int| ledger[order[p]])
}

/// The entries of a ledger in the order of their moments; entries of one moment stay in
/// the order of the ledger.
pub open spec fn chronological(ledger: Seq<Entry>) -> Seq<Entry> {
    arranged(ledger, stable_order::<u128>(moments_of(ledger)))
}

/// One point of the timeline of a currency: the place of an entry in the chronological
/// order, and the balance in the currency after that entry.
#[derive(Clone, Copy, Debug, PartialEq, Eq, Structural)]
pub struct TimelinePoint {
    pub index: usize,
    pub balance: i128,
}

/// One point of the timeline of a currency, as plain mathematical values.
pub struct Sample {
    pub index: int,
    pub balance: int,
}

impl View for TimelinePoint {
    type V = Sample;

    open spec fn view(&self) -> Sample {
        Sample { index: self.index as int, balance: self.balance as int }
    }
}

/// The points of a timeline as plain mathematical values.
pub open spec fn samples_of(points: Seq<TimelinePoint>) -> Seq<Sample> {
    Seq::new(points.len(), |i: int| points[i]@)
}

/// The timeline of a currency over the first `k` entries of `entries`: for each entry in
/// that currency its place and the balance in the currency up to and with it.
pub open spec fn running_balances(entries: Seq<Entry>, currency: MoneyType, k: nat) -> Seq<Sample>
    decreases k,
{
    if k == 0 {
        Seq::empty()
    } else {
        let before = running_balances(entries, currency, (k - 1) as nat);
        if entries[k - 1].money_type == currency {
            before.push(
                Sample { index: k - 1, balance: balance_of(entries.take(k as int), currency) },
            )
        } else {
            before
        }
    }
}

/// The timeline of a currency: the entries in that currency in chronological order, each
/// with its place in the chronological order of the whole ledger and the balance in the
/// currency after it.
pub open spec fn timeline_of(ledger: Seq<Entry>, currency: MoneyType) -> Seq<Sample> {
    running_balances(chronological(ledger), currency, ledger.len())
}

/// The first `k` entries of a ledger in the order of their moments have the total of
/// the first `k` entries.
proof fn lemma_total_sorted(ledger: Seq<Entry>, k: nat, weight: spec_fn(Entry) -> int)
    requires
        k <= ledger.len(),
    ensures
        total(arranged(ledger, sorted_order::<u128>(moments_of(ledger), k)), weight) == total(
            ledger.take(k as int),
            weight,
        ),
    decreases k,
{
    let keys = moments_of(ledger);
    if k == 0 {
        assert(arranged(ledger, sorted_order::<u128>(keys, 0)) =~= Seq::<Entry>::empty());
        assert(ledger.take(0) =~= Seq::<Entry>::empty());
    } else {
        let before = sorted_order::<u128>(keys, (k - 1) as nat);
        let at = insertion_point::<u128>(keys, before, keys[k - 1]);
        lemma_insertion_point::<u128>(keys, before, keys[k - 1]);
        lemma_total_sorted(ledger, (k - 1) as nat, weight);
        assert(arranged(ledger, before.insert(at, k - 1)) =~= arranged(ledger, before).insert(
            at,
            ledger[k - 1],
        ));
        lemma_total_insert(arranged(ledger, before), at, ledger[k - 1], weight);
        lemma_total_step(ledger, k - 1, weight);
    }
}

/// Arranging the entries of a ledger by their moments does not change a total.
pub proof fn lemma_total_chronological(ledger: Seq<Entry>, weight: spec_fn(Entry) -> int)
    ensures
        total(chronological(ledger), weight) == total(ledger, weight),
{
    lemma_total_sorted(ledger, ledger.len(), weight);
    assert(ledger.take(ledger.len() as int) =~= ledger);
}

proof fn lemma_running_balances(entries: Seq<Entry>, currency: MoneyType, k: nat)
    requires
        k <= entries.len(),
    ensures
        running_balances(entries, currency, k).len() > 0 ==> running_balances(
            entries,
            currency,
            k,
        ).last().balance == balance_of(entries.take(k as int), currency),
        running_balances(entries, currency, k).len() == 0 ==> balance_of(
            entries.take(k as int),
            currency,
        ) == 0,
    decreases k,
{
    if k > 0 {
        lemma_running_balances(entries, currency, (k - 1) as nat);
        lemma_total_step(entries, k - 1, balance_weight(currency));
    } else {
        assert(entries.take(0).len() == 0);
    }
}

/// The timeline of a currency ends at the balance in that currency, and a currency
/// without a timeline has the balance zero.
pub proof fn lemma_timeline_ends_at_balance(ledger: Seq<Entry>, currency: MoneyType)
    ensures
        timeline_of(ledger, currency).len() > 0 ==> timeline_of(ledger, currency).last().balance
            == balance_of(ledger, currency),
        timeline_of(ledger, currency).len() == 0 ==> balance_of(ledger, currency) == 0,
{
    let entries = chronological(ledger);
    lemma_stable_order::<u128>(moments_of(ledger));
    lemma_running_balances(entries, currency, ledger.len());
    assert(entries.take(ledger.len() as int) =~= entries);
    lemma_total_chronological(ledger, balance_weight(currency));
}

/// The keys of the moments of the transactions.
pub fn moments(transactions: &Vec<Transaction>) -> (keys: Vec<u128>)
    ensures
        keys@ == moments_of(ledger_of(transactions@)),
{
    let mut keys: Vec<u128> = Vec::new();
    let mut i: usize = 0;
    while i < transactions.len()
        invariant
            i <= transactions.len(),
            keys@ == moments_of(ledger_of(transactions@)).take(i as int),
        decreases transactions.len() - i,
    {
        keys.push(transactions[i].datetime.order_key());
        proof {
            assert(keys@ =~= moments_of(ledger_of(transactions@)).take(i + 1));
        }
        i += 1;
    }
    proof {
        assert(keys@ =~= moments_of(ledger_of(transactions@)));
    }
    keys
}

/// For each of the six currencies, at its place among them, the timeline of the
/// owner's balance in it.
pub fn generate_balance_timeline(transactions: &Vec<Transaction>) -> (timeline: Vec<
    Vec<TimelinePoint>,
>)
    requires
        amounts_fit(ledger_of(transactions@)),
    ensures
        timeline.len() == 6,
        forall|c: MoneyType|
            samples_of((#[trigger] timeline[c.index()])@) == timeline_of(
                ledger_of(transactions@),
                c,
            ),
{
    let ghost ledger = ledger_of(transactions@);
    let ghost entries = chronological(ledger);
    let n = transactions.len();
    let keys = moments(transactions);
    let order = sort_numbers(&keys);
    let mut timeline: Vec<Vec<TimelinePoint>> = Vec::new();
    let mut c: usize = 0;
    while c < 6
        invariant
            c <= 6,
            timeline.len() == c,
            forall|j: int| 0 <= j < c ==> (#[trigger] timeline[j])@.len() == 0,
        decreases 6 - c,
    {
        timeline.push(Vec::new());
        c += 1;
    }
    proof {
        lemma_stable_order::<u128>(moments_of(ledger));
        assert(entries.len() == n);
        assert forall|p: int| 0 <= p < n implies (#[trigger] entries[p]).amount <= MAX_AMOUNT by {
            assert(entries[p] == ledger[order[p] as int]);
        }
        assert forall|c: MoneyType|
            samples_of((#[trigger] timeline[c.index()])@) == running_balances(
                entries,
                c,
                0,
            ) by {
            assert(samples_of(timeline[c.index()]@) =~= Seq::<Sample>::empty());
        }
    }
    let mut balances = CurrencyBalances::zero();
    let mut p: usize = 0;
    while p < n
        invariant
            p <= n,
            n == transactions.len(),
            n == order.len(),
            ledger == ledger_of(transactions@),
            entries == chronological(ledger),
            entries.len() == n,
            places(order@) == stable_order::<u128>(moments_of(ledger)),
            forall|i: int| 0 <= i < order.len() ==> (#[trigger] order[i]) < n,
            forall|i: int| 0 <= i < n ==> (#[trigger] entries[i]).amount <= MAX_AMOUNT,
            timeline.len() == 6,
            forall|c: MoneyType| #[trigger] balances.of(c) == balance_of(entries.take(p as int), c),
            forall|c: MoneyType| -p * MAX_AMOUNT <= #[trigger] balances.of(c) <= p * MAX_AMOUNT,
            forall|c: MoneyType|
                samples_of((#[trigger] timeline[c.index()])@) == running_balances(
                    entries,
                    c,
                    p as nat,
                ),
        decreases n - p,
    {
        let transaction = &transactions[order[p]];
        let currency = transaction.money_type;
        let ghost shown = timeline@;
        proof {
            assert(places(order@)[p as int] == order[p as int]);
            assert(entries[p as int] == transaction@);
            assert(entries[p as int].amount <= MAX_AMOUNT);
            assert forall|c: MoneyType|
                balance_of(entries.take(p + 1), c) == balance_of(entries.take(p as int), c)
                    + balance_weight(c)(entries[p as int]) by {
                lemma_total_step(entries, p as int, balance_weight(c));
            }
        }
        balances = balances.with_change(currency, signed_amount(transaction));
        let point = TimelinePoint { index: p, balance: balances.get(currency) };
        timeline[currency.position()].push(point);
        proof {
            assert forall|c: MoneyType|
                samples_of((#[trigger] timeline[c.index()])@) == running_balances(
                    entries,
                    c,
                    (p + 1) as nat,
                ) by {
                if c == currency {
                    assert(samples_of(timeline[c.index()]@) =~= samples_of(shown[c.index()]@).push(
                        point@,
                    ));
                } else {
                    assert(c.index() != currency.index());
                    assert(timeline[c.index()] == shown[c.index()]);
                }
            }
        }
        p += 1;
    }
    proof {
        assert(entries.take(n as int) =~= entries);
    }
    timeline
}

} // verus!
