use crate::analytics::totals::{lemma_total_step, total};
use crate::calendar::DateTime;
use crate::models::{ledger_of, Entry, Transaction};
use vstd::prelude::*;

verus! {

/// The moment of the earliest of `returned` that is not before `from`; of several at
/// that moment, the first.
pub open spec fn earliest_from(returned: Seq<Entry>, from: DateTime) -> Option<DateTime>
    decreases returned.len(),
{
    if returned.len() == 0 {
        None
    } else {
        let rest = earliest_from(returned.drop_last(), from);
        let moment = returned.last().datetime;
        if moment.key() >= from.key() && (rest is None || moment.key() < rest->0.key()) {
            Some(moment)
        } else {
            rest
        }
    }
}

/// What `earliest_from` gives is the least of the moments of `returned` that are not
/// before `from`, and there is none exactly where there is no such moment.
pub proof fn lemma_earliest_from(returned: Seq<Entry>, from: DateTime)
    ensures
        earliest_from(returned, from) is None <==> forall|i: int|
            0 <= i < returned.len() ==> (#[trigger] returned[i]).datetime.key() < from.key(),
        earliest_from(returned, from) matches Some(moment) ==> {
            &&& moment.key() >= from.key()
            &&& exists|i: int| 0 <= i < returned.len() && (#[trigger] returned[i]).datetime == moment
            &&& forall|i: int|
                0 <= i < returned.len() && (#[trigger] returned[i]).datetime.key() >= from.key()
                    ==> moment.key() <= returned[i].datetime.key()
        },
    decreases returned.len(),
{
    if returned.len() > 0 {
        let front = returned.drop_last();
        lemma_earliest_from(front, from);
        assert forall|i: int| 0 <= i < front.len() implies front[i] == returned[i] by {}
        let last = returned.len() - 1;
        match earliest_from(returned, from) {
            Some(moment) => {
                if earliest_from(front, from) == Some(moment) && !(returned[last].datetime
                    == moment) {
                    let i = choose|i: int|
                        0 <= i < front.len() && (#[trigger] front[i]).datetime == moment;
                    assert(returned[i].datetime == moment);
                } else {
                    assert(returned[last].datetime == moment);
                }
                assert forall|i: int|
                    0 <= i < returned.len() && (#[trigger] returned[i]).datetime.key()
                        >= from.key() implies moment.key() <= returned[i].datetime.key() by {
                    if i < last {
                        assert(front[i].datetime.key() >= from.key());
                    }
                }
            },
            None => {
                assert forall|i: int| 0 <= i < returned.len() implies (
                #[trigger] returned[i]).datetime.key() < from.key() by {
                    if i < last {
                        assert(front[i].datetime.key() < from.key());
                    }
                }
            },
        }
        if forall|i: int|
            0 <= i < returned.len() ==> (#[trigger] returned[i]).datetime.key() < from.key() {
            assert(returned[last].datetime.key() < from.key());
            assert forall|i: int| 0 <= i < front.len() implies (#[trigger] front[i]).datetime.key()
                < from.key() by {
                assert(returned[i].datetime.key() < from.key());
            }
        }
    }
}

/// A loan with a date by which it was expected back, whose promise was kept: the first
/// return at or after the moment of the loan came on or before that date.
pub open spec fn promise_kept(loan: Entry, returned: Seq<Entry>) -> bool {
    &&& loan.expected_return_date matches Some(expected)
    &&& earliest_from(returned, loan.datetime) matches Some(moment)
    &&& moment.date.key() <= expected.key()
}

/// One for a loan with a date by which it was expected back.
pub open spec fn promise_weight() -> spec_fn(Entry) -> int {
    |e: Entry|
        if e.expected_return_date is Some {
            1int
        } else {
            0int
        }
}

/// One for a loan whose promise was kept.
pub open spec fn kept_weight(returned: Seq<Entry>) -> spec_fn(Entry) -> int {
    |e: Entry|
        if promise_kept(e, returned) {
            1int
        } else {
            0int
        }
}

/// How many of the loans with a date by which they were expected back kept their
/// promise, and how many such loans there are; nothing where there is no such loan.
pub open spec fn promise_keeping_rate(lent: Seq<Entry>, returned: Seq<Entry>) -> Option<
    (int, int),
> {
    if total(lent, promise_weight()) == 0 {
        None
    } else {
        Some((total(lent, kept_weight(returned)), total(lent, promise_weight())))
    }
}

fn first_return_from(returned: &Vec<Transaction>, from: &DateTime) -> (r: Option<DateTime>)
    ensures
        r == earliest_from(ledger_of(returned@), *from),
{
    let ghost ledger = ledger_of(returned@);
    let start = from.order_key();
    let mut best: Option<DateTime> = None;
    let mut j: usize = 0;
    while j < returned.len()
        invariant
            j <= returned.len(),
            ledger == ledger_of(returned@),
            start == from.key(),
            best == earliest_from(ledger.take(j as int), *from),
        decreases returned.len() - j,
    {
        proof {
            assert(ledger.take(j + 1).drop_last() =~= ledger.take(j as int));
        }
        let moment = returned[j].datetime;
        let key = moment.order_key();
        if key >= start {
            let better = match best {
                Some(found) => key < found.order_key(),
                None => true,
            };
            if better {
                best = Some(moment);
            }
        }
        j += 1;
    }
    proof {
        assert(ledger.take(j as int) =~= ledger);
    }
    best
}

/// How many of the loans with a date by which they were expected back kept their
/// promise, and how many such loans there are. A return may be the first after several
/// loans and then counts for each of them.
pub fn calculate_promise_keeping_rate(lent: &Vec<Transaction>, returned: &Vec<Transaction>) -> (r:
    Option<(usize, usize)>)
    ensures
        match promise_keeping_rate(ledger_of(lent@), ledger_of(returned@)) {
            Some((kept, promises)) => r == Some((kept as usize, promises as usize)) && 0 <= kept
                <= promises <= lent.len(),
            None => r is None,
        },
{
    let ghost loans = ledger_of(lent@);
    let ghost given_back = ledger_of(returned@);
    let mut kept: usize = 0;
    let mut promises: usize = 0;
    let mut i: usize = 0;
    while i < lent.len()
        invariant
            i <= lent.len(),
            loans == ledger_of(lent@),
            given_back == ledger_of(returned@),
            kept == total(loans.take(i as int), kept_weight(given_back)),
            promises == total(loans.take(i as int), promise_weight()),
            kept <= promises <= i,
        decreases lent.len() - i,
    {
        proof {
            lemma_total_step(loans, i as int, kept_weight(given_back));
            lemma_total_step(loans, i as int, promise_weight());
        }
        let loan = &lent[i];
        match loan.expected_return_date {
            Some(expected) => {
                promises += 1;
                match first_return_from(returned, &loan.datetime) {
                    Some(moment) => {
                        if moment.date.order_key() <= expected.order_key() {
                            kept += 1;
                        }
                    },
                    None => {},
                }
            },
            None => {},
        }
        i += 1;
    }
    proof {
        assert(loans.take(i as int) =~= loans);
    }
    if promises > 0 {
        Some((kept, promises))
    } else {
        None
    }
}

/// A loan with a date by which it is expected back keeps its promise exactly where the
/// first return at or after the moment of the loan comes on or before that date; no
/// amount has a say in it.
pub proof fn lemma_promise_of_one_loan(loan: Entry, returned: Seq<Entry>)
    requires
        loan.expected_return_date is Some,
    ensures
        promise_kept(loan, returned) <==> (earliest_from(returned, loan.datetime) matches Some(
            moment,
        ) && moment.date.key() <= loan.expected_return_date->0.key()),
        promise_keeping_rate(seq![loan], returned) == Some(
            (
                if promise_kept(loan, returned) {
                    1int
                } else {
                    0int
                },
                1int,
            ),
        ),
{
    let one = seq![loan];
    assert(one.drop_last() =~= Seq::<Entry>::empty());
    assert(one.last() == loan);
    assert(total(one.drop_last(), promise_weight()) == 0);
    assert(total(one.drop_last(), kept_weight(returned)) == 0);
}

/// Whether promises were kept depends on the moments of the returns alone.
pub proof fn lemma_promise_ignores_amounts(from: DateTime, a: Seq<Entry>, b: Seq<Entry>)
    requires
        a.len() == b.len(),
        forall|i: int| 0 <= i < a.len() ==> (#[trigger] a[i]).datetime == b[i].datetime,
    ensures
        earliest_from(a, from) == earliest_from(b, from),
    decreases a.len(),
{
    if a.len() > 0 {
        assert forall|i: int| 0 <= i < a.drop_last().len() implies (
        #[trigger] a.drop_last()[i]).datetime == b.drop_last()[i].datetime by {
            assert(a[i].datetime == b[i].datetime);
        }
        lemma_promise_ignores_amounts(from, a.drop_last(), b.drop_last());
        assert(a[a.len() - 1].datetime == b[a.len() - 1].datetime);
    }
}

} // verus!
