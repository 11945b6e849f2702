use crate::analytics::totals::{lemma_total_bounds, lemma_total_step, total};
use crate::calendar::{lemma_datetime_key_order, lemma_day_numbers_follow_time};
use crate::models::{ledger_of, Entry, Transaction};
use vstd::prelude::*;

verus! {

/// A moment of the ledger, reduced to what the time between a loan and its return is
/// computed from.
#[derive(Clone, Copy, Debug, PartialEq, Eq, Structural)]
pub struct Stamp {
    /// The key of the moment, by which moments are ordered.
    pub moment: u128,
    /// The number of the day of the moment.
    pub day: i32,
}

/// Of the loans of `lent` that are not after `until`, the latest; of several at that
/// moment, the last.
pub open spec fn latest_until(lent: Seq<Stamp>, until: u128) -> Option<Stamp>
    decreases lent.len(),
{
    if lent.len() == 0 {
        None
    } else {
        let rest = latest_until(lent.drop_last(), until);
        let loan = lent.last();
        if loan.moment <= until && (rest is None || rest->0.moment <= loan.moment) {
            Some(loan)
        } else {
            rest
        }
    }
}

/// What `latest_until` gives is a loan of `lent` that is not after `until` and not before
/// any other such loan, and there is none exactly where there is no such loan.
pub proof fn lemma_latest_until(lent: Seq<Stamp>, until: u128)
    ensures
        latest_until(lent, until) is None <==> forall|i: int|
            0 <= i < lent.len() ==> (#[trigger] lent[i]).moment > until,
        latest_until(lent, until) matches Some(loan) ==> {
            &&& loan.moment <= until
            &&& exists|i: int| 0 <= i < lent.len() && #[trigger] lent[i] == loan
            &&& forall|i: int|
                0 <= i < lent.len() && (#[trigger] lent[i]).moment <= until ==> lent[i].moment
                    <= loan.moment
        },
    decreases lent.len(),
{
    if lent.len() > 0 {
        let front = lent.drop_last();
        lemma_latest_until(front, until);
        assert forall|i: int| 0 <= i < front.len() implies front[i] == lent[i] by {}
        let last = lent.len() - 1;
        match latest_until(lent, until) {
            Some(loan) => {
                if latest_until(front, until) == Some(loan) && lent[last] != loan {
                    let i = choose|i: int| 0 <= i < front.len() && #[trigger] front[i] == loan;
                    assert(lent[i] == loan);
                } else {
                    assert(lent[last] == loan);
                }
                assert forall|i: int|
                    0 <= i < lent.len() && (#[trigger] lent[i]).moment <= until implies lent[i].moment
                        <= loan.moment by {
                    if i < last {
                        assert(front[i].moment <= until);
                    }
                }
            },
            None => {
                assert forall|i: int| 0 <= i < lent.len() implies (#[trigger] lent[i]).moment
                    > until by {
                    if i < last {
                        assert(front[i].moment > until);
                    }
                }
            },
        }
        if forall|i: int| 0 <= i < lent.len() ==> (#[trigger] lent[i]).moment > until {
            assert(lent[last].moment > until);
            assert forall|i: int| 0 <= i < front.len() implies (#[trigger] front[i]).moment
                > until by {
                assert(lent[i].moment > until);
            }
        }
    }
}

/// The whole days from the latest loan that is not after a return to that return;
/// nothing for a return without such a loan.
pub open spec fn days_weight(lent: Seq<Stamp>) -> spec_fn(Stamp) -> int {
    |back: Stamp|
        match latest_until(lent, back.moment) {
            Some(loan) => back.day - loan.day,
            None => 0,
        }
}

/// One for a return that has a loan that is not after it.
pub open spec fn matched_weight(lent: Seq<Stamp>) -> spec_fn(Stamp) -> int {
    |back: Stamp|
        if latest_until(lent, back.moment) is Some {
            1int
        } else {
            0int
        }
}

/// The days between loans and their returns, summed over the returns that have a loan
/// before them, with the number of these returns. Their quotient is the average time
/// in days that a return took.
#[derive(Clone, Copy, Debug, PartialEq, Eq, Structural)]
pub struct ReturnLatency {
    pub total_days: i128,
    pub matched: usize,
}

/// The time that returns took: for each return the days since the latest loan that is
/// not after it. There is none where no return has such a loan.
pub open spec fn return_latency(lent: Seq<Stamp>, returned: Seq<Stamp>) -> Option<ReturnLatency> {
    if total(returned, matched_weight(lent)) == 0 {
        None
    } else {
        Some(
            ReturnLatency {
                total_days: total(returned, days_weight(lent)) as i128,
                matched: total(returned, matched_weight(lent)) as usize,
            },
        )
    }
}

fn last_loan_until(lent: &Vec<Stamp>, until: u128) -> (r: Option<Stamp>)
    ensures
        r == latest_until(lent@, until),
{
    let mut best: Option<Stamp> = None;
    let mut j: usize = 0;
    while j < lent.len()
        invariant
            j <= lent.len(),
            best == latest_until(lent@.take(j as int), until),
        decreases lent.len() - j,
    {
        proof {
            assert(lent@.take(j + 1).drop_last() =~= lent@.take(j as int));
        }
        let loan = lent[j];
        if loan.moment <= until {
            let later = match best {
                Some(found) => found.moment <= loan.moment,
                None => true,
            };
            if later {
                best = Some(loan);
            }
        }
        j += 1;
    }
    proof {
        assert(lent@.take(j as int) =~= lent@);
    }
    best
}

/// The time that returns took, from the moments and day numbers of loans and returns.
pub fn average_return_time(lent: &Vec<Stamp>, returned: &Vec<Stamp>) -> (r: Option<ReturnLatency>)
    ensures
        r == return_latency(lent@, returned@),
        r matches Some(latency) ==> {
            &&& latency.total_days == total(returned@, days_weight(lent@))
            &&& latency.matched == total(returned@, matched_weight(lent@))
            &&& 0 < latency.matched <= returned.len()
        },
{
    let mut total_days: i128 = 0;
    let mut count: usize = 0;
    let mut i: usize = 0;
    while i < returned.len()
        invariant
            i <= returned.len(),
            total_days == total(returned@.take(i as int), days_weight(lent@)),
            count == total(returned@.take(i as int), matched_weight(lent@)),
            count <= i,
            -i * 0x1_0000_0000 <= total_days <= i * 0x1_0000_0000,
        decreases returned.len() - i,
    {
        proof {
            lemma_total_step(returned@, i as int, days_weight(lent@));
            lemma_total_step(returned@, i as int, matched_weight(lent@));
        }
        let back = returned[i];
        match last_loan_until(lent, back.moment) {
            Some(loan) => {
                total_days = total_days + (back.day as i128 - loan.day as i128);
                count += 1;
            },
            None => {},
        }
        i += 1;
    }
    proof {
        assert(returned@.take(i as int) =~= returned@);
    }
    if count > 0 {
        Some(ReturnLatency { total_days, matched: count })
    } else {
        None
    }
}

/// The moment and the day number of each entry of a ledger.
pub open spec fn stamps_of(ledger: Seq<Entry>) -> Seq<Stamp> {
    Seq::new(
        ledger.len(),
        |i: int|
            Stamp {
                moment: ledger[i].datetime.key() as u128,
                day: ledger[i].datetime.date.day_number() as i32,
            },
    )
}

/// Every entry of the ledger lies on a day of the calendar.
pub open spec fn dates_valid(ledger: Seq<Entry>) -> bool {
    forall|i: int| 0 <= i < ledger.len() ==> (#[trigger] ledger[i]).datetime.date.valid()
}

/// The moment and the day number of each transaction; nothing where one of them lies
/// on a day that the calendar does not have.
pub fn stamps(transactions: &Vec<Transaction>) -> (r: Option<Vec<Stamp>>)
    ensures
        r is Some <==> dates_valid(ledger_of(transactions@)),
        r matches Some(list) ==> list@ == stamps_of(ledger_of(transactions@)),
{
    let ghost ledger = ledger_of(transactions@);
    let mut list: Vec<Stamp> = Vec::new();
    let mut i: usize = 0;
    while i < transactions.len()
        invariant
            i <= transactions.len(),
            ledger == ledger_of(transactions@),
            dates_valid(ledger.take(i as int)),
            list@ == stamps_of(ledger.take(i as int)),
        decreases transactions.len() - i,
    {
        let moment = &transactions[i].datetime;
        match moment.date.to_day_number() {
            Some(day) => {
                list.push(Stamp { moment: moment.order_key(), day });
            },
            None => {
                assert(!ledger[i as int].datetime.date.valid());
                return None;
            },
        }
        proof {
            assert(list@ =~= stamps_of(ledger.take(i + 1)));
            assert forall|k: int| 0 <= k < i + 1 implies (#[trigger] ledger.take(
                i + 1,
            )[k]).datetime.date.valid() by {
                if k < i {
                    assert(ledger.take(i as int)[k].datetime.date.valid());
                }
            }
        }
        i += 1;
    }
    proof {
        assert(ledger.take(i as int) =~= ledger);
    }
    Some(list)
}

/// The time that returns took: for each of `returned` the days since the latest of `lent`
/// that is not after it, summed, with the number of returns that have such a loan.
/// There is none where no return has a loan before it, and none where a transaction
/// lies on a day that the calendar does not have.
pub fn calculate_avg_return_time(lent: &Vec<Transaction>, returned: &Vec<Transaction>) -> (r:
    Option<ReturnLatency>)
    ensures
        dates_valid(ledger_of(lent@)) && dates_valid(ledger_of(returned@)) ==> r
            == return_latency(stamps_of(ledger_of(lent@)), stamps_of(ledger_of(returned@))),
        !(dates_valid(ledger_of(lent@)) && dates_valid(ledger_of(returned@))) ==> r is None,
{
    if lent.len() == 0 || returned.len() == 0 {
        proof {
            let loans = stamps_of(ledger_of(lent@));
            let given_back = stamps_of(ledger_of(returned@));
            if lent.len() == 0 {
                assert forall|i: int| 0 <= i < given_back.len() implies 0 <= #[trigger] matched_weight(
                    loans,
                )(given_back[i]) <= 0 by {}
            }
            lemma_total_bounds(given_back, matched_weight(loans), 0, 0);
            assert(given_back.len() * 0 == 0);
        }
        return None;
    }
    match stamps(lent) {
        Some(loans) => match stamps(returned) {
            Some(given_back) => average_return_time(&loans, &given_back),
            None => None,
        },
        None => None,
    }
}

/// Without returns, and without loans, the time that returns took cannot be computed.
pub proof fn lemma_no_latency_without_returns(lent: Seq<Stamp>, returned: Seq<Stamp>)
    requires
        lent.len() == 0 || returned.len() == 0,
    ensures
        return_latency(lent, returned) is None,
{
    if lent.len() == 0 {
        assert forall|i: int| 0 <= i < returned.len() implies 0 <= #[trigger] matched_weight(lent)(
            returned[i],
        ) <= 0 by {}
    }
    lemma_total_bounds(returned, matched_weight(lent), 0, 0);
    assert(returned.len() * 0 == 0);
}

/// The time that returns took is not negative: a return is counted from a loan that is
/// not after it, and a day that is not after another has no greater number.
pub proof fn lemma_latency_not_negative(lent: Seq<Entry>, returned: Seq<Entry>)
    requires
        dates_valid(lent),
        dates_valid(returned),
        returned.len() <= usize::MAX,
    ensures
        total(stamps_of(returned), days_weight(stamps_of(lent))) >= 0,
        return_latency(stamps_of(lent), stamps_of(returned)) matches Some(latency)
            ==> latency.total_days >= 0,
{
    let loans = stamps_of(lent);
    let backs = stamps_of(returned);
    let weight = days_weight(loans);
    assert forall|i: int| 0 <= i < backs.len() implies 0 <= #[trigger] weight(backs[i])
        <= 0x1_0000_0000 by {
        let back = backs[i];
        lemma_latest_until(loans, back.moment);
        match latest_until(loans, back.moment) {
            Some(loan) => {
                let k = choose|k: int| 0 <= k < loans.len() && #[trigger] loans[k] == loan;
                let from = lent[k].datetime;
                let to = returned[i].datetime;
                assert(from.date.valid() && to.date.valid());
                lemma_datetime_key_order(from, to);
                lemma_day_numbers_follow_time(from.date, to.date);
                lemma_day_numbers_follow_time(to.date, from.date);
            },
            None => {},
        }
    }
    lemma_total_bounds(backs, weight, 0, 0x1_0000_0000);
    assert(backs.len() * 0 == 0);
    assert(backs.len() * 0x1_0000_0000 <= usize::MAX * 0x1_0000_0000) by (nonlinear_arith)
        requires
            backs.len() <= usize::MAX,
    ;
}

} // verus!
