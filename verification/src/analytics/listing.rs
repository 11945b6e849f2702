use crate::analytics::timeline::moments_of;
use crate::models::{ledger_of, Entry, SortBy, Transaction};
use crate::sorting::{
    goes_before, is_arrangement, lemma_stable_order, places, ranks, sort_numbers, sort_texts,
    stable_order, TextKey,
};
use crate::text::{chars_of, lex_le};
use vstd::prelude::*;

verus! {

/// Keys whose ascending order is the descending order of `keys`.
pub open spec fn reversed(keys: Seq<u128>) -> Seq<u128> {
    Seq::new(keys.len(), |i: int| (u128::MAX - keys[i]) as u128)
}

/// The amounts of the entries of a ledger.
pub open spec fn amounts_of(ledger: Seq<Entry>) -> Seq<u128> {
    Seq::new(ledger.len(), |i: int| ledger[i].amount as u128)
}

/// The counterparties of the entries of a ledger.
pub open spec fn names_of(ledger: Seq<Entry>) -> Seq<Seq<char>> {
    Seq::new(ledger.len(), |i: int| ledger[i].person)
}

/// The places of the entries of a ledger in the order in which a list shows them.
/// Entries that the order does not tell apart stay in the order of the ledger.
pub open spec fn listing_order(ledger: Seq<Entry>, sort_by: SortBy) -> Seq<int> {
    match sort_by {
        SortBy::DateNewest => stable_order::<u128>(reversed(moments_of(ledger))),
        SortBy::DateOldest => stable_order::<u128>(moments_of(ledger)),
        SortBy::AmountHighest => stable_order::<u128>(reversed(amounts_of(ledger))),
        SortBy::AmountLowest => stable_order::<u128>(amounts_of(ledger)),
        SortBy::Person => stable_order::<TextKey>(names_of(ledger)),
    }
}

/// The order of the list ranks entry `a` before entry `b`.
pub open spec fn ranks_first(ledger: Seq<Entry>, sort_by: SortBy, a: int, b: int) -> bool {
    match sort_by {
        SortBy::DateNewest => ledger[a].datetime.key() > ledger[b].datetime.key(),
        SortBy::DateOldest => ledger[a].datetime.key() < ledger[b].datetime.key(),
        SortBy::AmountHighest => ledger[a].amount > ledger[b].amount,
        SortBy::AmountLowest => ledger[a].amount < ledger[b].amount,
        SortBy::Person => !lex_le(ledger[b].person, ledger[a].person),
    }
}

/// Entry `a` is shown before entry `b`: the order of the list ranks it first, or it
/// ranks neither first and `a` is earlier in the ledger.
pub open spec fn shown_before(ledger: Seq<Entry>, sort_by: SortBy, a: int, b: int) -> bool {
    ranks_first(ledger, sort_by, a, b) || (!ranks_first(ledger, sort_by, b, a) && a < b)
}

/// The order of a list holds every entry of the ledger once, and of two entries the one
/// that is shown first is the newer, the older, the higher, the lower, or the one whose
/// counterparty comes first in the dictionary, as the order says; entries that it does
/// not tell apart are shown in the order of the ledger.
pub proof fn lemma_listing_order(ledger: Seq<Entry>, sort_by: SortBy)
    ensures
        is_arrangement(listing_order(ledger, sort_by), ledger.len() as int),
        forall|p: int, q: int|
            0 <= p < q < ledger.len() ==> shown_before(
                ledger,
                sort_by,
                #[trigger] listing_order(ledger, sort_by)[p],
                #[trigger] listing_order(ledger, sort_by)[q],
            ),
{
    let order = listing_order(ledger, sort_by);
    match sort_by {
        SortBy::DateNewest => {
            let keys = reversed(moments_of(ledger));
            lemma_stable_order::<u128>(keys);
            assert forall|p: int, q: int| 0 <= p < q < ledger.len() implies shown_before(
                ledger,
                sort_by,
                #[trigger] order[p],
                #[trigger] order[q],
            ) by {
                assert(goes_before::<u128>(keys, order[p], order[q]));
            }
        },
        SortBy::DateOldest => {
            let keys = moments_of(ledger);
            lemma_stable_order::<u128>(keys);
            assert forall|p: int, q: int| 0 <= p < q < ledger.len() implies shown_before(
                ledger,
                sort_by,
                #[trigger] order[p],
                #[trigger] order[q],
            ) by {
                assert(goes_before::<u128>(keys, order[p], order[q]));
            }
        },
        SortBy::AmountHighest => {
            let keys = reversed(amounts_of(ledger));
            lemma_stable_order::<u128>(keys);
            assert forall|p: int, q: int| 0 <= p < q < ledger.len() implies shown_before(
                ledger,
                sort_by,
                #[trigger] order[p],
                #[trigger] order[q],
            ) by {
                assert(goes_before::<u128>(keys, order[p], order[q]));
            }
        },
        SortBy::AmountLowest => {
            let keys = amounts_of(ledger);
            lemma_stable_order::<u128>(keys);
            assert forall|p: int, q: int| 0 <= p < q < ledger.len() implies shown_before(
                ledger,
                sort_by,
                #[trigger] order[p],
                #[trigger] order[q],
            ) by {
                assert(goes_before::<u128>(keys, order[p], order[q]));
            }
        },
        SortBy::Person => {
            let keys = names_of(ledger);
            lemma_stable_order::<TextKey>(keys);
            assert forall|p: int, q: int| 0 <= p < q < ledger.len() implies shown_before(
                ledger,
                sort_by,
                #[trigger] order[p],
                #[trigger] order[q],
            ) by {
                assert(goes_before::<TextKey>(keys, order[p], order[q]));
            }
        },
    }
}

/// The places of the transactions in the order in which a list shows them.
pub fn sorted_places(transactions: &Vec<Transaction>, sort_by: SortBy) -> (order: Vec<usize>)
    ensures
        places(order@) == listing_order(ledger_of(transactions@), sort_by),
        order.len() == transactions.len(),
        forall|i: int| 0 <= i < order.len() ==> (#[trigger] order[i]) < transactions.len(),
{
    let ghost ledger = ledger_of(transactions@);
    match sort_by {
        SortBy::Person => {
            let mut keys: Vec<TextKey> = Vec::new();
            let mut i: usize = 0;
            while i < transactions.len()
                invariant
                    i <= transactions.len(),
                    ledger == ledger_of(transactions@),
                    ranks(keys@) == names_of(ledger).take(i as int),
                decreases transactions.len() - i,
            {
                let ghost before = ranks(keys@);
                keys.push(TextKey { chars: chars_of(transactions[i].person.name.as_str()) });
                proof {
                    assert(ranks(keys@) =~= before.push(ledger[i as int].person));
                    assert(ranks(keys@) =~= names_of(ledger).take(i + 1));
                }
                i += 1;
            }
            proof {
                assert(ranks(keys@) =~= names_of(ledger));
            }
            sort_texts(&keys)
        },
        _ => {
            let by_date = match sort_by {
                SortBy::DateNewest | SortBy::DateOldest => true,
                _ => false,
            };
            let descending = match sort_by {
                SortBy::DateNewest | SortBy::AmountHighest => true,
                _ => false,
            };
            let ghost plain = if by_date {
                moments_of(ledger)
            } else {
                amounts_of(ledger)
            };
            let ghost wanted = if descending {
                reversed(plain)
            } else {
                plain
            };
            let mut keys: Vec<u128> = Vec::new();
            let mut i: usize = 0;
            while i < transactions.len()
                invariant
                    i <= transactions.len(),
                    ledger == ledger_of(transactions@),
                    plain == if by_date {
                        moments_of(ledger)
                    } else {
                        amounts_of(ledger)
                    },
                    wanted == if descending {
                        reversed(plain)
                    } else {
                        plain
                    },
                    keys@ == wanted.take(i as int),
                decreases transactions.len() - i,
            {
                let key = if by_date {
                    transactions[i].datetime.order_key()
                } else {
                    transactions[i].amount as u128
                };
                keys.push(
                    if descending {
                        u128::MAX - key
                    } else {
                        key
                    },
                );
                proof {
                    assert(keys@ =~= wanted.take(i + 1));
                }
                i += 1;
            }
            proof {
                assert(keys@ =~= wanted);
            }
            sort_numbers(&keys)
        },
    }
}

} // verus!
