use vstd::prelude::*;

verus! {

/// The sum, over the items of a sequence, of what `weight` gives each.
pub open spec fn total<A>(ledger: Seq<A>, weight: spec_fn(A) -> int) -> int
    decreases ledger.len(),
{
    if ledger.len() == 0 {
        0
    } else {
        total(ledger.drop_last(), weight) + weight(ledger.last())
    }
}

/// Taking one more item adds its weight.
pub proof fn lemma_total_step<A>(ledger: Seq<A>, i: int, weight: spec_fn(A) -> int)
    requires
        0 <= i < ledger.len(),
    ensures
        total(ledger.take(i + 1), weight) == total(ledger.take(i), weight) + weight(ledger[i]),
{
    assert(ledger.take(i + 1).drop_last() =~= ledger.take(i));
}

/// A total lies within the bounds of its weights, times the number of items.
pub proof fn lemma_total_bounds<A>(
    ledger: Seq<A>,
    weight: spec_fn(A) -> int,
    low: int,
    high: int,
)
    requires
        low <= 0 <= high,
        forall|i: int| 0 <= i < ledger.len() ==> low <= #[trigger] weight(ledger[i]) <= high,
    ensures
        ledger.len() * low <= total(ledger, weight) <= ledger.len() * high,
    decreases ledger.len(),
{
    if ledger.len() > 0 {
        let front = ledger.drop_last();
        assert forall|i: int| 0 <= i < front.len() implies low <= #[trigger] weight(front[i])
            <= high by {
            assert(front[i] == ledger[i]);
        }
        lemma_total_bounds(front, weight, low, high);
        assert(low <= weight(ledger[ledger.len() - 1]) <= high);
        assert(ledger.len() * low == front.len() * low + low) by (nonlinear_arith)
            requires
                ledger.len() == front.len() + 1,
        ;
        assert(ledger.len() * high == front.len() * high + high) by (nonlinear_arith)
            requires
                ledger.len() == front.len() + 1,
        ;
    } else {
        assert(ledger.len() * low == 0 && ledger.len() * high == 0) by (nonlinear_arith)
            requires
                ledger.len() == 0,
        ;
    }
}

/// An item put into a sequence adds its weight to the total.
pub proof fn lemma_total_insert<A>(s: Seq<A>, at: int, item: A, weight: spec_fn(A) -> int)
    requires
        0 <= at <= s.len(),
    ensures
        total(s.insert(at, item), weight) == total(s, weight) + weight(item),
    decreases s.len() - at,
{
    let longer = s.insert(at, item);
    if at == s.len() {
        assert(longer.drop_last() =~= s);
    } else {
        lemma_total_insert(s.drop_last(), at, item, weight);
        assert(longer.drop_last() =~= s.drop_last().insert(at, item));
        assert(longer.last() == s.last());
    }
}

} // verus!
