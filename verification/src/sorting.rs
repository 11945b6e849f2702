use crate::text::{lemma_lex_le_total, lemma_lex_le_transitive, lex_le, text_le};
use vstd::prelude::*;

verus! {

/// Keys by which things are put in order. A key has a rank, which says where it stands.
/// Of two ranks one is at most the other, and what is at most a rank that is at most a
/// third is at most the third.
pub trait Ranked: Sized {
    type Rank;

    /// Where the key stands.
    spec fn rank(&self) -> Self::Rank;

    /// Rank `a` does not come after rank `b`.
    spec fn rank_le(a: Self::Rank, b: Self::Rank) -> bool;

    /// Whether `self` does not come after `other`.
    fn not_after(&self, other: &Self) -> (b: bool)
        ensures
            b == Self::rank_le(self.rank(), other.rank()),
    ;

    proof fn lemma_total(a: Self::Rank, b: Self::Rank)
        ensures
            Self::rank_le(a, b) || Self::rank_le(b, a),
    ;

    proof fn lemma_transitive(a: Self::Rank, b: Self::Rank, c: Self::Rank)
        requires
            Self::rank_le(a, b),
            Self::rank_le(b, c),
        ensures
            Self::rank_le(a, c),
    ;
}

/// Numbers are ordered by size.
impl Ranked for u128 {
    type Rank = u128;

    open spec fn rank(&self) -> u128 {
        *self
    }

    open spec fn rank_le(a: u128, b: u128) -> bool {
        a <= b
    }

    fn not_after(&self, other: &Self) -> (b: bool) {
        *self <= *other
    }

    proof fn lemma_total(a: u128, b: u128) {
    }

    proof fn lemma_transitive(a: u128, b: u128, c: u128) {
    }
}

/// A text as a key: texts are ordered as in a dictionary whose alphabet is ordered by
/// code point.
#[derive(Debug)]
pub struct TextKey {
    pub chars: Vec<char>,
}

impl Ranked for TextKey {
    type Rank = Seq<char>;

    open spec fn rank(&self) -> Seq<char> {
        self.chars@
    }

    open spec fn rank_le(a: Seq<char>, b: Seq<char>) -> bool {
        lex_le(a, b)
    }

    fn not_after(&self, other: &Self) -> (b: bool) {
        text_le(&self.chars, &other.chars)
    }

    proof fn lemma_total(a: Seq<char>, b: Seq<char>) {
        lemma_lex_le_total(a, b);
    }

    proof fn lemma_transitive(a: Seq<char>, b: Seq<char>, c: Seq<char>) {
        lemma_lex_le_transitive(a, b, c);
    }
}

/// The ranks of keys.
pub open spec fn ranks<K: Ranked>(keys: Seq<K>) -> Seq<K::Rank> {
    Seq::new(keys.len(), |i: int| keys[i].rank())
}

/// Where an item with `key` goes into `order`, a list of places of `keys`: behind the last
/// item whose key is at most `key`.
pub open spec fn insertion_point<K: Ranked>(
    keys: Seq<K::Rank>,
    order: Seq<int>,
    key: K::Rank,
) -> int
    decreases order.len(),
{
    if order.len() == 0 || K::rank_le(keys[order.last()], key) {
        order.len() as int
    } else {
        insertion_point::<K>(keys, order.drop_last(), key)
    }
}

/// The places of the first `k` keys, arranged by ascending key; places with equal keys
/// stay in their order.
pub open spec fn sorted_order<K: Ranked>(keys: Seq<K::Rank>, k: nat) -> Seq<int>
    decreases k,
{
    if k == 0 {
        Seq::empty()
    } else {
        let before = sorted_order::<K>(keys, (k - 1) as nat);
        before.insert(insertion_point::<K>(keys, before, keys[k - 1]), k - 1)
    }
}

/// The places of all keys, arranged by ascending key; places with equal keys stay in
/// their order.
pub open spec fn stable_order<K: Ranked>(keys: Seq<K::Rank>) -> Seq<int> {
    sorted_order::<K>(keys, keys.len())
}

/// Place `a` comes before place `b`: its key is smaller, or the keys are equal in rank
/// and `a` is the earlier place.
pub open spec fn goes_before<K: Ranked>(keys: Seq<K::Rank>, a: int, b: int) -> bool {
    !K::rank_le(keys[b], keys[a]) || (K::rank_le(keys[a], keys[b]) && a < b)
}

/// `order` holds each of the places `0..k` exactly once.
pub open spec fn is_arrangement(order: Seq<int>, k: int) -> bool {
    &&& order.len() == k
    &&& forall|i: int| 0 <= i < order.len() ==> 0 <= #[trigger] order[i] < k
    &&& forall|i: int, j: int| 0 <= i < j < order.len() ==> order[i] != order[j]
    &&& forall|place: int| 0 <= place < k ==> #[trigger] order.contains(place)
}

/// `order` is ascending: of two of its places the earlier one goes before the later.
pub open spec fn is_ascending<K: Ranked>(keys: Seq<K::Rank>, order: Seq<int>) -> bool {
    forall|i: int, j: int|
        0 <= i < j < order.len() ==> goes_before::<K>(
            keys,
            #[trigger] order[i],
            #[trigger] order[j],
        )
}

/// The places as numbers.
pub open spec fn places(order: Seq<usize>) -> Seq<int> {
    Seq::new(order.len(), |i: int| order[i] as int)
}

/// The insertion point lies within the list, the keys of all behind it come after
/// `key`, and the key of the one before it does not.
pub proof fn lemma_insertion_point<K: Ranked>(keys: Seq<K::Rank>, order: Seq<int>, key: K::Rank)
    ensures
        0 <= insertion_point::<K>(keys, order, key) <= order.len(),
        forall|i: int|
            insertion_point::<K>(keys, order, key) <= i < order.len() ==> !K::rank_le(
                keys[#[trigger] order[i]],
                key,
            ),
        insertion_point::<K>(keys, order, key) > 0 ==> K::rank_le(
            keys[order[insertion_point::<K>(keys, order, key) - 1]],
            key,
        ),
    decreases order.len(),
{
    if order.len() == 0 || K::rank_le(keys[order.last()], key) {
    } else {
        let front = order.drop_last();
        let at = insertion_point::<K>(keys, order, key);
        lemma_insertion_point::<K>(keys, front, key);
        assert forall|i: int| at <= i < order.len() implies !K::rank_le(
            keys[#[trigger] order[i]],
            key,
        ) by {
            if i < front.len() {
                assert(front[i] == order[i]);
            }
        }
        if at > 0 {
            assert(front[at - 1] == order[at - 1]);
        }
    }
}

/// The sorted order of the first `k` keys holds each of their places once and is
/// ascending.
pub proof fn lemma_sorted_order<K: Ranked>(keys: Seq<K::Rank>, k: nat)
    requires
        k <= keys.len(),
    ensures
        is_arrangement(sorted_order::<K>(keys, k), k as int),
        is_ascending::<K>(keys, sorted_order::<K>(keys, k)),
    decreases k,
{
    if k > 0 {
        let before = sorted_order::<K>(keys, (k - 1) as nat);
        let key = keys[k - 1];
        let p = insertion_point::<K>(keys, before, key);
        let order = sorted_order::<K>(keys, k);
        lemma_sorted_order::<K>(keys, (k - 1) as nat);
        lemma_insertion_point::<K>(keys, before, key);
        assert(order == before.insert(p, k - 1));
        assert forall|i: int| 0 <= i < order.len() implies 0 <= #[trigger] order[i] < k by {
            if i < p {
                assert(order[i] == before[i]);
            } else if i > p {
                assert(order[i] == before[i - 1]);
            }
        }
        assert forall|i: int, j: int| 0 <= i < j < order.len() implies order[i] != order[j]
            && goes_before::<K>(keys, order[i], order[j]) by {
            if j < p {
                assert(order[i] == before[i] && order[j] == before[j]);
            } else if j == p {
                assert(order[i] == before[i]);
                if i < p - 1 {
                    assert(goes_before::<K>(keys, before[i], before[p - 1]));
                    K::lemma_total(keys[before[i]], keys[before[p - 1]]);
                    K::lemma_transitive(keys[before[i]], keys[before[p - 1]], key);
                }
            } else if i < p {
                assert(order[i] == before[i] && order[j] == before[j - 1]);
                if i < j - 1 {
                    assert(goes_before::<K>(keys, before[i], before[j - 1]));
                }
            } else if i == p {
                assert(order[j] == before[j - 1]);
            } else {
                assert(order[i] == before[i - 1] && order[j] == before[j - 1]);
            }
        }
        assert forall|place: int| 0 <= place < k implies #[trigger] order.contains(place) by {
            if place == k - 1 {
                assert(order[p] == place);
            } else {
                assert(before.contains(place));
                let i = choose|i: int| 0 <= i < before.len() && before[i] == place;
                if i < p {
                    assert(order[i] == place);
                } else {
                    assert(order[i + 1] == place);
                }
            }
        }
    }
}

/// The stable order holds each place once and is ascending.
pub proof fn lemma_stable_order<K: Ranked>(keys: Seq<K::Rank>)
    ensures
        is_arrangement(stable_order::<K>(keys), keys.len() as int),
        is_ascending::<K>(keys, stable_order::<K>(keys)),
{
    lemma_sorted_order::<K>(keys, keys.len());
}

/// There is one ascending arrangement of the places of `keys`.
pub proof fn lemma_ascending_arrangement_unique<K: Ranked>(
    keys: Seq<K::Rank>,
    a: Seq<int>,
    b: Seq<int>,
)
    requires
        is_arrangement(a, keys.len() as int),
        is_arrangement(b, keys.len() as int),
        is_ascending::<K>(keys, a),
        is_ascending::<K>(keys, b),
    ensures
        a == b,
{
    assert forall|i: int| 0 <= i < a.len() implies a[i] == b[i] by {
        lemma_same_up_to::<K>(keys, a, b, i);
    }
    assert(a =~= b);
}

proof fn lemma_same_up_to<K: Ranked>(keys: Seq<K::Rank>, a: Seq<int>, b: Seq<int>, i: int)
    requires
        is_arrangement(a, keys.len() as int),
        is_arrangement(b, keys.len() as int),
        is_ascending::<K>(keys, a),
        is_ascending::<K>(keys, b),
        0 <= i < a.len(),
    ensures
        a[i] == b[i],
    decreases i,
{
    assert forall|j: int| 0 <= j < i implies a[j] == b[j] by {
        lemma_same_up_to::<K>(keys, a, b, j);
    }
    if a[i] != b[i] {
        assert(b.contains(a[i]));
        let at = choose|at: int| 0 <= at < b.len() && b[at] == a[i];
        assert(a.contains(b[i]));
        let from = choose|from: int| 0 <= from < a.len() && a[from] == b[i];
        if at < i {
            assert(a[at] == b[at]);
        } else if from < i {
            assert(a[from] == b[from]);
        } else {
            assert(goes_before::<K>(keys, b[i], b[at]));
            assert(goes_before::<K>(keys, a[i], a[from]));
            K::lemma_total(keys[a[i]], keys[b[i]]);
        }
    }
}

/// `order` holds the places `from..to`, and nothing else.
pub open spec fn holds_places(order: Seq<int>, from: int, to: int) -> bool {
    &&& order.len() == to - from
    &&& forall|i: int| 0 <= i < order.len() ==> from <= #[trigger] order[i] < to
    &&& forall|place: int| from <= place < to ==> #[trigger] order.contains(place)
}

/// An ascending list of places holds no place twice.
pub proof fn lemma_ascending_is_distinct<K: Ranked>(keys: Seq<K::Rank>, order: Seq<int>)
    requires
        is_ascending::<K>(keys, order),
    ensures
        forall|i: int, j: int| 0 <= i < j < order.len() ==> order[i] != order[j],
{
    assert forall|i: int, j: int| 0 <= i < j < order.len() implies order[i] != order[j] by {
        assert(goes_before::<K>(keys, order[i], order[j]));
        K::lemma_total(keys[order[i]], keys[order[i]]);
    }
}

/// What goes before a place goes before all that the place goes before.
proof fn lemma_not_after_all<K: Ranked>(keys: Seq<K::Rank>, order: Seq<int>, at: int, key: K::Rank)
    requires
        is_ascending::<K>(keys, order),
        0 <= at < order.len(),
        K::rank_le(key, keys[order[at]]),
    ensures
        forall|x: int| at <= x < order.len() ==> K::rank_le(key, keys[#[trigger] order[x]]),
{
    assert forall|x: int| at <= x < order.len() implies K::rank_le(
        key,
        keys[#[trigger] order[x]],
    ) by {
        if at < x {
            assert(goes_before::<K>(keys, order[at], order[x]));
            K::lemma_total(keys[order[at]], keys[order[x]]);
            K::lemma_transitive(key, keys[order[at]], keys[order[x]]);
        }
    }
}

/// What comes after a place comes after all that go before the place.
proof fn lemma_after_all<K: Ranked>(keys: Seq<K::Rank>, order: Seq<int>, at: int, key: K::Rank)
    requires
        is_ascending::<K>(keys, order),
        0 <= at < order.len(),
        !K::rank_le(keys[order[at]], key),
    ensures
        forall|x: int| at <= x < order.len() ==> !K::rank_le(keys[#[trigger] order[x]], key),
{
    assert forall|x: int| at <= x < order.len() implies !K::rank_le(
        keys[#[trigger] order[x]],
        key,
    ) by {
        if at < x && K::rank_le(keys[order[x]], key) {
            assert(goes_before::<K>(keys, order[at], order[x]));
            K::lemma_total(keys[order[at]], keys[order[x]]);
            K::lemma_transitive(keys[order[at]], keys[order[x]], key);
        }
    }
}

/// Two ascending lists, the first of the places `from..mid` and the second of the
/// places `mid..to`, in one ascending list.
fn merge<K: Ranked>(
    keys: &Vec<K>,
    left: &Vec<usize>,
    right: &Vec<usize>,
    Ghost(from): Ghost<int>,
    Ghost(mid): Ghost<int>,
    Ghost(to): Ghost<int>,
) -> (out: Vec<usize>)
    requires
        0 <= from <= mid <= to <= keys.len(),
        holds_places(places(left@), from, mid),
        holds_places(places(right@), mid, to),
        is_ascending::<K>(ranks(keys@), places(left@)),
        is_ascending::<K>(ranks(keys@), places(right@)),
    ensures
        holds_places(places(out@), from, to),
        is_ascending::<K>(ranks(keys@), places(out@)),
{
    let ghost all = ranks(keys@);
    let ghost first = places(left@);
    let ghost second = places(right@);
    let mut out: Vec<usize> = Vec::new();
    let mut i: usize = 0;
    let mut j: usize = 0;
    while i < left.len() || j < right.len()
        invariant
            i <= left.len(),
            j <= right.len(),
            out.len() == i + j,
            0 <= from <= mid <= to <= keys.len(),
            all == ranks(keys@),
            first == places(left@),
            second == places(right@),
            holds_places(first, from, mid),
            holds_places(second, mid, to),
            is_ascending::<K>(all, first),
            is_ascending::<K>(all, second),
            forall|p: int| 0 <= p < out.len() ==> from <= #[trigger] places(out@)[p] < to,
            forall|x: int| 0 <= x < i ==> places(out@).contains(#[trigger] first[x]),
            forall|y: int| 0 <= y < j ==> places(out@).contains(#[trigger] second[y]),
            is_ascending::<K>(all, places(out@)),
            forall|p: int, x: int|
                0 <= p < out.len() && i <= x < first.len() ==> goes_before::<K>(
                    all,
                    #[trigger] places(out@)[p],
                    #[trigger] first[x],
                ),
            forall|p: int, y: int|
                0 <= p < out.len() && j <= y < second.len() ==> goes_before::<K>(
                    all,
                    #[trigger] places(out@)[p],
                    #[trigger] second[y],
                ),
        decreases left.len() - i + right.len() - j,
    {
        let ghost before = places(out@);
        proof {
            if i < left.len() {
                assert(first[i as int] == left[i as int]);
            }
            if j < right.len() {
                assert(second[j as int] == right[j as int]);
            }
        }
        let from_left = if j == right.len() {
            true
        } else if i == left.len() {
            false
        } else {
            keys[left[i]].not_after(&keys[right[j]])
        };
        let place = if from_left {
            left[i]
        } else {
            right[j]
        };
        out.push(place);
        proof {
            let now = places(out@);
            assert(now =~= before.push(place as int));
            assert forall|x: int| 0 <= x < i implies now.contains(#[trigger] first[x]) by {
                let p = choose|p: int| 0 <= p < before.len() && before[p] == first[x];
                assert(now[p] == first[x]);
            }
            assert forall|y: int| 0 <= y < j implies now.contains(#[trigger] second[y]) by {
                let p = choose|p: int| 0 <= p < before.len() && before[p] == second[y];
                assert(now[p] == second[y]);
            }
            assert(now[before.len() as int] == place);
            assert forall|p: int, q: int| 0 <= p < q < now.len() implies goes_before::<K>(
                all,
                #[trigger] now[p],
                #[trigger] now[q],
            ) by {
                assert(now[p] == before[p]);
                if q < before.len() {
                    assert(now[q] == before[q]);
                }
            }
            if from_left {
                if j < right.len() {
                    lemma_not_after_all::<K>(all, second, j as int, all[place as int]);
                }
                assert forall|p: int, x: int|
                    0 <= p < now.len() && i + 1 <= x < first.len() implies goes_before::<K>(
                    all,
                    #[trigger] now[p],
                    #[trigger] first[x],
                ) by {
                    if p < before.len() {
                        assert(now[p] == before[p]);
                    }
                }
                assert forall|p: int, y: int|
                    0 <= p < now.len() && j <= y < second.len() implies goes_before::<K>(
                    all,
                    #[trigger] now[p],
                    #[trigger] second[y],
                ) by {
                    if p < before.len() {
                        assert(now[p] == before[p]);
                    }
                }
            } else {
                if i < left.len() {
                    lemma_after_all::<K>(all, first, i as int, all[place as int]);
                }
                assert forall|p: int, x: int|
                    0 <= p < now.len() && i <= x < first.len() implies goes_before::<K>(
                    all,
                    #[trigger] now[p],
                    #[trigger] first[x],
                ) by {
                    if p < before.len() {
                        assert(now[p] == before[p]);
                    }
                }
                assert forall|p: int, y: int|
                    0 <= p < now.len() && j + 1 <= y < second.len() implies goes_before::<K>(
                    all,
                    #[trigger] now[p],
                    #[trigger] second[y],
                ) by {
                    if p < before.len() {
                        assert(now[p] == before[p]);
                    }
                }
            }
        }
        if from_left {
            i += 1;
        } else {
            j += 1;
        }
    }
    proof {
        let now = places(out@);
        assert forall|place: int| from <= place < to implies #[trigger] now.contains(place) by {
            if place < mid {
                assert(first.contains(place));
                let x = choose|x: int| 0 <= x < first.len() && first[x] == place;
                assert(now.contains(first[x]));
            } else {
                assert(second.contains(place));
                let y = choose|y: int| 0 <= y < second.len() && second[y] == place;
                assert(now.contains(second[y]));
            }
        }
    }
    out
}

/// The places `from..to` of `keys`, arranged by ascending key; places with equal keys
/// stay in their order.
fn sort_range<K: Ranked>(keys: &Vec<K>, from: usize, to: usize) -> (order: Vec<usize>)
    requires
        from <= to <= keys.len(),
    ensures
        holds_places(places(order@), from as int, to as int),
        is_ascending::<K>(ranks(keys@), places(order@)),
    decreases to - from,
{
    if to - from <= 1 {
        let mut order: Vec<usize> = Vec::new();
        if to - from == 1 {
            order.push(from);
            assert(places(order@)[0] == from);
        }
        order
    } else {
        let mid = from + (to - from) / 2;
        let left = sort_range(keys, from, mid);
        let right = sort_range(keys, mid, to);
        merge(keys, &left, &right, Ghost(from as int), Ghost(mid as int), Ghost(to as int))
    }
}

/// The places of `keys`, arranged by ascending key; places with equal keys stay in
/// their order.
pub fn sort_places<K: Ranked>(keys: &Vec<K>) -> (order: Vec<usize>)
    ensures
        places(order@) == stable_order::<K>(ranks(keys@)),
        order.len() == keys.len(),
        forall|i: int| 0 <= i < order.len() ==> (#[trigger] order[i]) < keys.len(),
{
    let order = sort_range(keys, 0, keys.len());
    proof {
        let all = ranks(keys@);
        lemma_ascending_is_distinct::<K>(all, places(order@));
        lemma_stable_order::<K>(all);
        lemma_ascending_arrangement_unique::<K>(all, places(order@), stable_order::<K>(all));
        assert forall|i: int| 0 <= i < order.len() implies (#[trigger] order[i]) < keys.len() by {
            assert(places(order@)[i] == order[i]);
        }
    }
    order
}

/// The places of numbers, arranged by ascending number; places of equal numbers stay
/// in their order.
pub fn sort_numbers(keys: &Vec<u128>) -> (order: Vec<usize>)
    ensures
        places(order@) == stable_order::<u128>(keys@),
        order.len() == keys.len(),
        forall|i: int| 0 <= i < order.len() ==> (#[trigger] order[i]) < keys.len(),
{
    assert(ranks(keys@) =~= keys@);
    sort_places(keys)
}

/// The places of texts, arranged as in a dictionary; places of equal texts stay in
/// their order.
pub fn sort_texts(keys: &Vec<TextKey>) -> (order: Vec<usize>)
    ensures
        places(order@) == stable_order::<TextKey>(ranks(keys@)),
        order.len() == keys.len(),
        forall|i: int| 0 <= i < order.len() ==> (#[trigger] order[i]) < keys.len(),
{
    sort_places(keys)
}

} // verus!
