use crate::calendar::DateTime;
use crate::sorting::{goes_before, lemma_stable_order, places, sort_numbers, stable_order};
use crate::storage::paths::{
    backup_name, is_backup_file_name, is_backup_name, lemma_backup_name_is_backup_name,
    lemma_backup_names_follow_time, BackupFile,
};
use crate::text::{
    chars_of, lemma_lex_le_reflexive, lemma_lex_le_total, lemma_lex_le_transitive, lex_le,
    text_le,
};
use vstd::prelude::*;

verus! {

/// The place of the backup that recovery reads: of the backup names of a listing the
/// greatest in the order of texts, which is the one with the latest stamp; of equal
/// names the last. None where the listing holds no backup name.
pub open spec fn newest_backup(names: Seq<String>) -> Option<int>
    decreases names.len(),
{
    if names.len() == 0 {
        None
    } else {
        let rest = newest_backup(names.drop_last());
        let name = names.last()@;
        if is_backup_name(name) && (rest is None || lex_le(names[rest->0]@, name)) {
            Some(names.len() - 1)
        } else {
            rest
        }
    }
}

/// What `newest_backup` gives is the place of a backup name that no backup name of the
/// listing comes after, and there is none exactly where the listing holds no backup name.
pub proof fn lemma_newest_backup(names: Seq<String>)
    ensures
        newest_backup(names) is None <==> forall|i: int|
            0 <= i < names.len() ==> !is_backup_name(#[trigger] names[i]@),
        newest_backup(names) matches Some(at) ==> {
            &&& 0 <= at < names.len()
            &&& is_backup_name(names[at]@)
            &&& forall|i: int|
                0 <= i < names.len() && is_backup_name(#[trigger] names[i]@) ==> lex_le(
                    names[i]@,
                    names[at]@,
                )
        },
    decreases names.len(),
{
    if names.len() > 0 {
        let front = names.drop_last();
        let last = names.len() - 1;
        lemma_newest_backup(front);
        assert forall|i: int| 0 <= i < front.len() implies front[i] == names[i] by {}
        match newest_backup(names) {
            Some(at) => {
                assert forall|i: int|
                    0 <= i < names.len() && is_backup_name(#[trigger] names[i]@) implies lex_le(
                    names[i]@,
                    names[at]@,
                ) by {
                    if at == last {
                        if i == last {
                            lemma_lex_le_reflexive(names[i]@);
                        } else {
                            assert(is_backup_name(front[i]@));
                            let before = newest_backup(front)->0;
                            lemma_lex_le_transitive(names[i]@, names[before]@, names[at]@);
                        }
                    } else {
                        if i == last {
                            lemma_lex_le_total(names[at]@, names[i]@);
                        } else {
                            assert(is_backup_name(front[i]@));
                        }
                    }
                }
            },
            None => {
                assert forall|i: int| 0 <= i < names.len() implies !is_backup_name(
                    #[trigger] names[i]@,
                ) by {
                    if i < last {
                        assert(!is_backup_name(front[i]@));
                    }
                }
            },
        }
        if forall|i: int| 0 <= i < names.len() ==> !is_backup_name(#[trigger] names[i]@) {
            assert(!is_backup_name(names[last]@));
            assert forall|i: int| 0 <= i < front.len() implies !is_backup_name(
                #[trigger] front[i]@,
            ) by {
                assert(!is_backup_name(names[i]@));
            }
        }
    }
}

/// Recovery reads the backup that was made last: where every file of a listing is a
/// backup, named after the moment at which it was made, the newest backup is one made
/// at the latest of these moments.
pub proof fn lemma_newest_backup_is_latest(names: Seq<String>, made: Seq<DateTime>)
    requires
        names.len() == made.len(),
        names.len() > 0,
        forall|i: int|
            0 <= i < names.len() ==> (#[trigger] made[i]).valid() && 0 <= made[i].date.year
                <= 9999 && names[i]@ == backup_name(made[i].timestamp()),
    ensures
        newest_backup(names) is Some,
        forall|i: int|
            0 <= i < made.len() ==> (#[trigger] made[i]).key() <= made[newest_backup(
                names,
            )->0].key(),
{
    lemma_newest_backup(names);
    assert(made[0].valid());
    lemma_backup_name_is_backup_name(made[0].timestamp());
    assert(is_backup_name(names[0]@));
    let at = newest_backup(names)->0;
    assert(made[at].valid());
    assert forall|i: int| 0 <= i < made.len() implies (#[trigger] made[i]).key()
        <= made[at].key() by {
        lemma_backup_name_is_backup_name(made[i].timestamp());
        assert(is_backup_name(names[i]@));
        lemma_backup_names_follow_time(made[i], made[at]);
    }
}

/// The place, in a listing of the backup directory, of the backup that recovery reads.
pub fn most_recent_backup(names: &Vec<String>) -> (r: Option<usize>)
    ensures
        match newest_backup(names@) {
            Some(at) => r == Some(at as usize) && 0 <= at < names.len(),
            None => r is None,
        },
{
    let mut best: Option<usize> = None;
    let mut best_text: Vec<char> = Vec::new();
    let mut i: usize = 0;
    while i < names.len()
        invariant
            i <= names.len(),
            match newest_backup(names@.take(i as int)) {
                Some(at) => 0 <= at < i && best == Some(at as usize) && best_text@ == names[at]@,
                None => best is None,
            },
        decreases names.len() - i,
    {
        proof {
            assert(names@.take(i + 1).drop_last() =~= names@.take(i as int));
            assert(names@.take(i + 1).last() == names[i as int]);
            if newest_backup(names@.take(i as int)) is Some {
                let at = newest_backup(names@.take(i as int))->0;
                assert(names@.take(i as int)[at] == names[at]);
            }
        }
        let name = names[i].as_str();
        if is_backup_file_name(name) {
            let text = chars_of(name);
            let later = match best {
                Some(_) => text_le(&best_text, &text),
                None => true,
            };
            if later {
                best = Some(i);
                best_text = text;
            }
        }
        i += 1;
    }
    proof {
        assert(names@.take(i as int) =~= names@);
    }
    best
}

/// The places of the backups among the first `k` files of a listing.
pub open spec fn backup_places(files: Seq<BackupFile>, k: nat) -> Seq<int>
    decreases k,
{
    if k == 0 {
        Seq::empty()
    } else {
        let before = backup_places(files, (k - 1) as nat);
        if is_backup_name(files[k - 1].name@) {
            before.push(k - 1)
        } else {
            before
        }
    }
}

/// For each of `at`, a key that is smaller the later the file at that place was
/// modified.
pub open spec fn recency_keys(files: Seq<BackupFile>, at: Seq<int>) -> Seq<u128> {
    Seq::new(at.len(), |j: int| (u128::MAX - files[at[j]].modified) as u128)
}

/// The places of the backups of a listing, the most recently modified first; backups
/// modified at the same time stay in the order of the listing.
pub open spec fn newest_first(files: Seq<BackupFile>) -> Seq<int> {
    let at = backup_places(files, files.len());
    let order = stable_order::<u128>(recency_keys(files, at));
    Seq::new(at.len(), |j: int| at[order[j]])
}

/// The places of the backups to remove so that the `keep` most recently modified stay.
pub open spec fn prune_plan(files: Seq<BackupFile>, keep: nat) -> Seq<int> {
    if keep >= newest_first(files).len() {
        Seq::empty()
    } else {
        newest_first(files).skip(keep as int)
    }
}

/// The places of the backups among the first `k` files are places of backups, below `k`,
/// in ascending order, and no backup among the first `k` files is left out.
pub proof fn lemma_backup_places(files: Seq<BackupFile>, k: nat)
    requires
        k <= files.len(),
    ensures
        backup_places(files, k).len() <= k,
        forall|j: int|
            0 <= j < backup_places(files, k).len() ==> 0 <= (#[trigger] backup_places(
                files,
                k,
            )[j]) < k && is_backup_name(files[backup_places(files, k)[j]].name@),
        forall|a: int, b: int|
            0 <= a < b < backup_places(files, k).len() ==> backup_places(files, k)[a]
                < backup_places(files, k)[b],
        forall|i: int|
            0 <= i < k && is_backup_name(files[i].name@) ==> backup_places(files, k).contains(i),
    decreases k,
{
    if k > 0 {
        let before = backup_places(files, (k - 1) as nat);
        let now = backup_places(files, k);
        lemma_backup_places(files, (k - 1) as nat);
        assert forall|i: int| 0 <= i < k && is_backup_name(files[i].name@) implies now.contains(
            i,
        ) by {
            if i < k - 1 {
                assert(before.contains(i));
                let j = choose|j: int| 0 <= j < before.len() && before[j] == i;
                assert(now[j] == i);
            } else {
                assert(now[now.len() - 1] == i);
            }
        }
    }
}

/// What is removed and what stays: the plan removes backups of the listing, each once;
/// it leaves `keep` of them, or all where there are no more; and none that it removes was
/// modified later than one that stays.
pub proof fn lemma_prune_keeps_newest(files: Seq<BackupFile>, keep: nat)
    ensures
        newest_first(files).len() == backup_places(files, files.len()).len(),
        prune_plan(files, keep).len() == if newest_first(files).len() > keep {
            newest_first(files).len() - keep
        } else {
            0
        },
        forall|j: int|
            0 <= j < prune_plan(files, keep).len() ==> 0 <= (#[trigger] prune_plan(files, keep)[j])
                < files.len() && is_backup_name(files[prune_plan(files, keep)[j]].name@),
        forall|a: int, b: int|
            0 <= a < b < prune_plan(files, keep).len() ==> prune_plan(files, keep)[a]
                != prune_plan(files, keep)[b],
        forall|i: int, j: int|
            #![trigger files[i], prune_plan(files, keep)[j]]
            0 <= i < files.len() && is_backup_name(files[i].name@) && !prune_plan(
                files,
                keep,
            ).contains(i) && 0 <= j < prune_plan(files, keep).len() ==> files[i].modified
                >= files[prune_plan(files, keep)[j]].modified,
        forall|i: int|
            0 <= i < files.len() && is_backup_name(files[i].name@) ==> newest_first(
                files,
            ).contains(i),
{
    let at = backup_places(files, files.len());
    let keys = recency_keys(files, at);
    let order = stable_order::<u128>(keys);
    let ranked = newest_first(files);
    let plan = prune_plan(files, keep);
    lemma_backup_places(files, files.len());
    lemma_stable_order::<u128>(keys);
    assert forall|i: int| 0 <= i < files.len() && is_backup_name(files[i].name@) implies (exists|
        r: int,
    |
        0 <= r < ranked.len() && ranked[r] == i) by {
        assert(at.contains(i));
        let j = choose|j: int| 0 <= j < at.len() && at[j] == i;
        assert(order.contains(j));
        let r = choose|r: int| 0 <= r < order.len() && order[r] == j;
        assert(ranked[r] == i);
    }
    assert forall|a: int, b: int| 0 <= a < b < ranked.len() implies ranked[a] != ranked[b]
        && files[ranked[a]].modified >= files[ranked[b]].modified by {
        assert(goes_before::<u128>(keys, order[a], order[b]));
        if order[a] < order[b] {
            assert(at[order[a]] < at[order[b]]);
        } else {
            assert(at[order[b]] < at[order[a]]);
        }
    }
    assert forall|i: int, j: int|
        #![trigger files[i], plan[j]]
        0 <= i < files.len() && is_backup_name(files[i].name@) && !plan.contains(i) && 0 <= j
            < plan.len() implies files[i].modified >= files[plan[j]].modified by {
        let r = choose|r: int| 0 <= r < ranked.len() && ranked[r] == i;
        if r >= keep {
            assert(plan[r - keep] == i);
        }
        assert(plan[j] == ranked[j + keep]);
    }
}

fn backup_places_of(files: &Vec<BackupFile>) -> (at: Vec<usize>)
    ensures
        places(at@) == backup_places(files@, files.len() as nat),
        forall|j: int| 0 <= j < at.len() ==> (#[trigger] at[j]) < files.len(),
{
    let mut at: Vec<usize> = Vec::new();
    let mut i: usize = 0;
    assert(places(at@) =~= backup_places(files@, 0));
    while i < files.len()
        invariant
            i <= files.len(),
            places(at@) == backup_places(files@, i as nat),
            forall|j: int| 0 <= j < at.len() ==> (#[trigger] at[j]) < files.len(),
        decreases files.len() - i,
    {
        let ghost before = places(at@);
        if is_backup_file_name(files[i].name.as_str()) {
            at.push(i);
            assert(places(at@) =~= before.push(i as int));
        }
        i += 1;
    }
    at
}

/// The places, in a listing of the backup directory, of the backups to remove so that
/// the `keep` most recently modified stay.
pub fn backups_to_remove(files: &Vec<BackupFile>, keep: usize) -> (plan: Vec<usize>)
    ensures
        places(plan@) == prune_plan(files@, keep as nat),
        forall|j: int| 0 <= j < plan.len() ==> (#[trigger] plan[j]) < files.len(),
{
    let at = backup_places_of(files);
    let mut keys: Vec<u128> = Vec::new();
    let mut j: usize = 0;
    while j < at.len()
        invariant
            j <= at.len(),
            forall|k: int| 0 <= k < at.len() ==> (#[trigger] at[k]) < files.len(),
            keys@ == recency_keys(files@, places(at@)).take(j as int),
        decreases at.len() - j,
    {
        keys.push(u128::MAX - files[at[j]].modified);
        proof {
            assert(keys@ =~= recency_keys(files@, places(at@)).take(j + 1));
        }
        j += 1;
    }
    proof {
        assert(keys@ =~= recency_keys(files@, places(at@)));
    }
    let order = sort_numbers(&keys);
    let ghost ranked = newest_first(files@);
    let mut plan: Vec<usize> = Vec::new();
    if keep >= order.len() {
        assert(places(plan@) =~= prune_plan(files@, keep as nat));
        return plan;
    }
    let mut r: usize = keep;
    while r < order.len()
        invariant
            keep <= r <= order.len(),
            order.len() == at.len(),
            ranked == newest_first(files@),
            ranked.len() == order.len(),
            places(at@) == backup_places(files@, files.len() as nat),
            places(order@) == stable_order::<u128>(recency_keys(files@, places(at@))),
            forall|k: int| 0 <= k < order.len() ==> (#[trigger] order[k]) < at.len(),
            forall|k: int| 0 <= k < at.len() ==> (#[trigger] at[k]) < files.len(),
            places(plan@) == ranked.subrange(keep as int, r as int),
            forall|k: int| 0 <= k < plan.len() ==> (#[trigger] plan[k]) < files.len(),
        decreases order.len() - r,
    {
        let ghost before = places(plan@);
        plan.push(at[order[r]]);
        proof {
            assert(places(order@)[r as int] == order[r as int]);
            assert(places(at@)[order[r as int] as int] == at[order[r as int] as int]);
            assert(places(plan@) =~= before.push(ranked[r as int]));
            assert(places(plan@) =~= ranked.subrange(keep as int, r + 1));
        }
        r += 1;
    }
    proof {
        assert(ranked.subrange(keep as int, r as int) =~= ranked.skip(keep as int));
    }
    plan
}

} // verus!
