use crate::sorting::{goes_before, lemma_stable_order, stable_order};
use crate::storage::backups::{
    backup_places, lemma_backup_places, newest_first, prune_plan, recency_keys,
};
use crate::storage::paths::{is_backup_name, BackupFile};
use vstd::prelude::*;

verus! {

/// Every file of the listing is a backup.
pub open spec fn all_backups(files: Seq<BackupFile>) -> bool {
    forall|i: int| 0 <= i < files.len() ==> is_backup_name((#[trigger] files[i]).name@)
}

/// Where every file is a backup, every place is the place of a backup.
proof fn lemma_all_places(files: Seq<BackupFile>, k: nat)
    requires
        k <= files.len(),
        all_backups(files),
    ensures
        backup_places(files, k).len() == k,
    decreases k,
{
    if k > 0 {
        lemma_all_places(files, (k - 1) as nat);
        assert(is_backup_name(files[k - 1].name@));
    }
}

/// The backups of a listing, the most recently modified first: each backup of the
/// listing is there once, and none comes before one that was modified later.
pub proof fn lemma_newest_first(files: Seq<BackupFile>)
    ensures
        newest_first(files).len() <= files.len(),
        all_backups(files) ==> newest_first(files).len() == files.len(),
        forall|r: int|
            0 <= r < newest_first(files).len() ==> 0 <= (#[trigger] newest_first(files)[r])
                < files.len() && is_backup_name(files[newest_first(files)[r]].name@),
        forall|a: int, b: int|
            0 <= a < b < newest_first(files).len() ==> (#[trigger] newest_first(files)[a]) != (
            #[trigger] newest_first(files)[b]) && files[newest_first(files)[a]].modified
                >= files[newest_first(files)[b]].modified,
        forall|i: int|
            0 <= i < files.len() && is_backup_name(files[i].name@) ==> newest_first(
                files,
            ).contains(i),
{
    let at = backup_places(files, files.len());
    let keys = recency_keys(files, at);
    let order = stable_order::<u128>(keys);
    let ranked = newest_first(files);
    lemma_backup_places(files, files.len());
    lemma_stable_order::<u128>(keys);
    if all_backups(files) {
        lemma_all_places(files, files.len());
    }
    assert forall|r: int| 0 <= r < ranked.len() implies 0 <= (#[trigger] ranked[r]) < files.len()
        && is_backup_name(files[ranked[r]].name@) by {
        assert(ranked[r] == at[order[r]]);
    }
    assert forall|i: int|
        0 <= i < files.len() && is_backup_name(files[i].name@) implies ranked.contains(i) by {
        assert(at.contains(i));
        let j = choose|j: int| 0 <= j < at.len() && at[j] == i;
        assert(order.contains(j));
        let r = choose|r: int| 0 <= r < order.len() && order[r] == j;
        assert(ranked[r] == i);
    }
    assert forall|a: int, b: int| 0 <= a < b < ranked.len() implies (#[trigger] ranked[a]) != (
    #[trigger] ranked[b]) && files[ranked[a]].modified >= files[ranked[b]].modified by {
        assert(goes_before::<u128>(keys, order[a], order[b]));
        if order[a] < order[b] {
            assert(at[order[a]] < at[order[b]]);
        } else {
            assert(at[order[b]] < at[order[a]]);
        }
    }
}

/// The backups that stay in a directory that holds `files`, where `keep` are kept,
/// the most recently modified first.
pub open spec fn remaining(files: Seq<BackupFile>, keep: nat) -> Seq<BackupFile> {
    let ranked = newest_first(files);
    Seq::new(
        if keep < ranked.len() {
            keep
        } else {
            ranked.len()
        },
        |j: int| files[ranked[j]],
    )
}

/// What stays are the backups of the listing that the plan does not remove: `keep` of
/// them, or all where there are no more; and every other backup of the listing was
/// modified no later than any of them.
pub proof fn lemma_remaining(files: Seq<BackupFile>, keep: nat)
    ensures
        forall|j: int|
            0 <= j < remaining(files, keep).len() ==> !prune_plan(files, keep).contains(
                #[trigger] newest_first(files)[j],
            ),
        forall|i: int|
            0 <= i < files.len() && is_backup_name(files[i].name@) && !prune_plan(
                files,
                keep,
            ).contains(i) ==> remaining(files, keep).contains(#[trigger] files[i]),
        remaining(files, keep).len() == if keep < newest_first(files).len() {
            keep
        } else {
            newest_first(files).len()
        },
        newest_first(files).len() == remaining(files, keep).len() + prune_plan(files, keep).len(),
        forall|j: int|
            0 <= j < remaining(files, keep).len() ==> files.contains(
                #[trigger] remaining(files, keep)[j],
            ) && is_backup_name(remaining(files, keep)[j].name@),
        forall|i: int, j: int|
            #![trigger files[i], remaining(files, keep)[j]]
            0 <= i < files.len() && is_backup_name(files[i].name@) && 0 <= j < remaining(
                files,
                keep,
            ).len() ==> remaining(files, keep).contains(files[i]) || files[i].modified
                <= remaining(files, keep)[j].modified,
{
    let ranked = newest_first(files);
    let left = remaining(files, keep);
    let plan = prune_plan(files, keep);
    lemma_newest_first(files);
    assert forall|j: int| 0 <= j < left.len() implies !plan.contains(#[trigger] ranked[j]) by {
        if plan.contains(ranked[j]) {
            let r = choose|r: int| 0 <= r < plan.len() && plan[r] == ranked[j];
            assert(plan[r] == ranked[r + keep]);
        }
    }
    assert forall|i: int|
        0 <= i < files.len() && is_backup_name(files[i].name@) && !plan.contains(
            i,
        ) implies left.contains(#[trigger] files[i]) by {
        assert(ranked.contains(i));
        let r = choose|r: int| 0 <= r < ranked.len() && ranked[r] == i;
        if r < left.len() {
            assert(left[r] == files[i]);
        } else {
            assert(plan[r - keep] == i);
        }
    }
    assert forall|j: int| 0 <= j < left.len() implies files.contains(#[trigger] left[j])
        && is_backup_name(left[j].name@) by {
        assert(left[j] == files[ranked[j]]);
        assert(0 <= ranked[j] < files.len());
    }
    assert forall|i: int, j: int|
        #![trigger files[i], left[j]]
        0 <= i < files.len() && is_backup_name(files[i].name@) && 0 <= j
            < left.len() implies left.contains(files[i]) || files[i].modified
        <= left[j].modified by {
        assert(ranked.contains(i));
        let r = choose|r: int| 0 <= r < ranked.len() && ranked[r] == i;
        if r < left.len() {
            assert(left[r] == files[i]);
        } else {
            assert(left[j] == files[ranked[j]]);
            assert(files[ranked[j]].modified >= files[ranked[r]].modified);
        }
    }
}

/// All the backups that a run of saves wrote, in the order in which they were written.
pub open spec fn all_written(writes: Seq<Seq<BackupFile>>) -> Seq<BackupFile>
    decreases writes.len(),
{
    if writes.len() == 0 {
        Seq::empty()
    } else {
        all_written(writes.drop_last()) + writes.last()
    }
}

/// The backups that the directory holds after a run of saves that began with no
/// backup, where each save wrote the given backups and then removed all but the `keep`
/// most recently modified.
pub open spec fn after_saves(writes: Seq<Seq<BackupFile>>, keep: nat) -> Seq<BackupFile>
    decreases writes.len(),
{
    if writes.len() == 0 {
        Seq::empty()
    } else {
        remaining(after_saves(writes.drop_last(), keep) + writes.last(), keep)
    }
}

/// Each backup was modified after all that were written before it.
pub open spec fn clock_advances(written: Seq<BackupFile>) -> bool {
    forall|i: int, j: int|
        0 <= i < j < written.len() ==> (#[trigger] written[i]).modified < (
        #[trigger] written[j]).modified
}

/// Retention over a run of saves: where the clock advances, so that every backup is
/// modified after those written before it, the directory holds after the run as many
/// backups as it keeps, or all that were written where these are fewer; they are among
/// those that were written; and every backup that was written and is gone was modified
/// no later than any that is left.
pub proof fn lemma_retention(writes: Seq<Seq<BackupFile>>, keep: nat)
    requires
        all_backups(all_written(writes)),
        clock_advances(all_written(writes)),
    ensures
        after_saves(writes, keep).len() == if keep < all_written(writes).len() {
            keep
        } else {
            all_written(writes).len()
        },
        forall|j: int|
            0 <= j < after_saves(writes, keep).len() ==> all_written(writes).contains(
                #[trigger] after_saves(writes, keep)[j],
            ),
        forall|i: int, j: int|
            #![trigger all_written(writes)[i], after_saves(writes, keep)[j]]
            0 <= i < all_written(writes).len() && 0 <= j < after_saves(writes, keep).len()
                ==> after_saves(writes, keep).contains(all_written(writes)[i]) || all_written(
                writes,
            )[i].modified <= after_saves(writes, keep)[j].modified,
    decreases writes.len(),
{
    if writes.len() > 0 {
        let earlier = writes.drop_last();
        let held = after_saves(earlier, keep);
        let before = all_written(earlier);
        let added = writes.last();
        let files = held + added;
        let written = all_written(writes);
        let left = after_saves(writes, keep);
        assert forall|i: int| 0 <= i < before.len() implies before[i] == written[i] by {}
        assert(all_backups(before)) by {
            assert forall|i: int| 0 <= i < before.len() implies is_backup_name(
                (#[trigger] before[i]).name@,
            ) by {
                assert(before[i] == written[i]);
            }
        }
        assert(clock_advances(before)) by {
            assert forall|i: int, j: int| 0 <= i < j < before.len() implies (
            #[trigger] before[i]).modified < (#[trigger] before[j]).modified by {
                assert(before[i] == written[i] && before[j] == written[j]);
            }
        }
        lemma_retention(earlier, keep);
        assert forall|p: int| 0 <= p < files.len() implies is_backup_name(
            (#[trigger] files[p]).name@,
        ) by {
            if p < held.len() {
                assert(files[p] == held[p]);
                assert(before.contains(held[p]));
                let i = choose|i: int| 0 <= i < before.len() && before[i] == held[p];
                assert(written[i] == held[p]);
            } else {
                assert(files[p] == written[before.len() + p - held.len()]);
            }
        }
        assert(all_backups(files));
        lemma_newest_first(files);
        lemma_remaining(files, keep);
        assert forall|j: int| 0 <= j < left.len() implies written.contains(#[trigger] left[j]) by {
            assert(files.contains(left[j]));
            let p = choose|p: int| 0 <= p < files.len() && files[p] == left[j];
            if p < held.len() {
                assert(files[p] == held[p]);
                assert(before.contains(held[p]));
                let i = choose|i: int| 0 <= i < before.len() && before[i] == held[p];
                assert(written[i] == left[j]);
            } else {
                assert(files[p] == written[before.len() + p - held.len()]);
            }
        }
        assert forall|i: int, j: int|
            #![trigger written[i], left[j]]
            0 <= i < written.len() && 0 <= j < left.len() implies left.contains(written[i])
            || written[i].modified <= left[j].modified by {
            if i >= before.len() {
                let p = held.len() + i - before.len();
                assert(files[p] == written[i]);
                assert(is_backup_name(files[p].name@));
            } else if held.contains(written[i]) {
                let p = choose|p: int| 0 <= p < held.len() && held[p] == written[i];
                assert(files[p] == written[i]);
                assert(is_backup_name(files[p].name@));
            } else {
                assert(files.contains(left[j]));
                let p = choose|p: int| 0 <= p < files.len() && files[p] == left[j];
                if p < held.len() {
                    assert(files[p] == held[p]);
                    assert(before[i] == written[i]);
                    assert(held.contains(before[i]) || before[i].modified <= held[p].modified);
                } else {
                    assert(files[p] == written[before.len() + p - held.len()]);
                }
            }
        }
    }
}

/// A run of saves of which each wrote a backup wrote at least as many backups as there
/// were saves.
pub proof fn lemma_written_count(writes: Seq<Seq<BackupFile>>)
    requires
        forall|k: int| 0 <= k < writes.len() ==> (#[trigger] writes[k]).len() >= 1,
    ensures
        all_written(writes).len() >= writes.len(),
    decreases writes.len(),
{
    if writes.len() > 0 {
        let earlier = writes.drop_last();
        assert forall|k: int| 0 <= k < earlier.len() implies (#[trigger] earlier[k]).len()
            >= 1 by {
            assert(earlier[k] == writes[k]);
        }
        lemma_written_count(earlier);
        assert(writes[writes.len() - 1].len() >= 1);
    }
}

/// After at least as many saves as backups are kept, of which each wrote a backup,
/// the directory holds exactly as many backups as are kept.
pub proof fn lemma_retention_is_full(writes: Seq<Seq<BackupFile>>, keep: nat)
    requires
        all_backups(all_written(writes)),
        clock_advances(all_written(writes)),
        forall|k: int| 0 <= k < writes.len() ==> (#[trigger] writes[k]).len() >= 1,
        writes.len() >= keep,
    ensures
        after_saves(writes, keep).len() == keep,
{
    lemma_written_count(writes);
    lemma_retention(writes, keep);
}

} // verus!
