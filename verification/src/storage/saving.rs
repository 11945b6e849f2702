use crate::calendar::{
    lemma_date_key_order, lemma_datetime_key_order, lemma_next_second, DateTime,
};
use crate::sorting::places;
use crate::storage::backups::{backups_to_remove, prune_plan};
use crate::storage::paths::{
    backup_name, lemma_backup_names_follow_time, lemma_backup_paths_differ, path_in, BackupFile,
    StorageError, StoreConfig,
};
use crate::text::lex_le;
use vstd::prelude::*;

verus! {

/// Where saving stands: what it waits to hear of.
#[derive(Clone, Copy, Debug, PartialEq, Eq, Structural)]
pub enum SaveState {
    /// Whether the backup directory is there.
    AwaitBackupDir,
    /// Whether there is a primary file.
    AwaitPrimaryCheck,
    /// Whether the primary file was copied to the backup of this moment.
    AwaitCopy(DateTime),
    /// Whether the ledger was written to the primary file; the moment is that of the
    /// backup of the ledger as it was, where there is one.
    AwaitWrite(Option<DateTime>),
    /// Whether the ledger was written to a backup.
    AwaitSecondBackup,
    /// What the backup directory holds.
    AwaitListing,
    /// Whether the old backups were removed.
    AwaitRemoval,
    /// Nothing more: saving has ended.
    Finished,
}

/// What saving has heard.
#[derive(Clone, Copy, Debug)]
pub enum SaveEvent<'a> {
    /// What was to be done is done.
    Succeeded,
    /// What was to be done could not be done.
    Failed,
    /// There is a primary file; the time is the given moment.
    PrimaryFound(DateTime),
    /// There is no primary file.
    PrimaryMissing,
    /// The ledger was written to the primary file; the time is the given moment.
    Written(DateTime),
    /// The files of the backup directory.
    Listing(&'a Vec<BackupFile>),
}

/// What is to be done next to save the ledger.
#[derive(Debug)]
pub enum SaveAction {
    /// Make the backup directory if it is not there.
    EnsureBackupDir,
    /// See whether there is a primary file, and read the clock.
    CheckPrimary,
    /// Copy the primary file to the backup of this moment.
    BackUpPrimary(DateTime),
    /// Write the ledger to the primary file, and read the clock.
    WritePrimary,
    /// Write what was written to the primary file to the backup of this moment.
    WriteBackup(DateTime),
    /// List the backup directory.
    ListBackups,
    /// Remove the files at these places of the listing, all of them.
    Remove(Vec<usize>),
    /// Nothing more: saving ends, with success or with the step that failed.
    Finish(Result<(), StorageError>),
}

/// What is to be done next to save the ledger, as plain mathematical values.
pub enum SaveActionView {
    EnsureBackupDir,
    CheckPrimary,
    BackUpPrimary(DateTime),
    WritePrimary,
    WriteBackup(DateTime),
    ListBackups,
    Remove(Seq<int>),
    Finish(Result<(), StorageError>),
}

impl View for SaveAction {
    type V = SaveActionView;

    open spec fn view(&self) -> SaveActionView {
        match self {
            SaveAction::EnsureBackupDir => SaveActionView::EnsureBackupDir,
            SaveAction::CheckPrimary => SaveActionView::CheckPrimary,
            SaveAction::BackUpPrimary(moment) => SaveActionView::BackUpPrimary(*moment),
            SaveAction::WritePrimary => SaveActionView::WritePrimary,
            SaveAction::WriteBackup(moment) => SaveActionView::WriteBackup(*moment),
            SaveAction::ListBackups => SaveActionView::ListBackups,
            SaveAction::Remove(at) => SaveActionView::Remove(places(at@)),
            SaveAction::Finish(result) => SaveActionView::Finish(*result),
        }
    }
}

/// The end of saving with the step that failed.
pub open spec fn save_failed(step: StorageError) -> (SaveState, SaveActionView) {
    (SaveState::Finished, SaveActionView::Finish(Err(step)))
}

/// The moment after which the backup of the ledger as it is now is named: the moment at
/// which the ledger was written, or, where that is not later than the moment of the
/// backup of the ledger as it was, the second after that moment. So the two backups of
/// one save never have the same name. There is none where the second after is no
/// moment of the calendar.
pub open spec fn second_stamp(first: Option<DateTime>, now: DateTime) -> Option<DateTime> {
    match first {
        Some(before) => if now.key() > before.key() {
            Some(now)
        } else if before.next_second().valid() {
            Some(before.next_second())
        } else {
            None
        },
        None => Some(now),
    }
}

/// How saving goes on from `state` when it hears `event`, where `keep` backups are kept.
/// The ledger as it was is copied to a backup, the ledger is written, the ledger as it
/// is now is written to a second backup under another name, and the backups beyond the
/// `keep` most recently modified are removed. Whatever fails ends saving with the step
/// that failed, and saving ends with success only where every step succeeded.
pub open spec fn save_next(state: SaveState, event: SaveEvent, keep: nat) -> (
    SaveState,
    SaveActionView,
) {
    match state {
        SaveState::AwaitBackupDir => match event {
            SaveEvent::Succeeded => (SaveState::AwaitPrimaryCheck, SaveActionView::CheckPrimary),
            _ => save_failed(StorageError::CreateBackupDirectory),
        },
        SaveState::AwaitPrimaryCheck => match event {
            SaveEvent::PrimaryFound(now) => if now.valid() {
                (SaveState::AwaitCopy(now), SaveActionView::BackUpPrimary(now))
            } else {
                save_failed(StorageError::InvalidTime)
            },
            SaveEvent::PrimaryMissing => (
                SaveState::AwaitWrite(None),
                SaveActionView::WritePrimary,
            ),
            _ => save_failed(StorageError::BackupPrevious),
        },
        SaveState::AwaitCopy(before) => match event {
            SaveEvent::Succeeded => (
                SaveState::AwaitWrite(Some(before)),
                SaveActionView::WritePrimary,
            ),
            _ => save_failed(StorageError::BackupPrevious),
        },
        SaveState::AwaitWrite(first) => match event {
            SaveEvent::Written(now) => if now.valid() && (first matches Some(before)
                ==> before.valid()) {
                match second_stamp(first, now) {
                    Some(moment) => (
                        SaveState::AwaitSecondBackup,
                        SaveActionView::WriteBackup(moment),
                    ),
                    None => save_failed(StorageError::InvalidTime),
                }
            } else {
                save_failed(StorageError::InvalidTime)
            },
            _ => save_failed(StorageError::WritePrimary),
        },
        SaveState::AwaitSecondBackup => match event {
            SaveEvent::Succeeded => (SaveState::AwaitListing, SaveActionView::ListBackups),
            _ => save_failed(StorageError::WriteBackup),
        },
        SaveState::AwaitListing => match event {
            SaveEvent::Listing(files) => (
                SaveState::AwaitRemoval,
                SaveActionView::Remove(prune_plan(files@, keep)),
            ),
            _ => save_failed(StorageError::ListBackups),
        },
        SaveState::AwaitRemoval => match event {
            SaveEvent::Succeeded => (SaveState::Finished, SaveActionView::Finish(Ok(()))),
            _ => save_failed(StorageError::RemoveBackups),
        },
        SaveState::Finished => save_failed(StorageError::AlreadyFinished),
    }
}

/// How saving begins.
pub fn begin_save() -> (r: (SaveState, SaveAction))
    ensures
        r.0 == SaveState::AwaitBackupDir,
        r.1@ == SaveActionView::EnsureBackupDir,
{
    (SaveState::AwaitBackupDir, SaveAction::EnsureBackupDir)
}

fn fail_save(step: StorageError) -> (r: (SaveState, SaveAction))
    ensures
        (r.0, r.1@) == save_failed(step),
{
    (SaveState::Finished, SaveAction::Finish(Err(step)))
}

/// How saving goes on from `state` when it hears `event`, where as many backups are kept
/// as `config` says.
pub fn save_step(config: &StoreConfig, state: SaveState, event: SaveEvent) -> (r: (
    SaveState,
    SaveAction,
))
    ensures
        (r.0, r.1@) == save_next(state, event, config.max_backups as nat),
        r.1 matches SaveAction::Remove(at) ==> event is Listing && forall|j: int|
            0 <= j < at.len() ==> (#[trigger] at[j]) < event->Listing_0.len(),
{
    match state {
        SaveState::AwaitBackupDir => match event {
            SaveEvent::Succeeded => (SaveState::AwaitPrimaryCheck, SaveAction::CheckPrimary),
            _ => fail_save(StorageError::CreateBackupDirectory),
        },
        SaveState::AwaitPrimaryCheck => match event {
            SaveEvent::PrimaryFound(now) => if now.is_valid() {
                (SaveState::AwaitCopy(now), SaveAction::BackUpPrimary(now))
            } else {
                fail_save(StorageError::InvalidTime)
            },
            SaveEvent::PrimaryMissing => (SaveState::AwaitWrite(None), SaveAction::WritePrimary),
            _ => fail_save(StorageError::BackupPrevious),
        },
        SaveState::AwaitCopy(before) => match event {
            SaveEvent::Succeeded => (SaveState::AwaitWrite(Some(before)), SaveAction::WritePrimary),
            _ => fail_save(StorageError::BackupPrevious),
        },
        SaveState::AwaitWrite(first) => match event {
            SaveEvent::Written(now) => {
                if !now.is_valid() {
                    return fail_save(StorageError::InvalidTime);
                }
                let stamp = match first {
                    Some(before) => {
                        if !before.is_valid() {
                            return fail_save(StorageError::InvalidTime);
                        }
                        if now.order_key() > before.order_key() {
                            Some(now)
                        } else {
                            before.following_second()
                        }
                    },
                    None => Some(now),
                };
                match stamp {
                    Some(moment) => (SaveState::AwaitSecondBackup, SaveAction::WriteBackup(moment)),
                    None => fail_save(StorageError::InvalidTime),
                }
            },
            _ => fail_save(StorageError::WritePrimary),
        },
        SaveState::AwaitSecondBackup => match event {
            SaveEvent::Succeeded => (SaveState::AwaitListing, SaveAction::ListBackups),
            _ => fail_save(StorageError::WriteBackup),
        },
        SaveState::AwaitListing => match event {
            SaveEvent::Listing(files) => (
                SaveState::AwaitRemoval,
                SaveAction::Remove(backups_to_remove(files, config.max_backups)),
            ),
            _ => fail_save(StorageError::ListBackups),
        },
        SaveState::AwaitRemoval => match event {
            SaveEvent::Succeeded => (SaveState::Finished, SaveAction::Finish(Ok(()))),
            _ => fail_save(StorageError::RemoveBackups),
        },
        SaveState::Finished => fail_save(StorageError::AlreadyFinished),
    }
}

/// A step that fails ends saving with an error that names the step.
pub proof fn lemma_save_failure_surfaces(state: SaveState, keep: nat)
    ensures
        state is AwaitBackupDir ==> save_next(state, SaveEvent::Failed, keep) == save_failed(
            StorageError::CreateBackupDirectory,
        ),
        state is AwaitPrimaryCheck || state is AwaitCopy ==> save_next(
            state,
            SaveEvent::Failed,
            keep,
        ) == save_failed(StorageError::BackupPrevious),
        state is AwaitWrite ==> save_next(state, SaveEvent::Failed, keep) == save_failed(
            StorageError::WritePrimary,
        ),
        state is AwaitSecondBackup ==> save_next(state, SaveEvent::Failed, keep) == save_failed(
            StorageError::WriteBackup,
        ),
        state is AwaitListing ==> save_next(state, SaveEvent::Failed, keep) == save_failed(
            StorageError::ListBackups,
        ),
        state is AwaitRemoval ==> save_next(state, SaveEvent::Failed, keep) == save_failed(
            StorageError::RemoveBackups,
        ),
        state is Finished ==> save_next(state, SaveEvent::Failed, keep) == save_failed(
            StorageError::AlreadyFinished,
        ),
{
}

/// Saving ends with success only on hearing that the old backups were removed, which
/// is the last of its steps.
pub proof fn lemma_save_succeeds_last(state: SaveState, event: SaveEvent, keep: nat)
    ensures
        save_next(state, event, keep).1 == SaveActionView::Finish(Ok(())) <==> state
            is AwaitRemoval && event is Succeeded,
        save_next(state, event, keep).1 is Remove ==> state is AwaitListing,
        save_next(state, event, keep).0 is AwaitRemoval ==> state is AwaitListing,
        save_next(state, event, keep).0 is AwaitListing ==> state is AwaitSecondBackup,
        save_next(state, event, keep).0 is AwaitSecondBackup ==> state is AwaitWrite,
        save_next(state, event, keep).0 is AwaitWrite ==> state is AwaitCopy || state
            is AwaitPrimaryCheck,
        save_next(state, event, keep).0 is AwaitCopy ==> state is AwaitPrimaryCheck,
        save_next(state, event, keep).0 is AwaitPrimaryCheck ==> state is AwaitBackupDir,
{
}

/// The two backups of one save have different names: whatever the clock said when the
/// ledger was written, the backup of the ledger as it is now is named after a moment
/// later than that of the backup of the ledger as it was, and is kept at another path.
/// Only in the last second of the calendar is there no such moment.
pub proof fn lemma_save_backups_differ(dir: Seq<char>, before: DateTime, now: DateTime)
    requires
        before.valid(),
        now.valid(),
    ensures
        second_stamp(Some(before), now) matches Some(moment) ==> {
            &&& moment.valid()
            &&& moment.key() > before.key()
            &&& backup_name(moment.timestamp()) != backup_name(before.timestamp())
            &&& path_in(dir, backup_name(moment.timestamp())) != path_in(
                dir,
                backup_name(before.timestamp()),
            )
        },
        second_stamp(Some(before), now) is None <==> now.key() <= before.key()
            && !before.next_second().valid(),
        second_stamp(Some(before), now) matches Some(moment) ==> (0 <= before.date.year
            && moment.date.year <= 9999 ==> lex_le(
            backup_name(before.timestamp()),
            backup_name(moment.timestamp()),
        ) && !lex_le(backup_name(moment.timestamp()), backup_name(before.timestamp()))),
{
    lemma_next_second(before);
    match second_stamp(Some(before), now) {
        Some(moment) => {
            lemma_backup_paths_differ(dir, moment, before);
            if 0 <= before.date.year && moment.date.year <= 9999 {
                lemma_datetime_key_order(before, moment);
                lemma_date_key_order(before.date, moment.date);
                lemma_backup_names_follow_time(before, moment);
                lemma_backup_names_follow_time(moment, before);
            }
        },
        None => {},
    }
}

/// A save over an existing primary file, in which nothing fails, makes two backups: one
/// of the ledger as it was, named after the moment before the ledger is written, and
/// one of the ledger as it is, named after a later moment; then it removes the backups
/// beyond the `keep` most recently modified and ends with success.
pub proof fn lemma_save_makes_two_backups(
    before: DateTime,
    after: DateTime,
    files: &Vec<BackupFile>,
    keep: nat,
)
    requires
        before.valid(),
        after.valid(),
        second_stamp(Some(before), after) is Some,
    ensures
        ({
            let second = second_stamp(Some(before), after)->0;
            let s1 = save_next(SaveState::AwaitBackupDir, SaveEvent::Succeeded, keep);
            let s2 = save_next(s1.0, SaveEvent::PrimaryFound(before), keep);
            let s3 = save_next(s2.0, SaveEvent::Succeeded, keep);
            let s4 = save_next(s3.0, SaveEvent::Written(after), keep);
            let s5 = save_next(s4.0, SaveEvent::Succeeded, keep);
            let s6 = save_next(s5.0, SaveEvent::Listing(files), keep);
            let s7 = save_next(s6.0, SaveEvent::Succeeded, keep);
            &&& s1.1 == SaveActionView::CheckPrimary
            &&& s2.1 == SaveActionView::BackUpPrimary(before)
            &&& s3.1 == SaveActionView::WritePrimary
            &&& s4.1 == SaveActionView::WriteBackup(second)
            &&& second.key() > before.key()
            &&& backup_name(second.timestamp()) != backup_name(before.timestamp())
            &&& s5.1 == SaveActionView::ListBackups
            &&& s6.1 == SaveActionView::Remove(prune_plan(files@, keep))
            &&& s7 == (SaveState::Finished, SaveActionView::Finish(Ok(())))
        }),
{
    lemma_save_backups_differ(Seq::empty(), before, after);
}

} // verus!
