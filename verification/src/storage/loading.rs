use crate::storage::backups::{most_recent_backup, newest_backup};
use vstd::prelude::*;

verus! {

/// Where loading stands: what it waits to hear of.
#[derive(Clone, Copy, Debug, PartialEq, Eq, Structural)]
pub enum LoadState {
    /// Whether the primary file could be read as a ledger.
    AwaitPrimary,
    /// What the backup directory holds.
    AwaitListing,
    /// Whether the backup at this place of the listing could be read as a ledger.
    AwaitBackup(usize),
    /// Nothing more: loading has ended.
    Finished,
}

/// What loading has heard.
#[derive(Clone, Copy, Debug)]
pub enum LoadEvent<'a> {
    /// The file was read, and what it holds is a ledger.
    Usable,
    /// The file is absent, or cannot be read, or what it holds is no ledger.
    Unusable,
    /// The names of the files of the backup directory.
    Listing(&'a Vec<String>),
    /// The backup directory is absent or cannot be listed.
    NoListing,
}

/// With which ledger loading ends.
#[derive(Clone, Copy, Debug, PartialEq, Eq, Structural)]
pub enum LoadOutcome {
    /// With the ledger read from the primary file.
    Primary,
    /// With the ledger read from the backup at this place of the listing, which is to be
    /// copied over the primary file.
    Recovered(usize),
    /// With the empty ledger.
    Empty,
}

/// What is to be done next to load the ledger.
#[derive(Clone, Copy, Debug, PartialEq, Eq, Structural)]
pub enum LoadAction {
    /// Read the primary file as a ledger.
    ReadPrimary,
    /// List the backup directory.
    ListBackups,
    /// Read the backup at this place of the listing as a ledger.
    ReadBackup(usize),
    /// Nothing more: loading ends, and this is its outcome.
    Finish(LoadOutcome),
}

/// How loading goes on from `state` when it hears `event`. Loading never fails: where
/// nothing can be read it ends with the empty ledger.
pub open spec fn load_next(state: LoadState, event: LoadEvent) -> (LoadState, LoadAction) {
    match state {
        LoadState::AwaitPrimary => match event {
            LoadEvent::Usable => (LoadState::Finished, LoadAction::Finish(LoadOutcome::Primary)),
            LoadEvent::Unusable => (LoadState::AwaitListing, LoadAction::ListBackups),
            _ => (LoadState::Finished, LoadAction::Finish(LoadOutcome::Empty)),
        },
        LoadState::AwaitListing => match event {
            LoadEvent::Listing(names) => match newest_backup(names@) {
                Some(at) => (LoadState::AwaitBackup(at as usize), LoadAction::ReadBackup(at as usize)),
                None => (LoadState::Finished, LoadAction::Finish(LoadOutcome::Empty)),
            },
            _ => (LoadState::Finished, LoadAction::Finish(LoadOutcome::Empty)),
        },
        LoadState::AwaitBackup(at) => match event {
            LoadEvent::Usable => (
                LoadState::Finished,
                LoadAction::Finish(LoadOutcome::Recovered(at)),
            ),
            _ => (LoadState::Finished, LoadAction::Finish(LoadOutcome::Empty)),
        },
        LoadState::Finished => (LoadState::Finished, LoadAction::Finish(LoadOutcome::Empty)),
    }
}

/// How loading begins.
pub fn begin_load() -> (r: (LoadState, LoadAction))
    ensures
        r == (LoadState::AwaitPrimary, LoadAction::ReadPrimary),
{
    (LoadState::AwaitPrimary, LoadAction::ReadPrimary)
}

/// How loading goes on from `state` when it hears `event`.
pub fn load_step(state: LoadState, event: LoadEvent) -> (r: (LoadState, LoadAction))
    ensures
        r == load_next(state, event),
{
    match state {
        LoadState::AwaitPrimary => match event {
            LoadEvent::Usable => (LoadState::Finished, LoadAction::Finish(LoadOutcome::Primary)),
            LoadEvent::Unusable => (LoadState::AwaitListing, LoadAction::ListBackups),
            _ => (LoadState::Finished, LoadAction::Finish(LoadOutcome::Empty)),
        },
        LoadState::AwaitListing => match event {
            LoadEvent::Listing(names) => match most_recent_backup(names) {
                Some(at) => (LoadState::AwaitBackup(at), LoadAction::ReadBackup(at)),
                None => (LoadState::Finished, LoadAction::Finish(LoadOutcome::Empty)),
            },
            _ => (LoadState::Finished, LoadAction::Finish(LoadOutcome::Empty)),
        },
        LoadState::AwaitBackup(at) => match event {
            LoadEvent::Usable => (
                LoadState::Finished,
                LoadAction::Finish(LoadOutcome::Recovered(at)),
            ),
            _ => (LoadState::Finished, LoadAction::Finish(LoadOutcome::Empty)),
        },
        LoadState::Finished => (LoadState::Finished, LoadAction::Finish(LoadOutcome::Empty)),
    }
}

/// Recovery: where the primary file is unusable and the newest backup of the listing is
/// usable, loading reads that backup and ends with its ledger, which is to be copied over
/// the primary file.
pub proof fn lemma_load_recovers(names: &Vec<String>)
    requires
        newest_backup(names@) is Some,
    ensures
        ({
            let at = newest_backup(names@)->0 as usize;
            let first = load_next(LoadState::AwaitPrimary, LoadEvent::Unusable);
            let second = load_next(first.0, LoadEvent::Listing(names));
            let third = load_next(second.0, LoadEvent::Usable);
            &&& first.1 == LoadAction::ListBackups
            &&& second.1 == LoadAction::ReadBackup(at)
            &&& third == (LoadState::Finished, LoadAction::Finish(LoadOutcome::Recovered(at)))
        }),
{
}

/// Loading ends with the empty ledger only where neither the primary file nor the newest
/// backup was usable, and with a ledger that was read only where the file was usable.
pub proof fn lemma_load_outcomes(state: LoadState, event: LoadEvent)
    ensures
        load_next(state, event).0 is Finished <==> load_next(state, event).1 is Finish,
        load_next(state, event).1 == LoadAction::Finish(LoadOutcome::Primary) <==> state
            is AwaitPrimary && event is Usable,
        load_next(state, event).1 is Finish && load_next(state, event).1->Finish_0
            is Recovered ==> state is AwaitBackup && event is Usable,
{
}

} // verus!
