use lending_ledger::calendar::{Date, DateTime};
use lending_ledger::storage::{
    attach_step, begin_attach, AttachAction, AttachEvent, AttachState, backups_to_remove, begin_load, begin_save, is_backup_file_name, load_step, most_recent_backup,
    save_step, BackupFile, LoadAction, LoadEvent, LoadOutcome, LoadState, SaveAction, SaveEvent,
    SaveState, StorageError, StoreConfig,
};

fn moment(year: i32) -> DateTime {
    DateTime::new(Date::new(year, 3, 5), 7, 8, 9)
}

fn names(list: &[&str]) -> Vec<String> {
    list.iter().map(|name| name.to_string()).collect()
}

fn file(name: &str, modified: u128) -> BackupFile {
    BackupFile { name: name.to_string(), modified }
}

#[test]
fn standard_places() {
    let config = StoreConfig::standard();
    assert_eq!(config.primary_path, "transactions.json");
    assert_eq!(config.backup_dir, "backups");
    assert_eq!(config.attachments_dir, "attachments");
    assert_eq!(config.max_backups, 50);
}

#[test]
fn backup_path_carries_the_stamp() {
    let config = StoreConfig::standard();
    assert_eq!(
        config.backup_path(&moment(2024)).unwrap(),
        "backups/transactions_backup_20240305_070809.json"
    );
    assert_eq!(
        config
            .backup_path(&DateTime::new(Date::new(1999, 12, 31), 23, 59, 59))
            .unwrap(),
        "backups/transactions_backup_19991231_235959.json"
    );
    assert_eq!(
        config.backup_file_path("transactions_backup_x.json"),
        "backups/transactions_backup_x.json"
    );
}

#[test]
fn stamp_of_unusual_years() {
    let stamp = |year: i32| DateTime::new(Date::new(year, 1, 2), 0, 0, 0).to_timestamp().unwrap();
    assert_eq!(stamp(0), "00000102_000000");
    assert_eq!(stamp(5), "00050102_000000");
    assert_eq!(stamp(999), "09990102_000000");
    assert_eq!(stamp(9999), "99990102_000000");
    assert_eq!(stamp(10000), "+100000102_000000");
    assert_eq!(stamp(12345), "+123450102_000000");
    assert_eq!(stamp(262142), "+2621420102_000000");
    assert_eq!(stamp(-1), "-00010102_000000");
    assert_eq!(stamp(-5), "-00050102_000000");
    assert_eq!(stamp(-9999), "-99990102_000000");
    assert_eq!(stamp(-12345), "-123450102_000000");
    assert_eq!(stamp(-262143), "-2621430102_000000");
}

#[test]
fn stamp_needs_a_moment_of_the_calendar() {
    let config = StoreConfig::standard();
    let odd = DateTime::new(Date::new(2024, 2, 30), 0, 0, 0);
    assert_eq!(odd.to_timestamp(), None);
    assert_eq!(config.backup_path(&odd), Err(StorageError::InvalidTime));
    let late = DateTime::new(Date::new(2024, 2, 28), 0, 0, 60);
    assert_eq!(late.to_timestamp(), None);
}

#[test]
fn attachment_name_repeats_the_extension() {
    let config = StoreConfig::standard();
    assert_eq!(
        config
            .attachment_path(&moment(2024), Some("photo.png"), Some("png"))
            .unwrap(),
        "attachments/20240305_070809_photo.png.png"
    );
    assert_eq!(
        config.attachment_path(&moment(2024), Some("scan"), None).unwrap(),
        "attachments/20240305_070809_scan.png"
    );
    assert_eq!(
        config
            .attachment_path(&moment(2024), Some("a.b.JPG"), Some("JPG"))
            .unwrap(),
        "attachments/20240305_070809_a.b.JPG.JPG"
    );
}

#[test]
fn attachment_needs_a_file_name() {
    let config = StoreConfig::standard();
    assert_eq!(
        config.attachment_path(&moment(2024), None, Some("png")),
        Err(StorageError::InvalidFilename)
    );
    let odd = DateTime::new(Date::new(2024, 2, 30), 0, 0, 0);
    assert_eq!(
        config.attachment_path(&odd, Some("a.png"), Some("png")),
        Err(StorageError::InvalidTime)
    );
    assert_eq!(
        config.attachment_path(&odd, None, None),
        Err(StorageError::InvalidFilename)
    );
}

#[test]
fn backup_names_are_told_by_prefix_and_suffix() {
    assert!(is_backup_file_name("transactions_backup_20240305_070809.json"));
    assert!(is_backup_file_name("transactions_backup_.json"));
    assert!(!is_backup_file_name("transactions_backup_.jso"));
    assert!(!is_backup_file_name("transactions_backup.json"));
    assert!(!is_backup_file_name("transactions.json"));
    assert!(!is_backup_file_name("notes.json"));
    assert!(!is_backup_file_name("transactions_backup_20240305_070809.json.tmp"));
    assert!(!is_backup_file_name("xtransactions_backup_1.json"));
    assert!(!is_backup_file_name(""));
}

#[test]
fn newest_backup_is_the_greatest_name() {
    let listing = names(&[
        "transactions_backup_20240101_000000.json",
        "zzz.json",
        "transactions_backup_20240301_000000.json",
        "transactions_backup_20240201_235959.json",
        "transactions_backup_20240301_000000.json.bak",
    ]);
    assert_eq!(most_recent_backup(&listing), Some(2));
    assert_eq!(most_recent_backup(&names(&["a.json", "transactions.json"])), None);
    assert_eq!(most_recent_backup(&Vec::new()), None);
    assert_eq!(
        most_recent_backup(&names(&[
            "transactions_backup_2.json",
            "transactions_backup_10.json",
            "transactions_backup_1.json",
        ])),
        Some(0)
    );
}

#[test]
fn pruning_keeps_the_most_recently_modified() {
    let mut files = Vec::new();
    for i in 0..55u128 {
        let modified = (i * 37) % 55;
        files.push(file(&format!("transactions_backup_{:02}.json", i), 1_000 + modified));
    }
    files.push(file("notes.txt", 0));
    let plan = backups_to_remove(&files, 50);
    assert_eq!(plan.len(), 5);
    let mut removed: Vec<u128> = plan.iter().map(|&at| files[at].modified).collect();
    removed.sort();
    assert_eq!(removed, vec![1_000, 1_001, 1_002, 1_003, 1_004]);
    assert!(plan.iter().all(|&at| at < 55));
}

#[test]
fn pruning_removes_oldest_last_and_keeps_listing_order_among_equals() {
    let files = vec![
        file("transactions_backup_a.json", 5),
        file("transactions_backup_b.json", 9),
        file("other.json", 1),
        file("transactions_backup_c.json", 5),
        file("transactions_backup_d.json", 7),
        file("transactions_backup_e.json", 5),
    ];
    assert_eq!(backups_to_remove(&files, 0), vec![1, 4, 0, 3, 5]);
    assert_eq!(backups_to_remove(&files, 2), vec![0, 3, 5]);
    assert_eq!(backups_to_remove(&files, 3), vec![3, 5]);
    assert_eq!(backups_to_remove(&files, 5), Vec::<usize>::new());
    assert_eq!(backups_to_remove(&files, 50), Vec::<usize>::new());
    assert_eq!(backups_to_remove(&Vec::new(), 0), Vec::<usize>::new());
}

#[test]
fn pruning_handles_the_extremes_of_time() {
    let files = vec![
        file("transactions_backup_a.json", 0),
        file("transactions_backup_b.json", u128::MAX),
        file("transactions_backup_c.json", 1),
    ];
    assert_eq!(backups_to_remove(&files, 1), vec![2, 0]);
}

#[test]
fn load_takes_the_primary_file_when_it_is_usable() {
    assert_eq!(begin_load(), (LoadState::AwaitPrimary, LoadAction::ReadPrimary));
    assert_eq!(
        load_step(LoadState::AwaitPrimary, LoadEvent::Usable),
        (LoadState::Finished, LoadAction::Finish(LoadOutcome::Primary))
    );
}

#[test]
fn load_recovers_from_the_newest_backup() {
    let listing = names(&[
        "transactions_backup_20240101_000000.json",
        "transactions_backup_20240301_000000.json",
        "junk",
    ]);
    let (state, action) = load_step(LoadState::AwaitPrimary, LoadEvent::Unusable);
    assert_eq!((state, action), (LoadState::AwaitListing, LoadAction::ListBackups));
    let (state, action) = load_step(state, LoadEvent::Listing(&listing));
    assert_eq!((state, action), (LoadState::AwaitBackup(1), LoadAction::ReadBackup(1)));
    let (state, action) = load_step(state, LoadEvent::Usable);
    assert_eq!(
        (state, action),
        (LoadState::Finished, LoadAction::Finish(LoadOutcome::Recovered(1)))
    );
}

#[test]
fn load_ends_empty_when_nothing_is_usable() {
    let empty = (LoadState::Finished, LoadAction::Finish(LoadOutcome::Empty));
    let none = names(&["junk.json"]);
    let one = names(&["transactions_backup_1.json"]);
    assert_eq!(load_step(LoadState::AwaitListing, LoadEvent::NoListing), empty);
    assert_eq!(load_step(LoadState::AwaitListing, LoadEvent::Listing(&none)), empty);
    assert_eq!(load_step(LoadState::AwaitListing, LoadEvent::Unusable), empty);
    assert_eq!(load_step(LoadState::AwaitBackup(0), LoadEvent::Unusable), empty);
    assert_eq!(load_step(LoadState::AwaitBackup(0), LoadEvent::Listing(&one)), empty);
    assert_eq!(load_step(LoadState::AwaitPrimary, LoadEvent::Listing(&one)), empty);
    assert_eq!(load_step(LoadState::AwaitPrimary, LoadEvent::NoListing), empty);
    assert_eq!(load_step(LoadState::Finished, LoadEvent::Usable), empty);
}

fn step(state: SaveState, event: SaveEvent) -> (SaveState, SaveAction) {
    save_step(&StoreConfig::standard(), state, event)
}

fn is_failure(result: (SaveState, SaveAction), error: StorageError) -> bool {
    matches!(result, (SaveState::Finished, SaveAction::Finish(Err(e))) if e == error)
}

#[test]
fn save_backs_up_before_and_after_writing() {
    let before = moment(2024);
    let after = DateTime::new(Date::new(2024, 3, 5), 7, 8, 10);
    let files = vec![
        file("transactions_backup_20240305_070809.json", 10),
        file("transactions_backup_20240305_070810.json", 11),
    ];
    assert!(matches!(begin_save(), (SaveState::AwaitBackupDir, SaveAction::EnsureBackupDir)));
    let (state, action) = step(SaveState::AwaitBackupDir, SaveEvent::Succeeded);
    assert!(matches!((state, action), (SaveState::AwaitPrimaryCheck, SaveAction::CheckPrimary)));
    let (state, action) = step(state, SaveEvent::PrimaryFound(before));
    assert!(matches!((state, action), (SaveState::AwaitCopy(at), SaveAction::BackUpPrimary(m)) if m == before && at == before));
    let (state, action) = step(state, SaveEvent::Succeeded);
    assert!(matches!((state, action), (SaveState::AwaitWrite(Some(at)), SaveAction::WritePrimary) if at == before));
    let (state, action) = step(state, SaveEvent::Written(after));
    assert!(matches!((state, action), (SaveState::AwaitSecondBackup, SaveAction::WriteBackup(m)) if m == after));
    let (state, action) = step(state, SaveEvent::Succeeded);
    assert!(matches!((state, action), (SaveState::AwaitListing, SaveAction::ListBackups)));
    let (state, action) = step(state, SaveEvent::Listing(&files));
    assert!(matches!((state, action), (SaveState::AwaitRemoval, SaveAction::Remove(ref at)) if at.is_empty()));
    let (state, action) = step(state, SaveEvent::Succeeded);
    assert!(matches!((state, action), (SaveState::Finished, SaveAction::Finish(Ok(())))));
}

#[test]
fn save_without_a_primary_file_writes_at_once() {
    let result = step(SaveState::AwaitPrimaryCheck, SaveEvent::PrimaryMissing);
    assert!(matches!(result, (SaveState::AwaitWrite(None), SaveAction::WritePrimary)));
}

#[test]
fn save_orders_the_removal_of_old_backups() {
    let files = vec![
        file("transactions_backup_a.json", 3),
        file("transactions_backup_b.json", 1),
        file("transactions_backup_c.json", 2),
    ];
    let mut config = StoreConfig::standard();
    config.max_backups = 1;
    let result = save_step(&config, SaveState::AwaitListing, SaveEvent::Listing(&files));
    assert!(matches!(result, (SaveState::AwaitRemoval, SaveAction::Remove(ref at)) if *at == vec![2, 1]));
    let removed = save_step(&config, SaveState::AwaitRemoval, SaveEvent::Succeeded);
    assert!(matches!(removed, (SaveState::Finished, SaveAction::Finish(Ok(())))));
    let left = save_step(&config, SaveState::AwaitRemoval, SaveEvent::Failed);
    assert!(is_failure(left, StorageError::RemoveBackups));
}

#[test]
fn save_reports_the_step_that_failed() {
    let odd = DateTime::new(Date::new(2024, 2, 30), 0, 0, 0);
    assert!(is_failure(
        step(SaveState::AwaitBackupDir, SaveEvent::Failed),
        StorageError::CreateBackupDirectory
    ));
    assert!(is_failure(
        step(SaveState::AwaitPrimaryCheck, SaveEvent::Failed),
        StorageError::BackupPrevious
    ));
    assert!(is_failure(
        step(SaveState::AwaitPrimaryCheck, SaveEvent::PrimaryFound(odd)),
        StorageError::InvalidTime
    ));
    assert!(is_failure(
        step(SaveState::AwaitCopy(moment(2024)), SaveEvent::Failed),
        StorageError::BackupPrevious
    ));
    assert!(is_failure(
        step(SaveState::AwaitWrite(None), SaveEvent::Failed),
        StorageError::WritePrimary
    ));
    assert!(is_failure(
        step(SaveState::AwaitWrite(None), SaveEvent::Written(odd)),
        StorageError::InvalidTime
    ));
    assert!(is_failure(
        step(SaveState::AwaitSecondBackup, SaveEvent::Failed),
        StorageError::WriteBackup
    ));
    assert!(is_failure(
        step(SaveState::AwaitListing, SaveEvent::Failed),
        StorageError::ListBackups
    ));
}

#[test]
fn storage_errors_in_words() {
    let all = [
        StorageError::CreateBackupDirectory,
        StorageError::BackupPrevious,
        StorageError::WritePrimary,
        StorageError::WriteBackup,
        StorageError::ListBackups,
        StorageError::InvalidTime,
        StorageError::CreateAttachmentDirectory,
        StorageError::InvalidFilename,
        StorageError::CopyAttachment,
        StorageError::RemoveBackups,
        StorageError::AlreadyFinished,
    ];
    for (i, a) in all.iter().enumerate() {
        assert!(!a.describe().is_empty());
        for b in &all[i + 1..] {
            assert_ne!(a.describe(), b.describe());
        }
    }
    assert_eq!(StorageError::InvalidFilename.describe(), "Invalid filename");
}

#[test]
fn backup_names_follow_time() {
    let config = StoreConfig::standard();
    let moments = [
        DateTime::new(Date::new(0, 1, 1), 0, 0, 0),
        DateTime::new(Date::new(999, 12, 31), 23, 59, 59),
        DateTime::new(Date::new(1000, 1, 1), 0, 0, 0),
        DateTime::new(Date::new(2024, 9, 30), 23, 59, 59),
        DateTime::new(Date::new(2024, 10, 1), 0, 0, 0),
        DateTime::new(Date::new(2024, 10, 1), 9, 59, 59),
        DateTime::new(Date::new(2024, 10, 1), 10, 0, 0),
        DateTime::new(Date::new(2024, 10, 1), 10, 0, 1),
        DateTime::new(Date::new(9999, 12, 31), 23, 59, 59),
    ];
    for pair in moments.windows(2) {
        assert!(pair[0].order_key() < pair[1].order_key());
        assert!(config.backup_path(&pair[0]).unwrap() < config.backup_path(&pair[1]).unwrap());
    }
}

fn attach(state: AttachState, event: AttachEvent) -> (AttachState, AttachAction) {
    attach_step(&StoreConfig::standard(), state, event)
}

fn attach_fails(result: (AttachState, AttachAction), error: StorageError) -> bool {
    matches!(result, (AttachState::Finished, AttachAction::Finish(Err(e))) if e == error)
}

#[test]
fn attachment_is_copied_under_its_new_name() {
    assert!(matches!(begin_attach(), (AttachState::AwaitDirectory, AttachAction::EnsureDirectory)));
    let (state, action) = attach(AttachState::AwaitDirectory, AttachEvent::Succeeded);
    assert!(matches!((state, action), (AttachState::AwaitSource, AttachAction::DescribeSource)));
    let source = AttachEvent::Source {
        file_name: Some("photo.png"),
        extension: Some("png"),
        now: moment(2024),
    };
    let (state, action) = attach(state, source);
    assert_eq!(state, AttachState::AwaitCopy);
    assert!(matches!(action, AttachAction::CopyTo(ref path)
        if path == "attachments/20240305_070809_photo.png.png"));
    let (state, action) = attach(state, AttachEvent::Succeeded);
    assert!(matches!((state, action), (AttachState::Finished, AttachAction::Finish(Ok(())))));
}

#[test]
fn attachment_reports_the_step_that_failed() {
    let odd = DateTime::new(Date::new(2024, 2, 30), 0, 0, 0);
    assert!(attach_fails(
        attach(AttachState::AwaitDirectory, AttachEvent::Failed),
        StorageError::CreateAttachmentDirectory
    ));
    assert!(attach_fails(
        attach(
            AttachState::AwaitSource,
            AttachEvent::Source { file_name: None, extension: Some("png"), now: moment(2024) }
        ),
        StorageError::InvalidFilename
    ));
    assert!(attach_fails(
        attach(
            AttachState::AwaitSource,
            AttachEvent::Source { file_name: Some("a"), extension: None, now: odd }
        ),
        StorageError::InvalidTime
    ));
    assert!(attach_fails(
        attach(AttachState::AwaitSource, AttachEvent::Failed),
        StorageError::InvalidFilename
    ));
    assert!(attach_fails(
        attach(AttachState::AwaitCopy, AttachEvent::Failed),
        StorageError::CopyAttachment
    ));
}

fn second_backup(before: DateTime, now: DateTime) -> (SaveState, SaveAction) {
    step(SaveState::AwaitWrite(Some(before)), SaveEvent::Written(now))
}

#[test]
fn save_names_its_two_backups_differently() {
    let config = StoreConfig::standard();
    let before = moment(2024);
    let cases = [
        (before, before, DateTime::new(Date::new(2024, 3, 5), 7, 8, 10)),
        (before, DateTime::new(Date::new(2024, 3, 5), 7, 8, 8), DateTime::new(Date::new(2024, 3, 5), 7, 8, 10)),
        (before, DateTime::new(Date::new(2024, 3, 5), 7, 9, 0), DateTime::new(Date::new(2024, 3, 5), 7, 9, 0)),
        (
            DateTime::new(Date::new(2024, 3, 5), 7, 8, 59),
            DateTime::new(Date::new(2024, 3, 5), 7, 8, 59),
            DateTime::new(Date::new(2024, 3, 5), 7, 9, 0),
        ),
        (
            DateTime::new(Date::new(2024, 3, 5), 7, 59, 59),
            DateTime::new(Date::new(2024, 3, 5), 7, 59, 59),
            DateTime::new(Date::new(2024, 3, 5), 8, 0, 0),
        ),
        (
            DateTime::new(Date::new(2024, 2, 28), 23, 59, 59),
            DateTime::new(Date::new(2024, 2, 28), 23, 59, 59),
            DateTime::new(Date::new(2024, 2, 29), 0, 0, 0),
        ),
        (
            DateTime::new(Date::new(2023, 2, 28), 23, 59, 59),
            DateTime::new(Date::new(2020, 1, 1), 0, 0, 0),
            DateTime::new(Date::new(2023, 3, 1), 0, 0, 0),
        ),
        (
            DateTime::new(Date::new(2024, 4, 30), 23, 59, 59),
            DateTime::new(Date::new(2024, 4, 30), 23, 59, 59),
            DateTime::new(Date::new(2024, 5, 1), 0, 0, 0),
        ),
        (
            DateTime::new(Date::new(9999, 12, 31), 23, 59, 59),
            DateTime::new(Date::new(9999, 12, 31), 23, 59, 59),
            DateTime::new(Date::new(10000, 1, 1), 0, 0, 0),
        ),
    ];
    for (before, now, expected) in cases {
        let (state, action) = second_backup(before, now);
        assert_eq!(state, SaveState::AwaitSecondBackup);
        assert!(matches!(action, SaveAction::WriteBackup(m) if m == expected));
        assert_ne!(config.backup_path(&before), config.backup_path(&expected));
        assert!(expected.order_key() > before.order_key());
    }
    assert_eq!(
        config.backup_path(&DateTime::new(Date::new(2024, 3, 5), 7, 8, 10)).unwrap(),
        "backups/transactions_backup_20240305_070810.json"
    );
}

#[test]
fn save_cannot_name_a_backup_after_the_last_second() {
    let last = DateTime::new(Date::new(262142, 12, 31), 23, 59, 59);
    assert!(is_failure(second_backup(last, last), StorageError::InvalidTime));
    let odd = DateTime::new(Date::new(2024, 2, 30), 0, 0, 0);
    assert!(is_failure(second_backup(odd, moment(2024)), StorageError::InvalidTime));
    assert!(is_failure(second_backup(moment(2024), odd), StorageError::InvalidTime));
}

#[test]
fn nothing_is_done_after_the_end() {
    assert!(is_failure(
        step(SaveState::Finished, SaveEvent::Succeeded),
        StorageError::AlreadyFinished
    ));
    assert!(is_failure(
        step(SaveState::Finished, SaveEvent::Failed),
        StorageError::AlreadyFinished
    ));
    assert!(attach_fails(
        attach(AttachState::Finished, AttachEvent::Succeeded),
        StorageError::AlreadyFinished
    ));
}

#[test]
fn fifty_backups_remain_after_fifty_five_saves() {
    let mut directory: Vec<BackupFile> = Vec::new();
    let mut clock: u128 = 1_000;
    let mut written: Vec<u128> = Vec::new();
    for save in 0..55 {
        let backups = if save == 0 { 1 } else { 2 };
        for _ in 0..backups {
            clock += 1;
            directory.push(file(&format!("transactions_backup_{:08}.json", clock), clock));
            written.push(clock);
        }
        let plan = backups_to_remove(&directory, 50);
        let mut kept = Vec::new();
        for (at, backup) in directory.into_iter().enumerate() {
            if !plan.contains(&at) {
                kept.push(backup);
            }
        }
        directory = kept;
        assert_eq!(directory.len(), written.len().min(50));
    }
    assert_eq!(directory.len(), 50);
    let mut left: Vec<u128> = directory.iter().map(|backup| backup.modified).collect();
    left.sort();
    assert_eq!(left, written[written.len() - 50..].to_vec());
}
