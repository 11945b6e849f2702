use crate::calendar::{lemma_timestamp_injective, lemma_timestamps_follow_time, DateTime};
use crate::text::{
    chars_of, ends_with, has_prefix, has_suffix, join3, lemma_lex_le_concat,
    lemma_lex_le_reflexive, lex_le, starts_with,
};
use vstd::prelude::*;
use vstd::string::StringExecFns;

verus! {

/// What the name of every backup of the ledger begins with.
pub open spec fn backup_prefix() -> Seq<char> {
    "transactions_backup_"@
}

/// What the name of every backup of the ledger ends with.
pub open spec fn backup_suffix() -> Seq<char> {
    ".json"@
}

/// The extension given to an attachment whose source has none.
pub open spec fn default_extension() -> Seq<char> {
    "png"@
}

/// The name of the backup that is stamped with `stamp`.
pub open spec fn backup_name(stamp: Seq<char>) -> Seq<char> {
    backup_prefix() + stamp + backup_suffix()
}

/// The path of the file `name` in the directory `dir`.
pub open spec fn path_in(dir: Seq<char>, name: Seq<char>) -> Seq<char> {
    dir + seq!['/'] + name
}

/// Whether a file name is that of a backup of the ledger. Only such files are looked at
/// when the ledger is recovered and when old backups are removed.
pub open spec fn is_backup_name(name: Seq<char>) -> bool {
    &&& backup_prefix().len() + backup_suffix().len() <= name.len()
    &&& starts_with(name, backup_prefix())
    &&& ends_with(name, backup_suffix())
}

/// The name under which an attachment is stored: the stamp, the name of the source file,
/// and once more the extension of the source file, or `png` where it has none.
pub open spec fn attachment_name(
    stamp: Seq<char>,
    file_name: Seq<char>,
    extension: Option<Seq<char>>,
) -> Seq<char> {
    stamp + seq!['_'] + file_name + seq!['.'] + match extension {
        Some(given) => given,
        None => default_extension(),
    }
}

/// The text of a name, where there is one.
pub open spec fn name_text(name: Option<&str>) -> Option<Seq<char>> {
    match name {
        Some(text) => Some(text@),
        None => None,
    }
}

/// The path under which a file is stored as an attachment at the moment `now`, in the
/// directory `dir`; an error where the source has no file name, or where `now` does not
/// exist in the calendar.
pub open spec fn attachment_target(
    dir: Seq<char>,
    now: DateTime,
    file_name: Option<Seq<char>>,
    extension: Option<Seq<char>>,
) -> Result<Seq<char>, StorageError> {
    match file_name {
        None => Err(StorageError::InvalidFilename),
        Some(source) => if now.valid() {
            Ok(path_in(dir, attachment_name(now.timestamp(), source, extension)))
        } else {
            Err(StorageError::InvalidTime)
        },
    }
}

/// The name of a backup is a backup name, whatever its stamp.
pub proof fn lemma_backup_name_is_backup_name(stamp: Seq<char>)
    ensures
        is_backup_name(backup_name(stamp)),
{
    let name = backup_name(stamp);
    assert(name.subrange(0, backup_prefix().len() as int) =~= backup_prefix());
    assert(name.subrange(name.len() - backup_suffix().len(), name.len() as int)
        =~= backup_suffix());
}

/// In the years 0 to 9999 the names of backups are ordered as the moments are at which
/// the backups were made: the backup with the greatest name is the one made last.
pub proof fn lemma_backup_names_follow_time(a: DateTime, b: DateTime)
    requires
        a.valid(),
        b.valid(),
        0 <= a.date.year <= 9999,
        0 <= b.date.year <= 9999,
    ensures
        lex_le(backup_name(a.timestamp()), backup_name(b.timestamp())) == (a.key() <= b.key()),
        (backup_name(a.timestamp()) == backup_name(b.timestamp())) == (a == b),
{
    let ta = a.timestamp();
    let tb = b.timestamp();
    lemma_timestamps_follow_time(a, b);
    assert(backup_name(ta) =~= backup_prefix() + (ta + backup_suffix()));
    assert(backup_name(tb) =~= backup_prefix() + (tb + backup_suffix()));
    lemma_lex_le_concat(backup_prefix(), ta + backup_suffix(), backup_prefix(), tb + backup_suffix());
    lemma_lex_le_concat(ta, backup_suffix(), tb, backup_suffix());
    lemma_lex_le_reflexive(backup_suffix());
    if backup_name(ta) == backup_name(tb) {
        let n = backup_prefix().len() as int;
        assert(ta =~= backup_name(ta).subrange(n, n + 15));
        assert(tb =~= backup_name(tb).subrange(n, n + 15));
    }
}

/// Backups made at different moments have different paths, whatever the years.
pub proof fn lemma_backup_paths_differ(dir: Seq<char>, a: DateTime, b: DateTime)
    requires
        a.valid(),
        b.valid(),
        a != b,
    ensures
        backup_name(a.timestamp()) != backup_name(b.timestamp()),
        path_in(dir, backup_name(a.timestamp())) != path_in(dir, backup_name(b.timestamp())),
{
    let ta = a.timestamp();
    let tb = b.timestamp();
    let na = backup_name(ta);
    let nb = backup_name(tb);
    if na == nb {
        let n = backup_prefix().len() as int;
        let m = backup_suffix().len() as int;
        assert(ta =~= na.subrange(n, na.len() - m));
        assert(tb =~= nb.subrange(n, nb.len() - m));
        lemma_timestamp_injective(a, b);
    }
    if path_in(dir, na) == path_in(dir, nb) {
        let pa = path_in(dir, na);
        let pb = path_in(dir, nb);
        assert(na =~= pa.subrange(dir.len() as int + 1, pa.len() as int));
        assert(nb =~= pb.subrange(dir.len() as int + 1, pb.len() as int));
    }
}

/// Why the store could not do what was asked of it: the step that failed.
#[derive(Clone, Copy, Debug, PartialEq, Eq, Structural)]
pub enum StorageError {
    /// The backup directory could not be made.
    CreateBackupDirectory,
    /// The ledger as it was before could not be copied to a backup.
    BackupPrevious,
    /// The ledger could not be written to the primary file.
    WritePrimary,
    /// The ledger as it is now could not be written to a backup.
    WriteBackup,
    /// The backup directory could not be listed.
    ListBackups,
    /// The moment given as the current time does not exist in the calendar.
    InvalidTime,
    /// The attachment directory could not be made.
    CreateAttachmentDirectory,
    /// The file to attach has no name.
    InvalidFilename,
    /// The file to attach could not be copied.
    CopyAttachment,
    /// A backup beyond those that are kept could not be removed.
    RemoveBackups,
    /// A step was asked for after the work had ended.
    AlreadyFinished,
}

impl StorageError {
    /// What went wrong, in words.
    pub open spec fn text(self) -> Seq<char> {
        match self {
            StorageError::CreateBackupDirectory => "the backup directory could not be made"@,
            StorageError::BackupPrevious => "the previous ledger could not be backed up"@,
            StorageError::WritePrimary => "the ledger could not be written"@,
            StorageError::WriteBackup => "the backup of the ledger could not be written"@,
            StorageError::ListBackups => "the backup directory could not be listed"@,
            StorageError::InvalidTime => "the current time is not a moment of the calendar"@,
            StorageError::CreateAttachmentDirectory => "the attachment directory could not be made"@,
            StorageError::InvalidFilename => "Invalid filename"@,
            StorageError::CopyAttachment => "the attachment could not be copied"@,
            StorageError::RemoveBackups => "an old backup could not be removed"@,
            StorageError::AlreadyFinished => "there was nothing more to do"@,
        }
    }

    pub fn describe(&self) -> (message: &'static str)
        ensures
            message@ == self.text(),
    {
        match self {
            StorageError::CreateBackupDirectory => "the backup directory could not be made",
            StorageError::BackupPrevious => "the previous ledger could not be backed up",
            StorageError::WritePrimary => "the ledger could not be written",
            StorageError::WriteBackup => "the backup of the ledger could not be written",
            StorageError::ListBackups => "the backup directory could not be listed",
            StorageError::InvalidTime => "the current time is not a moment of the calendar",
            StorageError::CreateAttachmentDirectory => "the attachment directory could not be made",
            StorageError::InvalidFilename => "Invalid filename",
            StorageError::CopyAttachment => "the attachment could not be copied",
            StorageError::RemoveBackups => "an old backup could not be removed",
            StorageError::AlreadyFinished => "there was nothing more to do",
        }
    }
}

/// Where the store keeps its files, and how many backups it keeps.
#[derive(Debug)]
pub struct StoreConfig {
    pub primary_path: String,
    pub backup_dir: String,
    pub attachments_dir: String,
    pub max_backups: usize,
}

/// One file of the backup directory: its name, and when it was last modified, as a
/// count of time units since a fixed moment.
#[derive(Debug)]
pub struct BackupFile {
    pub name: String,
    pub modified: u128,
}

/// Whether a file name is that of a backup of the ledger.
pub fn is_backup_file_name(name: &str) -> (r: bool)
    ensures
        r == is_backup_name(name@),
{
    let text = chars_of(name);
    let prefix = chars_of("transactions_backup_");
    let suffix = chars_of(".json");
    if text.len() < prefix.len() || text.len() - prefix.len() < suffix.len() {
        return false;
    }
    has_prefix(&text, &prefix) && has_suffix(&text, &suffix)
}

impl StoreConfig {
    /// The usual places: the ledger in `transactions.json`, its backups in `backups`,
    /// attachments in `attachments`, and fifty backups kept.
    pub fn standard() -> (config: StoreConfig)
        ensures
            config.primary_path@ == "transactions.json"@,
            config.backup_dir@ == "backups"@,
            config.attachments_dir@ == "attachments"@,
            config.max_backups == 50,
    {
        StoreConfig {
            primary_path: "transactions.json".to_owned(),
            backup_dir: "backups".to_owned(),
            attachments_dir: "attachments".to_owned(),
            max_backups: 50,
        }
    }

    /// The path of the backup that is made at `moment`; an error where `moment` does not
    /// exist in the calendar.
    pub fn backup_path(&self, moment: &DateTime) -> (r: Result<String, StorageError>)
        ensures
            moment.valid() ==> r is Ok && r->Ok_0@ == path_in(
                self.backup_dir@,
                backup_name(moment.timestamp()),
            ),
            !moment.valid() ==> r == Err::<String, StorageError>(StorageError::InvalidTime),
    {
        match moment.to_timestamp() {
            Some(stamp) => {
                let name = join3("transactions_backup_", stamp.as_str(), ".json");
                proof {
                    reveal_strlit("/");
                    assert("/"@ =~= seq!['/']);
                }
                Ok(join3(self.backup_dir.as_str(), "/", name.as_str()))
            },
            None => Err(StorageError::InvalidTime),
        }
    }

    /// The path of the backup directory's file `name`.
    pub fn backup_file_path(&self, name: &str) -> (path: String)
        ensures
            path@ == path_in(self.backup_dir@, name@),
    {
        proof {
            reveal_strlit("/");
            assert("/"@ =~= seq!['/']);
        }
        join3(self.backup_dir.as_str(), "/", name)
    }

    /// The path under which a file is stored as an attachment at `moment`, from the name
    /// and the extension of the source file. An error where the source has no file name,
    /// or where `moment` does not exist in the calendar.
    pub fn attachment_path(
        &self,
        moment: &DateTime,
        file_name: Option<&str>,
        extension: Option<&str>,
    ) -> (r: Result<String, StorageError>)
        ensures
            match attachment_target(
                self.attachments_dir@,
                *moment,
                name_text(file_name),
                name_text(extension),
            ) {
                Ok(path) => r is Ok && r->Ok_0@ == path,
                Err(e) => r == Err::<String, StorageError>(e),
            },
    {
        let source = match file_name {
            Some(source) => source,
            None => {
                return Err(StorageError::InvalidFilename);
            },
        };
        let stamp = match moment.to_timestamp() {
            Some(stamp) => stamp,
            None => {
                return Err(StorageError::InvalidTime);
            },
        };
        let ending = match extension {
            Some(given) => given,
            None => "png",
        };
        let mut name = join3(stamp.as_str(), "_", source);
        name.append(".");
        name.append(ending);
        let path = join3(self.attachments_dir.as_str(), "/", name.as_str());
        proof {
            reveal_strlit("_");
            reveal_strlit(".");
            reveal_strlit("/");
            assert("_"@ =~= seq!['_']);
            assert("."@ =~= seq!['.']);
            assert("/"@ =~= seq!['/']);
        }
        Ok(path)
    }
}

} // verus!
