pub mod attaching;
pub mod backups;
pub mod loading;
pub mod paths;
pub mod retention;
pub mod saving;

pub use attaching::{attach_step, begin_attach, AttachAction, AttachEvent, AttachState};
pub use backups::{backups_to_remove, most_recent_backup};
pub use loading::{begin_load, load_step, LoadAction, LoadEvent, LoadOutcome, LoadState};
pub use paths::{is_backup_file_name, BackupFile, StorageError, StoreConfig};
pub use saving::{begin_save, save_step, SaveAction, SaveEvent, SaveState};
