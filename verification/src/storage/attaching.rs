use crate::calendar::DateTime;
use crate::storage::paths::{
    attachment_name, attachment_target, name_text, path_in, StorageError, StoreConfig,
};
use vstd::prelude::*;

verus! {

/// Where storing an attachment stands: what it waits to hear of.
#[derive(Clone, Copy, Debug, PartialEq, Eq, Structural)]
pub enum AttachState {
    /// Whether the attachment directory is there.
    AwaitDirectory,
    /// What the source file is called.
    AwaitSource,
    /// Whether the source file was copied.
    AwaitCopy,
    /// Nothing more: storing has ended.
    Finished,
}

/// What storing an attachment has heard.
#[derive(Clone, Copy, Debug)]
pub enum AttachEvent<'a> {
    /// What was to be done is done.
    Succeeded,
    /// What was to be done could not be done.
    Failed,
    /// The name of the source file and its extension, as far as it has them; the time
    /// is the given moment.
    Source { file_name: Option<&'a str>, extension: Option<&'a str>, now: DateTime },
}

/// What is to be done next to store an attachment.
#[derive(Debug)]
pub enum AttachAction {
    /// Make the attachment directory if it is not there.
    EnsureDirectory,
    /// Say what the source file is called, and read the clock.
    DescribeSource,
    /// Copy the source file to this path, under which the attachment is then stored.
    CopyTo(String),
    /// Nothing more: storing ends, with success or with the step that failed.
    Finish(Result<(), StorageError>),
}

/// What is to be done next to store an attachment, as plain mathematical values.
pub enum AttachActionView {
    EnsureDirectory,
    DescribeSource,
    CopyTo(Seq<char>),
    Finish(Result<(), StorageError>),
}

impl View for AttachAction {
    type V = AttachActionView;

    open spec fn view(&self) -> AttachActionView {
        match self {
            AttachAction::EnsureDirectory => AttachActionView::EnsureDirectory,
            AttachAction::DescribeSource => AttachActionView::DescribeSource,
            AttachAction::CopyTo(path) => AttachActionView::CopyTo(path@),
            AttachAction::Finish(result) => AttachActionView::Finish(*result),
        }
    }
}

/// The end of storing an attachment with the step that failed.
pub open spec fn attach_failed(step: StorageError) -> (AttachState, AttachActionView) {
    (AttachState::Finished, AttachActionView::Finish(Err(step)))
}

/// How storing an attachment in the directory `dir` goes on from `state` when it hears
/// `event`. The file is copied under a name made of the moment, the name of the source
/// file and its extension. Whatever fails ends storing with the step that failed.
pub open spec fn attach_next(dir: Seq<char>, state: AttachState, event: AttachEvent) -> (
    AttachState,
    AttachActionView,
) {
    match state {
        AttachState::AwaitDirectory => match event {
            AttachEvent::Succeeded => (AttachState::AwaitSource, AttachActionView::DescribeSource),
            _ => attach_failed(StorageError::CreateAttachmentDirectory),
        },
        AttachState::AwaitSource => match event {
            AttachEvent::Source { file_name, extension, now } => match attachment_target(
                dir,
                now,
                name_text(file_name),
                name_text(extension),
            ) {
                Ok(path) => (AttachState::AwaitCopy, AttachActionView::CopyTo(path)),
                Err(e) => attach_failed(e),
            },
            _ => attach_failed(StorageError::InvalidFilename),
        },
        AttachState::AwaitCopy => match event {
            AttachEvent::Succeeded => (AttachState::Finished, AttachActionView::Finish(Ok(()))),
            _ => attach_failed(StorageError::CopyAttachment),
        },
        AttachState::Finished => attach_failed(StorageError::AlreadyFinished),
    }
}

/// How storing an attachment begins.
pub fn begin_attach() -> (r: (AttachState, AttachAction))
    ensures
        r.0 == AttachState::AwaitDirectory,
        r.1@ == AttachActionView::EnsureDirectory,
{
    (AttachState::AwaitDirectory, AttachAction::EnsureDirectory)
}

fn fail_attach(step: StorageError) -> (r: (AttachState, AttachAction))
    ensures
        (r.0, r.1@) == attach_failed(step),
{
    (AttachState::Finished, AttachAction::Finish(Err(step)))
}

/// How storing an attachment goes on from `state` when it hears `event`.
pub fn attach_step(config: &StoreConfig, state: AttachState, event: AttachEvent) -> (r: (
    AttachState,
    AttachAction,
))
    ensures
        (r.0, r.1@) == attach_next(config.attachments_dir@, state, event),
{
    match state {
        AttachState::AwaitDirectory => match event {
            AttachEvent::Succeeded => (AttachState::AwaitSource, AttachAction::DescribeSource),
            _ => fail_attach(StorageError::CreateAttachmentDirectory),
        },
        AttachState::AwaitSource => match event {
            AttachEvent::Source { file_name, extension, now } => match config.attachment_path(
                &now,
                file_name,
                extension,
            ) {
                Ok(path) => (AttachState::AwaitCopy, AttachAction::CopyTo(path)),
                Err(e) => fail_attach(e),
            },
            _ => fail_attach(StorageError::InvalidFilename),
        },
        AttachState::AwaitCopy => match event {
            AttachEvent::Succeeded => (AttachState::Finished, AttachAction::Finish(Ok(()))),
            _ => fail_attach(StorageError::CopyAttachment),
        },
        AttachState::Finished => fail_attach(StorageError::AlreadyFinished),
    }
}

/// An attachment whose source has a name is copied, where nothing fails, to the path
/// that `attachment_target` gives, and storing it ends with success.
pub proof fn lemma_attach_stores(
    dir: Seq<char>,
    file_name: &str,
    extension: Option<&str>,
    now: DateTime,
)
    requires
        now.valid(),
    ensures
        ({
            let path = path_in(
                dir,
                attachment_name(now.timestamp(), file_name@, name_text(extension)),
            );
            let first = attach_next(dir, AttachState::AwaitDirectory, AttachEvent::Succeeded);
            let second = attach_next(
                dir,
                first.0,
                AttachEvent::Source { file_name: Some(file_name), extension, now },
            );
            let third = attach_next(dir, second.0, AttachEvent::Succeeded);
            &&& first.1 == AttachActionView::DescribeSource
            &&& second.1 == AttachActionView::CopyTo(path)
            &&& third == (AttachState::Finished, AttachActionView::Finish(Ok(())))
        }),
{
}

} // verus!
