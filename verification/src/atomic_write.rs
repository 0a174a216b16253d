//! Replacing a file so that its content is never lost: the new content is
//! written beside it, the old one is kept as a backup, and only then the new
//! one takes its place.

use crate::error::AppError;
use vstd::prelude::*;

verus! {

/// Something that the caller has to do.
#[derive(Debug, Clone, Copy, PartialEq, Eq, Structural)]
pub enum WriteAction {
    /// Write the new content to the temporary file, down to the disk.
    WriteTmp,
    /// Say whether the file exists.
    MainExists,
    /// Delete the backup.
    RemoveBackup,
    /// Rename the file to the backup.
    KeepBackup,
    /// Rename the temporary file to the file.
    Replace,
    /// Rename the backup to the file.
    PutBack,
    /// Nothing: the write has ended.
    Stop,
}

/// What became of an action.
pub enum WriteEvent {
    /// The answer to a question.
    Answer(bool),
    /// Whether the action succeeded.
    Done(Result<(), AppError>),
}

/// The event answers the action.
pub open spec fn write_answers(action: WriteAction, event: WriteEvent) -> bool {
    if action == WriteAction::MainExists {
        event is Answer
    } else {
        event is Done
    }
}

/// Model of an [`AtomicWrite`].
pub struct WriteView {
    /// What is to be done next.
    pub action: WriteAction,
    /// The old content was moved to the backup.
    pub kept: bool,
    /// Why the write failed, if it did.
    pub failure: Option<AppError>,
}

/// The beginning of a write.
pub open spec fn write_start() -> WriteView {
    WriteView { action: WriteAction::WriteTmp, kept: false, failure: None }
}

/// The write after an event. A backup that cannot be made stops nothing; where
/// the new content cannot take its place, the old one is put back.
pub open spec fn after_write_event(s: WriteView, event: WriteEvent) -> WriteView {
    match s.action {
        WriteAction::WriteTmp => match event {
            WriteEvent::Done(Err(e)) => WriteView {
                action: WriteAction::Stop,
                failure: Some(e),
                ..s
            },
            _ => WriteView { action: WriteAction::MainExists, ..s },
        },
        WriteAction::MainExists => WriteView {
            action: if event == WriteEvent::Answer(true) {
                WriteAction::RemoveBackup
            } else {
                WriteAction::Replace
            },
            ..s
        },
        WriteAction::RemoveBackup => WriteView { action: WriteAction::KeepBackup, ..s },
        WriteAction::KeepBackup => WriteView {
            action: WriteAction::Replace,
            kept: !(event matches WriteEvent::Done(Err(_))),
            ..s
        },
        WriteAction::Replace => match event {
            WriteEvent::Done(Err(e)) => WriteView {
                action: if s.kept {
                    WriteAction::PutBack
                } else {
                    WriteAction::Stop
                },
                failure: Some(e),
                ..s
            },
            _ => WriteView { action: WriteAction::Stop, ..s },
        },
        WriteAction::PutBack => WriteView { action: WriteAction::Stop, ..s },
        WriteAction::Stop => s,
    }
}

/// The replacement of a file on its way.
pub struct AtomicWrite {
    action: WriteAction,
    kept: bool,
    failure: Option<AppError>,
}

impl View for AtomicWrite {
    type V = WriteView;

    closed spec fn view(&self) -> WriteView {
        WriteView { action: self.action, kept: self.kept, failure: self.failure }
    }
}

impl AtomicWrite {
    /// Begins a write.
    pub fn start() -> (r: Self)
        ensures
            r@ == write_start(),
    {
        AtomicWrite { action: WriteAction::WriteTmp, kept: false, failure: None }
    }

    /// What is to be done next.
    pub fn action(&self) -> (r: WriteAction)
        ensures
            r == self@.action,
    {
        self.action
    }

    /// Takes in what became of the last action.
    pub fn advance(&mut self, event: WriteEvent)
        requires
            write_answers(old(self)@.action, event),
        ensures
            final(self)@ == after_write_event(old(self)@, event),
    {
        match self.action {
            WriteAction::WriteTmp => {
                match event {
                    WriteEvent::Done(Err(e)) => {
                        self.action = WriteAction::Stop;
                        self.failure = Some(e);
                    },
                    _ => {
                        self.action = WriteAction::MainExists;
                    },
                }
            },
            WriteAction::MainExists => {
                self.action = match event {
                    WriteEvent::Answer(true) => WriteAction::RemoveBackup,
                    _ => WriteAction::Replace,
                };
            },
            WriteAction::RemoveBackup => {
                self.action = WriteAction::KeepBackup;
            },
            WriteAction::KeepBackup => {
                self.action = WriteAction::Replace;
                self.kept = match event {
                    WriteEvent::Done(Err(_)) => false,
                    _ => true,
                };
            },
            WriteAction::Replace => {
                match event {
                    WriteEvent::Done(Err(e)) => {
                        self.action = if self.kept {
                            WriteAction::PutBack
                        } else {
                            WriteAction::Stop
                        };
                        self.failure = Some(e);
                    },
                    _ => {
                        self.action = WriteAction::Stop;
                    },
                }
            },
            WriteAction::PutBack => {
                self.action = WriteAction::Stop;
            },
            WriteAction::Stop => {},
        }
    }

    /// How the write ended.
    pub fn finish(self) -> (r: Result<(), AppError>)
        requires
            self@.action == WriteAction::Stop,
        ensures
            match self@.failure {
                Some(e) => r is Err && r->Err_0 == e,
                None => r is Ok,
            },
    {
        match self.failure {
            Some(e) => Err(e),
            None => Ok(()),
        }
    }
}

// ---------------------------------------------------------------------------
// Laws
// ---------------------------------------------------------------------------

/// The contents of the three files, where they exist.
pub struct Files {
    pub main: Option<Seq<u8>>,
    pub tmp: Option<Seq<u8>>,
    pub backup: Option<Seq<u8>>,
}

/// The action with the given outcome can turn the files `a` into `b`, where
/// `new` is the new content. A renaming is done as a whole or not at all; a
/// write that fails leaves anything in the temporary file.
pub open spec fn can_turn(
    action: WriteAction,
    event: WriteEvent,
    new: Seq<u8>,
    a: Files,
    b: Files,
) -> bool {
    let ok = event matches WriteEvent::Done(Ok(_));
    match action {
        WriteAction::WriteTmp => b.main == a.main && b.backup == a.backup && (ok ==> b.tmp == Some(
            new,
        )),
        WriteAction::MainExists => b == a && event == WriteEvent::Answer(a.main is Some),
        WriteAction::RemoveBackup => if ok {
            b == (Files { backup: None, ..a })
        } else {
            b == a
        },
        WriteAction::KeepBackup => if ok {
            b == (Files { main: None, backup: a.main, ..a })
        } else {
            b == a
        },
        WriteAction::Replace => if ok {
            b == (Files { main: a.tmp, tmp: None, ..a })
        } else {
            b == a
        },
        WriteAction::PutBack => if ok {
            b == (Files { main: a.backup, backup: None, ..a })
        } else {
            b == a
        },
        WriteAction::Stop => b == a,
    }
}

/// What the files hold at each moment of a write of `new` over `before`.
pub open spec fn is_safe(s: WriteView, f: Files, before: Option<Seq<u8>>, new: Seq<u8>) -> bool {
    match s.action {
        WriteAction::WriteTmp => f.main == before && s.failure is None && !s.kept,
        WriteAction::MainExists => f.main == before && f.tmp == Some(new) && s.failure is None
            && !s.kept,
        WriteAction::RemoveBackup | WriteAction::KeepBackup => f.main == before && before is Some
            && f.tmp == Some(new) && s.failure is None && !s.kept,
        WriteAction::Replace => f.tmp == Some(new) && s.failure is None && if s.kept {
            before is Some && f.backup == before && f.main is None
        } else {
            f.main == before
        },
        WriteAction::PutBack => s.failure is Some && before is Some && f.backup == before
            && f.main is None,
        WriteAction::Stop => if s.failure is None {
            f.main == Some(new)
        } else {
            f.main == before || (before is Some && f.backup == before && f.main is None)
        },
    }
}

/// A write keeps the files safe from its beginning on, whatever becomes of its
/// actions.
pub proof fn law_write_stays_safe(
    s: WriteView,
    event: WriteEvent,
    a: Files,
    b: Files,
    before: Option<Seq<u8>>,
    new: Seq<u8>,
)
    requires
        write_answers(s.action, event),
        can_turn(s.action, event, new, a, b),
    ensures
        a.main == before ==> is_safe(write_start(), a, before, new),
        is_safe(s, a, before, new) ==> is_safe(after_write_event(s, event), b, before, new),
{
}

/// At no moment is the content lost: the file holds the old content or the new
/// one, or the backup holds the old one.
pub proof fn law_content_is_never_lost(
    s: WriteView,
    f: Files,
    before: Option<Seq<u8>>,
    new: Seq<u8>,
)
    requires
        is_safe(s, f, before, new),
    ensures
        f.main == before || f.main == Some(new) || (before is Some && f.backup == before),
{
}

/// A write that was interrupted loses nothing to a reader who takes the backup
/// where the file is missing: the reader finds the old content or the new one.
pub proof fn law_interrupted_write_can_be_read(
    s: WriteView,
    f: Files,
    before: Option<Seq<u8>>,
    new: Seq<u8>,
)
    requires
        is_safe(s, f, before, new),
        before is Some,
    ensures
        ({
            let found = if f.main is Some {
                f.main
            } else {
                f.backup
            };
            found == before || found == Some(new)
        }),
{
}

/// A write that succeeded has put the new content in place.
pub proof fn law_success_means_written(
    s: WriteView,
    f: Files,
    before: Option<Seq<u8>>,
    new: Seq<u8>,
)
    requires
        is_safe(s, f, before, new),
        s.action == WriteAction::Stop,
        s.failure is None,
    ensures
        f.main == Some(new),
{
}

/// Where the new content cannot take its place, the old one is put back.
pub proof fn law_failed_replacement_is_undone(
    s: WriteView,
    e: AppError,
    a: Files,
    before: Option<Seq<u8>>,
    new: Seq<u8>,
    b: Files,
)
    requires
        is_safe(s, a, before, new),
        s.action == WriteAction::Replace,
        s.kept,
        can_turn(WriteAction::PutBack, WriteEvent::Done(Ok(())), new, a, b),
    ensures
        after_write_event(s, WriteEvent::Done(Err(e))).action == WriteAction::PutBack,
        b.main == before,
{
}

/// The number of actions that a write can still ask for.
pub open spec fn writes_left(action: WriteAction) -> nat {
    match action {
        WriteAction::WriteTmp => 6,
        WriteAction::MainExists => 5,
        WriteAction::RemoveBackup => 4,
        WriteAction::KeepBackup => 3,
        WriteAction::Replace => 2,
        WriteAction::PutBack => 1,
        WriteAction::Stop => 0,
    }
}

/// A write comes to an end.
pub proof fn law_write_ends(s: WriteView, event: WriteEvent)
    requires
        s.action != WriteAction::Stop,
        write_answers(s.action, event),
    ensures
        writes_left(after_write_event(s, event).action) < writes_left(s.action),
{
}

} // verus!
