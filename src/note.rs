use vstd::prelude::*;

verus! {

/// The kinds of failure the engine reports.
#[derive(Clone, Copy, Debug, PartialEq, Eq, Structural)]
pub enum ErrorKind {
    /// A request with a malformed identifier or an empty title.
    InvalidInput,
    /// A note that does not exist or has been deleted.
    NotFound,
    /// A change record that does not fit the state it is replayed on.
    LogCorrupt,
    /// A failure of the storage underneath.
    IOFailure,
    /// An unexpected fault, such as an exhausted identifier or clock.
    Internal,
}

/// One note: identity, content and the logical times of its creation and
/// last modification.
#[derive(Clone, Debug, PartialEq, Eq)]
pub struct Note {
    pub id: u64,
    pub title: String,
    pub body: String,
    pub created_at: u64,
    pub updated_at: u64,
    pub deleted: bool,
}

/// The mathematical value of a note.
pub struct NoteView {
    pub id: u64,
    pub title: Seq<char>,
    pub body: Seq<char>,
    pub created_at: u64,
    pub updated_at: u64,
    pub deleted: bool,
}

impl View for Note {
    type V = NoteView;

    open spec fn view(&self) -> NoteView {
        NoteView {
            id: self.id,
            title: self.title@,
            body: self.body@,
            created_at: self.created_at,
            updated_at: self.updated_at,
            deleted: self.deleted,
        }
    }
}

impl Note {
    /// A field-by-field copy.
    pub fn copy(&self) -> (r: Note)
        ensures
            r@ == self@,
    {
        Note {
            id: self.id,
            title: self.title.clone(),
            body: self.body.clone(),
            created_at: self.created_at,
            updated_at: self.updated_at,
            deleted: self.deleted,
        }
    }
}

/// The views of a sequence of notes.
pub open spec fn notes_view(s: Seq<Note>) -> Seq<NoteView> {
    s.map_values(|n: Note| n@)
}

/// What a change record does.
#[derive(Clone, Copy, Debug, PartialEq, Eq, Structural)]
pub enum ChangeKind {
    Create,
    Update,
    Delete,
}

/// One entry of the change log. `after` carries the title and body that a
/// create or update installs; `before` is the note as it stood, kept for audit.
#[derive(Clone, Debug, PartialEq, Eq)]
pub struct ChangeRecord {
    pub note_id: u64,
    pub kind: ChangeKind,
    pub before: Option<Note>,
    pub after: Note,
    pub timestamp: u64,
}

/// The mathematical value of a change record.
pub struct RecordView {
    pub note_id: u64,
    pub kind: ChangeKind,
    pub before: Option<NoteView>,
    pub after: NoteView,
    pub timestamp: u64,
}

impl View for ChangeRecord {
    type V = RecordView;

    open spec fn view(&self) -> RecordView {
        RecordView {
            note_id: self.note_id,
            kind: self.kind,
            before: match self.before {
                Some(n) => Some(n@),
                None => None,
            },
            after: self.after@,
            timestamp: self.timestamp,
        }
    }
}

impl ChangeRecord {
    /// A field-by-field copy.
    pub fn copy(&self) -> (r: ChangeRecord)
        ensures
            r@ == self@,
    {
        let before = match &self.before {
            Some(n) => Some(n.copy()),
            None => None,
        };
        ChangeRecord {
            note_id: self.note_id,
            kind: self.kind,
            before,
            after: self.after.copy(),
            timestamp: self.timestamp,
        }
    }
}

/// The views of a sequence of change records.
pub open spec fn records_view(s: Seq<ChangeRecord>) -> Seq<RecordView> {
    s.map_values(|r: ChangeRecord| r@)
}

} // verus!
