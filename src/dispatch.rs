use vstd::prelude::*;
use vstd::string::*;
use crate::codec::{dec_log_from, decode_log};
use crate::note::{ChangeRecord, ErrorKind, Note, records_view};
use crate::render::{render, rendered};
use crate::store::{NoteStore, delete_outcome, empty_model, replay_model, save_outcome};

verus! {

/// The message shown to the user for each kind of failure.
pub open spec fn message_text(e: ErrorKind) -> Seq<char> {
    match e {
        ErrorKind::InvalidInput => "The request is malformed: check the note id and title."@,
        ErrorKind::NotFound => "That note does not exist or was deleted."@,
        ErrorKind::LogCorrupt => "The change log is damaged; it was left as it is. Restore it from a backup or move it aside to start afresh."@,
        ErrorKind::IOFailure => "The notes could not be read or written."@,
        ErrorKind::Internal => "An internal error occurred."@,
    }
}

/// The user-facing message for `e`; the only place errors become text.
pub fn message(e: ErrorKind) -> (r: String)
    ensures
        r@ == message_text(e),
{
    match e {
        ErrorKind::InvalidInput => String::from_str("The request is malformed: check the note id and title."),
        ErrorKind::NotFound => String::from_str("That note does not exist or was deleted."),
        ErrorKind::LogCorrupt => String::from_str("The change log is damaged; it was left as it is. Restore it from a backup or move it aside to start afresh."),
        ErrorKind::IOFailure => String::from_str("The notes could not be read or written."),
        ErrorKind::Internal => String::from_str("An internal error occurred."),
    }
}

/// Attempts at one write of the log before the failure is reported.
pub const WRITE_ATTEMPTS: u32 = 3;

/// What to do after an attempt at writing the log.
#[derive(Clone, Copy, Debug, PartialEq, Eq, Structural)]
pub enum WriteStep {
    /// The write went through.
    Done,
    /// Wait this many milliseconds, then try again.
    RetryAfter(u64),
    /// Report `IOFailure`.
    GiveUp,
}

/// The wait before the attempt after attempt `attempt`, doubling each time.
pub open spec fn backoff_ms(attempt: u32) -> u64 {
    if attempt == 0 {
        50
    } else if attempt == 1 {
        100
    } else {
        200
    }
}

/// Decides what follows attempt `attempt` (counted from 0) of a log write.
pub fn next_write_step(attempt: u32, succeeded: bool) -> (r: WriteStep)
    ensures
        succeeded ==> r == WriteStep::Done,
        !succeeded && attempt + 1 < WRITE_ATTEMPTS ==> r == WriteStep::RetryAfter(backoff_ms(attempt)),
        !succeeded && attempt + 1 >= WRITE_ATTEMPTS ==> r == WriteStep::GiveUp,
{
    if succeeded {
        WriteStep::Done
    } else if attempt >= WRITE_ATTEMPTS - 1 {
        WriteStep::GiveUp
    } else if attempt == 0 {
        WriteStep::RetryAfter(50)
    } else if attempt == 1 {
        WriteStep::RetryAfter(100)
    } else {
        WriteStep::RetryAfter(200)
    }
}

/// The greeting for `name`.
pub open spec fn greeting(name: Seq<char>) -> Seq<char> {
    "Hello, "@ + name + "! You've been greeted from Rust!"@
}

/// Greets the user by name.
pub fn greet(name: &str) -> (r: String)
    ensures
        r@ == greeting(name@),
{
    let r = String::from_str("Hello, ").concat(name).concat("! You've been greeted from Rust!");
    r
}

/// Renders markdown for display; no note and no log entry is involved.
pub fn parse_markdown(txt: &str) -> (r: String)
    ensures
        r@ == rendered(txt@),
{
    render(txt)
}

pub open spec fn is_digit(c: char) -> bool {
    '0' <= c && c <= '9'
}

pub open spec fn digit_value(c: char) -> nat {
    (c as u32 - '0' as u32) as nat
}

/// The number that a string of decimal digits denotes.
pub open spec fn decimal_value(s: Seq<char>) -> nat
    decreases s.len(),
{
    if s.len() == 0 {
        0
    } else {
        decimal_value(s.drop_last()) * 10 + digit_value(s.last())
    }
}

/// A well-formed note identifier: decimal digits, at least one, whose value
/// fits in 64 bits.
pub open spec fn is_id_text(s: Seq<char>) -> bool {
    &&& s.len() > 0
    &&& forall|i: int| 0 <= i < s.len() ==> is_digit(#[trigger] s[i])
    &&& decimal_value(s) <= u64::MAX
}

proof fn lemma_prefix_value_le(s: Seq<char>, k: int)
    requires
        0 <= k <= s.len(),
    ensures
        decimal_value(s.take(k)) <= decimal_value(s),
    decreases s.len() - k,
{
    if k < s.len() {
        lemma_prefix_value_le(s, k + 1);
        assert(s.take(k + 1).drop_last() =~= s.take(k));
    } else {
        assert(s.take(k) =~= s);
    }
}

/// Reads a note identifier written in decimal.
pub fn parse_id(s: &str) -> (r: Result<u64, ErrorKind>)
    ensures
        r is Ok <==> is_id_text(s@),
        r matches Ok(v) ==> v == decimal_value(s@),
        r matches Err(e) ==> e == ErrorKind::InvalidInput,
{
    let n = s.unicode_len();
    if n == 0 {
        return Err(ErrorKind::InvalidInput);
    }
    let mut v: u64 = 0;
    let mut i: usize = 0;
    while i < n
        invariant
            i <= n,
            n == s@.len(),
            forall|k: int| 0 <= k < i ==> is_digit(#[trigger] s@[k]),
            v == decimal_value(s@.take(i as int)),
        decreases n - i,
    {
        let c = s.get_char(i);
        if !('0' <= c && c <= '9') {
            return Err(ErrorKind::InvalidInput);
        }
        let d: u64 = (c as u32 - '0' as u32) as u64;
        proof {
            assert(s@.take(i + 1).drop_last() =~= s@.take(i as int));
        }
        if v > (u64::MAX - d) / 10 {
            proof {
                let x = (u64::MAX - d) / 10;
                assert(v * 10 + d > u64::MAX) by (nonlinear_arith)
                    requires
                        v > x,
                        x == (u64::MAX - d) / 10,
                        d <= 9,
                ;
                lemma_prefix_value_le(s@, i + 1);
            }
            return Err(ErrorKind::InvalidInput);
        }
        proof {
            assert(v * 10 + d <= u64::MAX) by (nonlinear_arith)
                requires
                    v <= (u64::MAX - d) / 10,
                    d <= 9,
            ;
        }
        v = v * 10 + d;
        i = i + 1;
    }
    proof {
        assert(s@.take(n as int) =~= s@);
    }
    Ok(v)
}

/// The identifier that a request names, read as a number.
pub open spec fn requested_id(id: Option<String>) -> Option<u64> {
    match id {
        Some(t) => Some(decimal_value(t@) as u64),
        None => None,
    }
}

/// A request to save is well formed: its title is not empty and its
/// identifier, if any, is well formed.
pub open spec fn valid_save(id: Option<String>, title: Seq<char>) -> bool {
    &&& title.len() > 0
    &&& id matches Some(t) ==> is_id_text(t@)
}

/// One line of the note list.
#[derive(Clone, Debug, PartialEq, Eq)]
pub struct NoteSummary {
    pub id: u64,
    pub title: String,
    pub updated_at: u64,
}

/// The boundary between a UI shell and the engine: validates requests and
/// routes them to the note store or the renderer.
pub struct Dispatcher {
    store: NoteStore,
}

impl Dispatcher {
    /// The note store behind the dispatcher.
    pub closed spec fn notes(&self) -> NoteStore {
        self.store
    }

    pub open spec fn wf(&self) -> bool {
        self.notes().wf()
    }

    /// A dispatcher over an empty store.
    pub fn new() -> (r: Dispatcher)
        ensures
            r.wf(),
            r.notes().model() == empty_model(),
    {
        Dispatcher { store: NoteStore::new() }
    }

    /// Starts up from a change log by replaying it.
    pub fn init(log: &Vec<ChangeRecord>) -> (r: Result<Dispatcher, ErrorKind>)
        ensures
            match replay_model(records_view(log@)) {
                Some(m) => r matches Ok(d) && d.wf() && d.notes().model() == m
                    && d.notes().log_view() == records_view(log@),
                None => r == Err::<Dispatcher, ErrorKind>(ErrorKind::LogCorrupt),
            },
    {
        match NoteStore::replay(log) {
            Ok(store) => Ok(Dispatcher { store }),
            Err(e) => Err(e),
        }
    }

    /// Starts up from the bytes of a persisted log. A damaged frame, or
    /// records that do not replay, give `LogCorrupt`: nothing is repaired.
    pub fn restore(bytes: &Vec<u8>) -> (r: Result<Dispatcher, ErrorKind>)
        ensures
            ({
                let (rs, intact) = dec_log_from(bytes@, 0);
                if intact && replay_model(rs) is Some {
                    r matches Ok(d) && d.wf() && d.notes().model() == replay_model(rs)->0
                        && d.notes().log_view() == rs
                } else {
                    r == Err::<Dispatcher, ErrorKind>(ErrorKind::LogCorrupt)
                }
            }),
    {
        let (records, intact) = decode_log(bytes);
        if !intact {
            return Err(ErrorKind::LogCorrupt);
        }
        Dispatcher::init(&records)
    }

    /// The change log to persist.
    pub fn log(&self) -> (r: &Vec<ChangeRecord>)
        ensures
            records_view(r@) == self.notes().log_view(),
    {
        self.store.log()
    }

    /// Saves a note: creates one when `id` is `None`, else updates note `id`.
    /// A malformed identifier or an empty title is refused before anything
    /// changes.
    pub fn save_note(&mut self, id: Option<String>, title: String, body: String) -> (r: Result<
        Note,
        ErrorKind,
    >)
        requires
            old(self).wf(),
        ensures
            final(self).wf(),
            !valid_save(id, title@) ==> r == Err::<Note, ErrorKind>(ErrorKind::InvalidInput)
                && *final(self) == *old(self),
            valid_save(id, title@) ==> save_outcome(
                old(self).notes(),
                final(self).notes(),
                requested_id(id),
                title@,
                body@,
                r,
            ),
    {
        let nid = match &id {
            Some(t) => match parse_id(t.as_str()) {
                Ok(v) => Some(v),
                Err(e) => {
                    return Err(e);
                },
            },
            None => None,
        };
        if title.as_str().unicode_len() == 0 {
            return Err(ErrorKind::InvalidInput);
        }
        self.store.create_or_update(nid, title, body)
    }

    /// Deletes note `id`; deleting a note that is not live succeeds and
    /// changes nothing.
    pub fn delete_note(&mut self, id: &str) -> (r: Result<(), ErrorKind>)
        requires
            old(self).wf(),
        ensures
            final(self).wf(),
            !is_id_text(id@) ==> r == Err::<(), ErrorKind>(ErrorKind::InvalidInput) && *final(self)
                == *old(self),
            is_id_text(id@) ==> delete_outcome(
                old(self).notes(),
                final(self).notes(),
                decimal_value(id@) as u64,
                r,
            ),
    {
        let nid = parse_id(id)?;
        self.store.delete(nid)
    }

    /// The live note `id`.
    pub fn get_note(&self, id: &str) -> (r: Result<Note, ErrorKind>)
        requires
            self.wf(),
        ensures
            !is_id_text(id@) ==> r == Err::<Note, ErrorKind>(ErrorKind::InvalidInput),
            is_id_text(id@) ==> {
                let m = self.notes().model();
                let i = decimal_value(id@) as u64;
                &&& r is Ok <==> crate::store::has_live(m.live, i)
                &&& r matches Ok(n) ==> n@ == m.live[crate::store::live_pos(m.live, i)]
                &&& r matches Err(e) ==> e == ErrorKind::NotFound
            },
    {
        let nid = parse_id(id)?;
        self.store.get(nid)
    }

    /// Summaries of the live notes, most recently modified first.
    pub fn list_notes(&self) -> (r: Vec<NoteSummary>)
        requires
            self.wf(),
        ensures
            r@.len() == self.notes().model().live.len(),
            forall|i: int, j: int|
                0 <= i < j < r@.len() ==> #[trigger] r@[i].updated_at > #[trigger] r@[j].updated_at,
            forall|k: int|
                0 <= k < r@.len() ==> {
                    let n = #[trigger] self.notes().model().live[k];
                    &&& r@[k].id == n.id
                    &&& r@[k].title@ == n.title
                    &&& r@[k].updated_at == n.updated_at
                },
    {
        proof {
            self.store.lemma_wf();
        }
        let notes = self.store.list();
        let ghost live = self.notes().model().live;
        let mut out: Vec<NoteSummary> = Vec::new();
        let mut i: usize = 0;
        while i < notes.len()
            invariant
                i <= notes@.len(),
                notes@.len() == live.len(),
                forall|k: int| 0 <= k < notes@.len() ==> (#[trigger] notes@[k])@ == live[k],
                out@.len() == i,
                crate::store::sorted_by_recency(live),
                forall|k: int|
                    0 <= k < i ==> {
                        let n = #[trigger] live[k];
                        &&& out@[k].id == n.id
                        &&& out@[k].title@ == n.title
                        &&& out@[k].updated_at == n.updated_at
                    },
            decreases notes@.len() - i,
        {
            let n = &notes[i];
            out.push(NoteSummary { id: n.id, title: n.title.clone(), updated_at: n.updated_at });
            i = i + 1;
        }
        proof {
            assert forall|i: int, j: int| 0 <= i < j < out@.len() implies #[trigger] out@[i].updated_at
                > #[trigger] out@[j].updated_at by {
                assert(out@[i].updated_at == live[i].updated_at);
                assert(out@[j].updated_at == live[j].updated_at);
            }
        }
        out
    }
}

} // verus!
