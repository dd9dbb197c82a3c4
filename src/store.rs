use vstd::prelude::*;
use crate::note::{ChangeKind, ChangeRecord, ErrorKind, Note, NoteView, RecordView, notes_view, records_view};

verus! {

/// The state of a note store: the live notes, most recently modified first,
/// the tombstones of deleted notes, the next identifier and the logical clock.
pub struct StoreModel {
    pub live: Seq<NoteView>,
    pub tombstones: Seq<NoteView>,
    pub next_id: nat,
    pub clock: nat,
}

pub open spec fn empty_model() -> StoreModel {
    StoreModel { live: seq![], tombstones: seq![], next_id: 0, clock: 0 }
}

/// Whether a live note carries identifier `id`.
pub open spec fn has_live(live: Seq<NoteView>, id: u64) -> bool {
    exists|p: int| 0 <= p < live.len() && #[trigger] live[p].id == id
}

/// The position of the live note with identifier `id`.
pub open spec fn live_pos(live: Seq<NoteView>, id: u64) -> int {
    choose|p: int| 0 <= p < live.len() && #[trigger] live[p].id == id
}

/// The state after one change record, or `None` where the record does not fit
/// the state: its timestamp does not move the clock forward, a create does not
/// take the next identifier, or an update or delete names no live note.
pub open spec fn step(m: StoreModel, r: RecordView) -> Option<StoreModel> {
    if r.timestamp <= m.clock {
        None
    } else {
        match r.kind {
            ChangeKind::Create => {
                if r.note_id == m.next_id && m.next_id < u64::MAX {
                    let n = NoteView {
                        id: r.note_id,
                        title: r.after.title,
                        body: r.after.body,
                        created_at: r.timestamp,
                        updated_at: r.timestamp,
                        deleted: false,
                    };
                    Some(
                        StoreModel {
                            live: seq![n] + m.live,
                            next_id: m.next_id + 1,
                            clock: r.timestamp as nat,
                            ..m
                        },
                    )
                } else {
                    None
                }
            },
            ChangeKind::Update => {
                if has_live(m.live, r.note_id) {
                    let p = live_pos(m.live, r.note_id);
                    let n = NoteView {
                        title: r.after.title,
                        body: r.after.body,
                        updated_at: r.timestamp,
                        ..m.live[p]
                    };
                    Some(
                        StoreModel {
                            live: seq![n] + m.live.remove(p),
                            clock: r.timestamp as nat,
                            ..m
                        },
                    )
                } else {
                    None
                }
            },
            ChangeKind::Delete => {
                if has_live(m.live, r.note_id) {
                    let p = live_pos(m.live, r.note_id);
                    let n = NoteView { deleted: true, ..m.live[p] };
                    Some(
                        StoreModel {
                            live: m.live.remove(p),
                            tombstones: m.tombstones.push(n),
                            clock: r.timestamp as nat,
                            ..m
                        },
                    )
                } else {
                    None
                }
            },
        }
    }
}

/// The state that replaying `log` from the empty store produces, or `None`
/// where some record does not fit.
pub open spec fn replay_model(log: Seq<RecordView>) -> Option<StoreModel>
    decreases log.len(),
{
    if log.len() == 0 {
        Some(empty_model())
    } else {
        match replay_model(log.drop_last()) {
            Some(m) => step(m, log.last()),
            None => None,
        }
    }
}

/// Live notes ordered by strictly decreasing modification time.
pub open spec fn sorted_by_recency(live: Seq<NoteView>) -> bool {
    forall|i: int, j: int|
        0 <= i < j < live.len() ==> #[trigger] live[i].updated_at > #[trigger] live[j].updated_at
}

/// The invariant of every state that a log can produce.
pub open spec fn model_wf(m: StoreModel) -> bool {
    &&& sorted_by_recency(m.live)
    &&& forall|i: int, j: int|
        0 <= i < j < m.live.len() ==> #[trigger] m.live[i].id != #[trigger] m.live[j].id
    &&& forall|i: int|
        0 <= i < m.live.len() ==> {
            &&& (#[trigger] m.live[i]).id < m.next_id
            &&& m.live[i].updated_at <= m.clock
            &&& m.live[i].created_at <= m.live[i].updated_at
            &&& !m.live[i].deleted
        }
    &&& forall|i: int|
        0 <= i < m.tombstones.len() ==> (#[trigger] m.tombstones[i]).id < m.next_id
            && m.tombstones[i].deleted
    &&& m.next_id <= u64::MAX
    &&& m.clock <= u64::MAX
}

proof fn lemma_live_pos(live: Seq<NoteView>, id: u64)
    requires
        has_live(live, id),
    ensures
        0 <= live_pos(live, id) < live.len(),
        live[live_pos(live, id)].id == id,
{
}

proof fn lemma_step_wf(m: StoreModel, r: RecordView)
    requires
        model_wf(m),
        step(m, r) is Some,
    ensures
        model_wf(step(m, r)->0),
{
    let m2 = step(m, r)->0;
    match r.kind {
        ChangeKind::Create => {},
        _ => {
            lemma_live_pos(m.live, r.note_id);
            let p = live_pos(m.live, r.note_id);
            let rest = m.live.remove(p);
            assert forall|k: int| 0 <= k < rest.len() implies #[trigger] rest[k] == m.live[
                if k < p { k } else { k + 1 }
            ] by {}
            assert forall|i: int, j: int| 0 <= i < j < rest.len() implies #[trigger] rest[i].updated_at
                > #[trigger] rest[j].updated_at && rest[i].id != rest[j].id by {
                let a = if i < p { i } else { i + 1 };
                let b = if j < p { j } else { j + 1 };
                assert(rest[i] == m.live[a]);
                assert(rest[j] == m.live[b]);
            }
            assert forall|k: int| 0 <= k < rest.len() implies (#[trigger] rest[k]).id != r.note_id by {
                let a = if k < p { k } else { k + 1 };
                assert(rest[k] == m.live[a]);
            }
        },
    }
}

/// Every state that a log produces is well formed.
pub proof fn lemma_replay_wf(log: Seq<RecordView>)
    requires
        replay_model(log) is Some,
    ensures
        model_wf(replay_model(log)->0),
    decreases log.len(),
{
    if log.len() > 0 {
        lemma_replay_wf(log.drop_last());
        lemma_step_wf(replay_model(log.drop_last())->0, log.last());
    }
}

/// The timestamps of a log increase strictly.
pub open spec fn times_increasing(log: Seq<RecordView>) -> bool {
    forall|i: int, j: int|
        0 <= i < j < log.len() ==> #[trigger] log[i].timestamp < #[trigger] log[j].timestamp
}

/// A log that replays has strictly increasing timestamps, none past the
/// clock of the state it produces.
pub proof fn lemma_replay_times(log: Seq<RecordView>)
    requires
        replay_model(log) is Some,
    ensures
        times_increasing(log),
        forall|i: int| 0 <= i < log.len() ==> #[trigger] log[i].timestamp <= replay_model(log)->0.clock,
    decreases log.len(),
{
    if log.len() > 0 {
        let init = log.drop_last();
        lemma_replay_times(init);
        assert forall|i: int| 0 <= i < init.len() implies #[trigger] log[i] == init[i] by {}
        assert forall|i: int, j: int| 0 <= i < j < log.len() implies #[trigger] log[i].timestamp
            < #[trigger] log[j].timestamp by {
            if j < log.len() - 1 {
                assert(log[i] == init[i] && log[j] == init[j]);
            } else {
                assert(log[i] == init[i]);
            }
        }
        assert forall|i: int| 0 <= i < log.len() implies #[trigger] log[i].timestamp <= replay_model(
            log,
        )->0.clock by {
            if i < log.len() - 1 {
                assert(log[i] == init[i]);
            }
        }
    }
}

proof fn lemma_replay_push(log: Seq<RecordView>, r: RecordView)
    ensures
        replay_model(log.push(r)) == match replay_model(log) {
            Some(m) => step(m, r),
            None => None,
        },
{
    assert(log.push(r).drop_last() =~= log);
}

/// The note that a create installs at the front of the live notes.
pub open spec fn created_note(m: StoreModel, title: Seq<char>, body: Seq<char>) -> NoteView {
    NoteView {
        id: m.next_id as u64,
        title,
        body,
        created_at: (m.clock + 1) as u64,
        updated_at: (m.clock + 1) as u64,
        deleted: false,
    }
}

/// The note that an update of the live note `id` installs at the front.
pub open spec fn updated_note(m: StoreModel, id: u64, title: Seq<char>, body: Seq<char>) -> NoteView {
    NoteView { title, body, updated_at: (m.clock + 1) as u64, ..m.live[live_pos(m.live, id)] }
}

/// The state after deleting `id`: a live note moves to the tombstones and
/// the clock ticks; anything else leaves the state as it is.
pub open spec fn deleted_model(m: StoreModel, id: u64) -> StoreModel {
    if has_live(m.live, id) {
        let p = live_pos(m.live, id);
        StoreModel {
            live: m.live.remove(p),
            tombstones: m.tombstones.push(NoteView { deleted: true, ..m.live[p] }),
            clock: m.clock + 1,
            ..m
        }
    } else {
        m
    }
}

/// The log grew by exactly one record.
pub open spec fn appended_one(before: Seq<RecordView>, after: Seq<RecordView>) -> bool {
    after.len() == before.len() + 1 && after.drop_last() == before
}

/// What a save does: which outcome each input gets, and how the store
/// changes on success. On failure nothing changes.
pub open spec fn save_outcome(
    before: NoteStore,
    after: NoteStore,
    id: Option<u64>,
    title: Seq<char>,
    body: Seq<char>,
    r: Result<Note, ErrorKind>,
) -> bool {
    &&& match id {
        None => if before.model().next_id < u64::MAX && before.model().clock < u64::MAX {
            r is Ok
        } else {
            r == Err::<Note, ErrorKind>(ErrorKind::Internal)
        },
        Some(i) => if !has_live(before.model().live, i) {
            r == Err::<Note, ErrorKind>(ErrorKind::NotFound)
        } else if before.model().clock == u64::MAX {
            r == Err::<Note, ErrorKind>(ErrorKind::Internal)
        } else {
            r is Ok
        },
    }
    &&& r is Err ==> after == before
    &&& r matches Ok(n) ==> {
        let m = before.model();
        let m2 = after.model();
        &&& n@ == match id {
            None => created_note(m, title, body),
            Some(i) => updated_note(m, i, title, body),
        }
        &&& m2.live == match id {
            None => seq![n@] + m.live,
            Some(i) => seq![n@] + m.live.remove(live_pos(m.live, i)),
        }
        &&& m2.tombstones == m.tombstones
        &&& m2.next_id == if id is None { m.next_id + 1 } else { m.next_id }
        &&& m2.clock == m.clock + 1
        &&& (id is None <==> n.created_at == n.updated_at)
        &&& appended_one(before.log_view(), after.log_view())
        &&& after.log_view().last() == RecordView {
            note_id: n.id,
            kind: if id is None { ChangeKind::Create } else { ChangeKind::Update },
            before: match id {
                None => None,
                Some(i) => Some(m.live[live_pos(m.live, i)]),
            },
            after: n@,
            timestamp: (m.clock + 1) as u64,
        }
    }
}

/// What a delete does: a live note moves to the tombstones with one record
/// appended to the log; a note that is not live is left alone and the call
/// succeeds; only an exhausted clock fails, and then nothing changes.
pub open spec fn delete_outcome(
    before: NoteStore,
    after: NoteStore,
    id: u64,
    r: Result<(), ErrorKind>,
) -> bool {
    &&& (r is Err <==> has_live(before.model().live, id) && before.model().clock == u64::MAX)
    &&& r matches Err(e) ==> e == ErrorKind::Internal
    &&& r is Ok ==> after.model() == deleted_model(before.model(), id)
    &&& r is Ok ==> !has_live(after.model().live, id)
    &&& !has_live(before.model().live, id) ==> after == before
    &&& r is Ok && has_live(before.model().live, id) ==> {
        let m = before.model();
        let prev = m.live[live_pos(m.live, id)];
        &&& appended_one(before.log_view(), after.log_view())
        &&& after.log_view().last() == RecordView {
            note_id: id,
            kind: ChangeKind::Delete,
            before: Some(prev),
            after: NoteView { deleted: true, ..prev },
            timestamp: (m.clock + 1) as u64,
        }
    }
    &&& r is Err ==> after == before
}

proof fn lemma_replay_prefix_none(log: Seq<RecordView>, k: int)
    requires
        0 <= k <= log.len(),
        replay_model(log.take(k)) is None,
    ensures
        replay_model(log) is None,
    decreases log.len() - k,
{
    if k == log.len() {
        assert(log.take(k) =~= log);
    } else {
        assert(log.take(k + 1).drop_last() =~= log.take(k));
        lemma_replay_prefix_none(log, k + 1);
    }
}

/// A note store: the live notes, most recently modified first, the
/// tombstones, and the change log from which both are materialised.
pub struct NoteStore {
    live: Vec<Note>,
    tombstones: Vec<Note>,
    log: Vec<ChangeRecord>,
    next_id: u64,
    clock: u64,
}

impl NoteStore {
    pub closed spec fn model(&self) -> StoreModel {
        StoreModel {
            live: notes_view(self.live@),
            tombstones: notes_view(self.tombstones@),
            next_id: self.next_id as nat,
            clock: self.clock as nat,
        }
    }

    /// The change log, in order of appending.
    pub closed spec fn log_view(&self) -> Seq<RecordView> {
        records_view(self.log@)
    }

    /// The state is exactly what its log replays to.
    pub closed spec fn wf(&self) -> bool {
        replay_model(self.log_view()) == Some(self.model())
    }

    /// An empty store with an empty log.
    pub fn new() -> (r: NoteStore)
        ensures
            r.wf(),
            r.model() == empty_model(),
            r.log_view() == Seq::<RecordView>::empty(),
    {
        let r = NoteStore {
            live: Vec::new(),
            tombstones: Vec::new(),
            log: Vec::new(),
            next_id: 0,
            clock: 0,
        };
        assert(r.model().live =~= empty_model().live);
        assert(r.model().tombstones =~= empty_model().tombstones);
        assert(r.log_view() =~= Seq::<RecordView>::empty());
        r
    }

    /// A well-formed store is what its log replays to; its state meets the
    /// invariant of replayed states and its log's timestamps increase.
    pub proof fn lemma_wf(&self)
        requires
            self.wf(),
        ensures
            replay_model(self.log_view()) == Some(self.model()),
            model_wf(self.model()),
            times_increasing(self.log_view()),
    {
        lemma_replay_wf(self.log_view());
        lemma_replay_times(self.log_view());
    }

    /// The position of the live note with identifier `id`.
    fn find_live(&self, id: u64) -> (r: Option<usize>)
        requires
            self.wf(),
        ensures
            r is None <==> !has_live(self.model().live, id),
            r matches Some(p) ==> p < self.live@.len() && p as int == live_pos(self.model().live, id),
    {
        proof {
            self.lemma_wf();
        }
        let mut i: usize = 0;
        while i < self.live.len()
            invariant
                i <= self.live@.len(),
                model_wf(self.model()),
                forall|k: int| 0 <= k < i ==> self.live@[k].id != id,
            decreases self.live@.len() - i,
        {
            if self.live[i].id == id {
                proof {
                    let live = self.model().live;
                    assert(live[i as int].id == id);
                    lemma_live_pos(live, id);
                    let q = live_pos(live, id);
                    if q < i {
                        assert(live[q].id != live[i as int].id);
                    } else if q > i {
                        assert(live[i as int].id != live[q].id);
                    }
                }
                return Some(i);
            }
            i = i + 1;
        }
        proof {
            let live = self.model().live;
            assert forall|p: int| 0 <= p < live.len() implies #[trigger] live[p].id != id by {
                assert(live[p] == self.live@[p]@);
            }
        }
        None
    }

    /// The change log, in order of appending.
    pub fn log(&self) -> (r: &Vec<ChangeRecord>)
        ensures
            records_view(r@) == self.log_view(),
    {
        &self.log
    }

    /// Appends `rec` to the log and applies it to the notes, returning the
    /// record's position in the log. A record that does not fit the current
    /// state is refused and nothing changes.
    pub fn apply(&mut self, rec: ChangeRecord) -> (r: Result<usize, ErrorKind>)
        requires
            old(self).wf(),
        ensures
            final(self).wf(),
            match step(old(self).model(), rec@) {
                Some(m) => {
                    &&& r == Ok::<usize, ErrorKind>(old(self).log_view().len() as usize)
                    &&& final(self).model() == m
                    &&& final(self).log_view() == old(self).log_view().push(rec@)
                },
                None => r == Err::<usize, ErrorKind>(ErrorKind::LogCorrupt) && *final(self) == *old(self),
            },
    {
        proof {
            self.lemma_wf();
        }
        let ghost s0 = *self;
        if rec.timestamp <= self.clock {
            return Err(ErrorKind::LogCorrupt);
        }
        match rec.kind {
            ChangeKind::Create => {
                if rec.note_id != self.next_id || self.next_id == u64::MAX {
                    return Err(ErrorKind::LogCorrupt);
                }
                let n = Note {
                    id: rec.note_id,
                    title: rec.after.title.clone(),
                    body: rec.after.body.clone(),
                    created_at: rec.timestamp,
                    updated_at: rec.timestamp,
                    deleted: false,
                };
                self.live.insert(0, n);
                self.next_id = self.next_id + 1;
                proof {
                    assert(notes_view(self.live@) =~= seq![n@] + s0.model().live);
                }
            },
            ChangeKind::Update => {
                match self.find_live(rec.note_id) {
                    None => {
                        return Err(ErrorKind::LogCorrupt);
                    },
                    Some(p) => {
                        let prev = self.live.remove(p);
                        let n = Note {
                            id: prev.id,
                            title: rec.after.title.clone(),
                            body: rec.after.body.clone(),
                            created_at: prev.created_at,
                            updated_at: rec.timestamp,
                            deleted: false,
                        };
                        self.live.insert(0, n);
                        proof {
                            lemma_live_pos(s0.model().live, rec.note_id);
                            assert(notes_view(self.live@) =~= seq![n@] + s0.model().live.remove(
                                p as int,
                            ));
                        }
                    },
                }
            },
            ChangeKind::Delete => {
                match self.find_live(rec.note_id) {
                    None => {
                        return Err(ErrorKind::LogCorrupt);
                    },
                    Some(p) => {
                        let prev = self.live.remove(p);
                        let n = Note { deleted: true, ..prev };
                        self.tombstones.push(n);
                        proof {
                            lemma_live_pos(s0.model().live, rec.note_id);
                            assert(notes_view(self.live@) =~= s0.model().live.remove(p as int));
                            assert(notes_view(self.tombstones@) =~= s0.model().tombstones.push(
                                n@,
                            ));
                        }
                    },
                }
            },
        }
        self.clock = rec.timestamp;
        let ghost rv = rec@;
        let pos = self.log.len();
        self.log.push(rec);
        proof {
            lemma_replay_push(s0.log_view(), rv);
            assert(self.log_view() =~= s0.log_view().push(rv));
        }
        Ok(pos)
    }

    /// The live note with identifier `id`.
    pub fn get(&self, id: u64) -> (r: Result<Note, ErrorKind>)
        requires
            self.wf(),
        ensures
            r is Ok <==> has_live(self.model().live, id),
            r matches Ok(n) ==> n@ == self.model().live[live_pos(self.model().live, id)],
            r matches Err(e) ==> e == ErrorKind::NotFound,
    {
        match self.find_live(id) {
            Some(p) => Ok(self.live[p].copy()),
            None => Err(ErrorKind::NotFound),
        }
    }

    /// The live notes, most recently modified first; deleted notes are left out.
    pub fn list(&self) -> (r: Vec<Note>)
        requires
            self.wf(),
        ensures
            notes_view(r@) == self.model().live,
            sorted_by_recency(notes_view(r@)),
            forall|k: int| 0 <= k < r@.len() ==> !(#[trigger] r@[k]).deleted,
    {
        proof {
            self.lemma_wf();
        }
        let mut out: Vec<Note> = Vec::new();
        let mut i: usize = 0;
        while i < self.live.len()
            invariant
                i <= self.live@.len(),
                out@.len() == i,
                forall|k: int| 0 <= k < i ==> (#[trigger] out@[k])@ == self.live@[k]@,
            decreases self.live@.len() - i,
        {
            out.push(self.live[i].copy());
            i = i + 1;
        }
        proof {
            assert(notes_view(out@) =~= self.model().live);
            assert forall|k: int| 0 <= k < out@.len() implies !(#[trigger] out@[k]).deleted by {
                assert(out@[k]@ == self.model().live[k]);
            }
        }
        out
    }

    /// Creates a note when `id` is `None`, or replaces title and body of the
    /// live note `id`; either way the note moves to the front of the list and
    /// one record is appended to the log.
    pub fn create_or_update(&mut self, id: Option<u64>, title: String, body: String) -> (r: Result<
        Note,
        ErrorKind,
    >)
        requires
            old(self).wf(),
        ensures
            final(self).wf(),
            save_outcome(*old(self), *final(self), id, title@, body@, r),
    {
        proof {
            self.lemma_wf();
        }
        let ghost m = self.model();
        let rec = match id {
            None => {
                if self.next_id == u64::MAX || self.clock == u64::MAX {
                    return Err(ErrorKind::Internal);
                }
                let ts = self.clock + 1;
                let after = Note {
                    id: self.next_id,
                    title,
                    body,
                    created_at: ts,
                    updated_at: ts,
                    deleted: false,
                };
                ChangeRecord { note_id: self.next_id, kind: ChangeKind::Create, before: None, after, timestamp: ts }
            },
            Some(i) => {
                let p = match self.find_live(i) {
                    Some(p) => p,
                    None => {
                        return Err(ErrorKind::NotFound);
                    },
                };
                if self.clock == u64::MAX {
                    return Err(ErrorKind::Internal);
                }
                proof {
                    lemma_live_pos(m.live, i);
                }
                let ts = self.clock + 1;
                let prev = self.live[p].copy();
                let after = Note {
                    id: i,
                    title,
                    body,
                    created_at: prev.created_at,
                    updated_at: ts,
                    deleted: false,
                };
                ChangeRecord { note_id: i, kind: ChangeKind::Update, before: Some(prev), after, timestamp: ts }
            },
        };
        let ghost rv = rec@;
        let ghost log0 = self.log_view();
        let res = self.apply(rec);
        proof {
            assert(res is Ok);
            self.lemma_wf();
            assert(self.log_view().drop_last() =~= log0);
            assert(self.live@.len() == self.model().live.len());
            assert(self.model().live[0] == self.live@[0]@);
        }
        Ok(self.live[0].copy())
    }

    /// Moves the live note `id` to the tombstones, appending one record to the
    /// log. Deleting a note that is not live changes nothing and succeeds.
    pub fn delete(&mut self, id: u64) -> (r: Result<(), ErrorKind>)
        requires
            old(self).wf(),
        ensures
            final(self).wf(),
            delete_outcome(*old(self), *final(self), id, r),
    {
        proof {
            self.lemma_wf();
        }
        let ghost m = self.model();
        let p = match self.find_live(id) {
            Some(p) => p,
            None => {
                return Ok(());
            },
        };
        if self.clock == u64::MAX {
            return Err(ErrorKind::Internal);
        }
        proof {
            lemma_live_pos(m.live, id);
        }
        let prev = self.live[p].copy();
        let after = Note { deleted: true, ..prev.copy() };
        let rec = ChangeRecord {
            note_id: id,
            kind: ChangeKind::Delete,
            before: Some(prev),
            after,
            timestamp: self.clock + 1,
        };
        let ghost log0 = self.log_view();
        let res = self.apply(rec);
        proof {
            assert(res is Ok);
            self.lemma_wf();
            assert(self.log_view().drop_last() =~= log0);
            lemma_not_live_after_removal(m, id);
        }
        Ok(())
    }

    /// Rebuilds a store by applying `log` to the empty store, record by record.
    /// The first record that does not fit stops the replay with `LogCorrupt`.
    pub fn replay(log: &Vec<ChangeRecord>) -> (r: Result<NoteStore, ErrorKind>)
        ensures
            match replay_model(records_view(log@)) {
                Some(m) => r matches Ok(s) && s.wf() && s.model() == m && s.log_view() == records_view(
                    log@,
                ),
                None => r == Err::<NoteStore, ErrorKind>(ErrorKind::LogCorrupt),
            },
    {
        let ghost all = records_view(log@);
        let mut s = NoteStore::new();
        let mut i: usize = 0;
        while i < log.len()
            invariant
                i <= log@.len(),
                all == records_view(log@),
                s.wf(),
                s.log_view() == all.take(i as int),
            decreases log@.len() - i,
        {
            let ghost before = s.log_view();
            let res = s.apply(log[i].copy());
            proof {
                lemma_replay_push(before, all[i as int]);
                assert(all.take(i as int).push(all[i as int]) =~= all.take(i as int + 1));
            }
            if res.is_err() {
                proof {
                    lemma_replay_prefix_none(all, i as int + 1);
                }
                return Err(ErrorKind::LogCorrupt);
            }
            i = i + 1;
        }
        proof {
            assert(all.take(i as int) =~= all);
        }
        Ok(s)
    }
}

/// Replaying the log of a store from the empty state reconstructs it: two
/// well-formed stores with the same log hold the same live notes in the same
/// order, so their lists agree.
pub proof fn law_replay_matches_live(live: &NoteStore, rebuilt: &NoteStore)
    requires
        live.wf(),
        rebuilt.wf(),
        rebuilt.log_view() == live.log_view(),
    ensures
        rebuilt.model() == live.model(),
        rebuilt.model().live == live.model().live,
{
}

proof fn lemma_not_live_after_removal(m: StoreModel, id: u64)
    requires
        model_wf(m),
    ensures
        !has_live(deleted_model(m, id).live, id),
{
    if has_live(m.live, id) {
        lemma_live_pos(m.live, id);
        let q = live_pos(m.live, id);
        let live = deleted_model(m, id).live;
        if has_live(live, id) {
            let k = choose|k: int| 0 <= k < live.len() && #[trigger] live[k].id == id;
            let a = if k < q { k } else { k + 1 };
            assert(live[k] == m.live[a]);
            if a < q {
                assert(m.live[a].id != m.live[q].id);
            } else {
                assert(m.live[q].id != m.live[a].id);
            }
        }
    }
}

/// Deleting a note twice leaves the same state as deleting it once: the
/// second delete succeeds and changes nothing, log included.
pub proof fn law_delete_idempotent(
    s0: NoteStore,
    s1: NoteStore,
    s2: NoteStore,
    id: u64,
    r1: Result<(), ErrorKind>,
    r2: Result<(), ErrorKind>,
)
    requires
        s0.wf(),
        s1.wf(),
        delete_outcome(s0, s1, id, r1),
        r1 is Ok,
        delete_outcome(s1, s2, id, r2),
    ensures
        r2 is Ok,
        s2 == s1,
{
}

/// In the model, deleting twice is deleting once.
pub proof fn law_deleted_model_idempotent(m: StoreModel, id: u64)
    requires
        model_wf(m),
    ensures
        deleted_model(deleted_model(m, id), id) == deleted_model(m, id),
{
    lemma_not_live_after_removal(m, id);
}

/// A successful save is found again by its identifier with the title and
/// body it was given; its modification time equals its creation time exactly
/// when it was a create, so it is newer only after an update.
pub proof fn law_save_then_get(
    before: NoteStore,
    after: NoteStore,
    id: Option<u64>,
    title: Seq<char>,
    body: Seq<char>,
    r: Result<Note, ErrorKind>,
)
    requires
        before.wf(),
        after.wf(),
        save_outcome(before, after, id, title, body, r),
        r is Ok,
    ensures
        ({
            let n = r->Ok_0;
            let live = after.model().live;
            &&& has_live(live, n.id)
            &&& live[live_pos(live, n.id)] == n@
            &&& n@.title == title
            &&& n@.body == body
            &&& !n.deleted
            &&& (id is None <==> n.created_at == n.updated_at)
            &&& id matches Some(i) ==> n.id == i && n.updated_at > n.created_at
        }),
{
    let n = r->Ok_0;
    let m = after.model();
    after.lemma_wf();
    before.lemma_wf();
    assert(m.live[0] == n@);
    lemma_live_pos(m.live, n.id);
    let q = live_pos(m.live, n.id);
    if q > 0 {
        assert(m.live[0].id != m.live[q].id);
    }
    if let Some(i) = id {
        lemma_live_pos(before.model().live, i);
    }
}

/// A successful save puts its note at the front of the list, which stays
/// sorted by modification time, newest first.
pub proof fn law_save_leads_list(
    before: NoteStore,
    after: NoteStore,
    id: Option<u64>,
    title: Seq<char>,
    body: Seq<char>,
    r: Result<Note, ErrorKind>,
)
    requires
        before.wf(),
        after.wf(),
        save_outcome(before, after, id, title, body, r),
        r is Ok,
    ensures
        after.model().live[0] == (r->Ok_0)@,
        sorted_by_recency(after.model().live),
{
    after.lemma_wf();
}

/// A create takes an identifier that no note of the store, live or
/// deleted, carries.
pub proof fn law_created_id_fresh(
    before: NoteStore,
    after: NoteStore,
    title: Seq<char>,
    body: Seq<char>,
    r: Result<Note, ErrorKind>,
)
    requires
        before.wf(),
        save_outcome(before, after, None, title, body, r),
        r is Ok,
    ensures
        forall|i: int|
            0 <= i < before.model().live.len() ==> #[trigger] before.model().live[i].id != (r->Ok_0).id,
        forall|i: int|
            0 <= i < before.model().tombstones.len() ==> #[trigger] before.model().tombstones[i].id != (
            r->Ok_0).id,
{
    before.lemma_wf();
}

} // verus!
