use vstd::prelude::*;
use vstd::std_specs::iter::IteratorSpec;
use vstd::string::*;
use crate::note::{ChangeKind, ChangeRecord, Note, NoteView, RecordView, records_view};

verus! {

// The persisted change log is a sequence of frames. A frame is the length of
// one encoded record as a u64, then the record. Integers are little-endian;
// text is its length in characters as a u64, then each character's code as a
// u32.

pub open spec fn enc_u32(x: u32) -> Seq<u8> {
    seq![(x & 0xff) as u8, ((x >> 8) & 0xff) as u8, ((x >> 16) & 0xff) as u8, ((x >> 24) & 0xff) as u8]
}

pub open spec fn enc_u64(x: u64) -> Seq<u8> {
    enc_u32((x & 0xffff_ffff) as u32) + enc_u32((x >> 32) as u32)
}

/// The u32 stored little-endian at `p`.
pub open spec fn le32(b: Seq<u8>, p: int) -> u32 {
    (b[p] as u32) | ((b[p + 1] as u32) << 8) | ((b[p + 2] as u32) << 16) | ((b[p + 3] as u32) << 24)
}

/// The u64 stored little-endian at `p`.
pub open spec fn le64(b: Seq<u8>, p: int) -> u64 {
    (le32(b, p) as u64) | ((le32(b, p + 4) as u64) << 32)
}

pub open spec fn enc_chars(s: Seq<char>) -> Seq<u8>
    decreases s.len(),
{
    if s.len() == 0 {
        seq![]
    } else {
        enc_chars(s.drop_last()) + enc_u32(s.last() as u32)
    }
}

pub open spec fn enc_text(s: Seq<char>) -> Seq<u8> {
    enc_u64(s.len() as u64) + enc_chars(s)
}

pub open spec fn code_of(c: char) -> u32 {
    c as u32
}

/// Whether some character has code `x`.
pub open spec fn is_char_code(x: u32) -> bool {
    exists|c: char| #[trigger] code_of(c) == x
}

pub open spec fn char_of(x: u32) -> char {
    choose|c: char| #[trigger] code_of(c) == x
}

/// The `n` characters whose codes start at `q`, or `None` where a code is no
/// character.
pub open spec fn dec_chars(b: Seq<u8>, q: int, n: nat) -> Option<Seq<char>>
    decreases n,
{
    if n == 0 {
        Some(seq![])
    } else {
        match dec_chars(b, q, (n - 1) as nat) {
            Some(s) => {
                let x = le32(b, q + 4 * (n - 1));
                if is_char_code(x) {
                    Some(s.push(char_of(x)))
                } else {
                    None
                }
            },
            None => None,
        }
    }
}

/// The text stored at `p` and the position after it, or `None` where the
/// bytes end early or hold a code that is no character.
pub open spec fn dec_text(b: Seq<u8>, p: int) -> Option<(Seq<char>, int)> {
    if p + 8 > b.len() {
        None
    } else {
        let n = le64(b, p);
        if p + 8 + 4 * n > b.len() {
            None
        } else {
            match dec_chars(b, p + 8, n as nat) {
                Some(s) => Some((s, p + 8 + 4 * n)),
                None => None,
            }
        }
    }
}

proof fn lemma_code_injective(c: char, d: char)
    requires
        code_of(c) == code_of(d),
    ensures
        c == d,
{
}

proof fn lemma_le32_enc(x: u32)
    ensures
        le32(enc_u32(x), 0) == x,
{
    let b0 = (x & 0xff) as u8;
    let b1 = ((x >> 8) & 0xff) as u8;
    let b2 = ((x >> 16) & 0xff) as u8;
    let b3 = ((x >> 24) & 0xff) as u8;
    assert(((b0 as u32) | ((b1 as u32) << 8) | ((b2 as u32) << 16) | ((b3 as u32) << 24)) == x)
        by (bit_vector)
        requires
            b0 == (x & 0xff) as u8,
            b1 == ((x >> 8) & 0xff) as u8,
            b2 == ((x >> 16) & 0xff) as u8,
            b3 == ((x >> 24) & 0xff) as u8,
    ;
}

fn put_u32(out: &mut Vec<u8>, x: u32)
    ensures
        final(out)@ == old(out)@ + enc_u32(x),
{
    out.push((x & 0xff) as u8);
    out.push(((x >> 8) & 0xff) as u8);
    out.push(((x >> 16) & 0xff) as u8);
    out.push(((x >> 24) & 0xff) as u8);
    proof {
        assert(out@ =~= old(out)@ + enc_u32(x));
    }
}

fn put_u64(out: &mut Vec<u8>, x: u64)
    ensures
        final(out)@ == old(out)@ + enc_u64(x),
{
    put_u32(out, (x & 0xffff_ffff) as u32);
    put_u32(out, (x >> 32) as u32);
    proof {
        assert(out@ =~= old(out)@ + enc_u64(x));
    }
}

fn get_u32(b: &Vec<u8>, p: usize) -> (r: u32)
    requires
        p + 4 <= b@.len(),
    ensures
        r == le32(b@, p as int),
{
    let _len = b.len();
    (b[p] as u32) | ((b[p + 1] as u32) << 8) | ((b[p + 2] as u32) << 16) | ((b[p + 3] as u32) << 24)
}

fn get_u64(b: &Vec<u8>, p: usize) -> (r: u64)
    requires
        p + 8 <= b@.len(),
    ensures
        r == le64(b@, p as int),
{
    let _len = b.len();
    (get_u32(b, p) as u64) | ((get_u32(b, p + 4) as u64) << 32)
}

/// Relies on `char::from_u32`: the character with code `x`, if there is one.
#[verifier::external_body]
fn char_from_code(x: u32) -> (r: Option<char>)
    ensures
        r matches Some(c) ==> c as u32 == x,
        r is None ==> !is_char_code(x),
{
    char::from_u32(x)
}

/// Relies on `String::push`: appends one character.
#[verifier::external_body]
pub(crate) fn push_char(s: &mut String, c: char)
    ensures
        final(s)@ == old(s)@.push(c),
{
    s.push(c)
}

fn put_text(out: &mut Vec<u8>, s: &str)
    ensures
        final(out)@ == old(out)@ + enc_text(s@),
{
    broadcast use vstd::string::group_string_axioms;
    let n = s.unicode_len();
    put_u64(out, n as u64);
    let ghost base = out@;
    let mut it = s.chars();
    let ghost k: int = 0;
    loop
        invariant
            0 <= k <= s@.len(),
            n == s@.len(),
            base == old(out)@ + enc_u64(n as u64),
            it.remaining() == s@.subrange(k, s@.len() as int),
            out@ == base + enc_chars(s@.take(k)),
        ensures
            out@ == old(out)@ + enc_text(s@),
        decreases s@.len() - k,
    {
        match it.next() {
            Some(c) => {
                proof {
                    assert(s@.take(k + 1).drop_last() =~= s@.take(k));
                    assert(s@.take(k + 1).last() == c);
                }
                put_u32(out, c as u32);
                proof {
                    assert(out@ =~= base + enc_chars(s@.take(k + 1)));
                    k = k + 1;
                    assert(it.remaining() =~= s@.subrange(k, s@.len() as int));
                }
            },
            None => {
                proof {
                    assert(s@.take(k) =~= s@);
                    assert(out@ =~= old(out)@ + enc_text(s@));
                }
                break;
            },
        }
    }
}

proof fn lemma_dec_chars_none(b: Seq<u8>, q: int, k: nat, n: nat)
    requires
        k <= n,
        dec_chars(b, q, k) is None,
    ensures
        dec_chars(b, q, n) is None,
    decreases n - k,
{
    if k < n {
        lemma_dec_chars_none(b, q, k, (n - 1) as nat);
    }
}

fn get_text(b: &Vec<u8>, p: usize) -> (r: Option<(String, usize)>)
    ensures
        match dec_text(b@, p as int) {
            Some((s, e)) => r matches Some((t, f)) && t@ == s && f == e,
            None => r is None,
        },
{
    if b.len() < 8 || p > b.len() - 8 {
        return None;
    }
    let n = get_u64(b, p);
    if n > ((b.len() - 8 - p) / 4) as u64 {
        return None;
    }
    let _len = b.len();
    let start = p + 8;
    let mut t = String::new();
    let mut i: usize = 0;
    while i < n as usize
        invariant
            start == p + 8,
            n == le64(b@, p as int),
            start + 4 * n <= b@.len() <= usize::MAX,
            i <= n,
            dec_chars(b@, start as int, i as nat) == Some(t@),
        decreases n - i,
    {
        let code = get_u32(b, start + 4 * i);
        match char_from_code(code) {
            Some(c) => {
                proof {
                    assert(code_of(c) == code);
                    assert(code_of(char_of(code)) == code);
                    lemma_code_injective(char_of(code), c);
                }
                push_char(&mut t, c);
            },
            None => {
                proof {
                    lemma_dec_chars_none(b@, start as int, (i + 1) as nat, n as nat);
                }
                return None;
            },
        }
        i = i + 1;
    }
    Some((t, start + 4 * (n as usize)))
}

pub open spec fn flag(x: bool) -> u8 {
    if x {
        1
    } else {
        0
    }
}

pub open spec fn enc_note(n: NoteView) -> Seq<u8> {
    enc_u64(n.id) + enc_u64(n.created_at) + enc_u64(n.updated_at) + seq![flag(n.deleted)] + enc_text(
        n.title,
    ) + enc_text(n.body)
}

/// The note stored at `p` and the position after it.
pub open spec fn dec_note(b: Seq<u8>, p: int) -> Option<(NoteView, int)> {
    if p + 25 > b.len() || b[p + 24] > 1 {
        None
    } else {
        match dec_text(b, p + 25) {
            Some((title, q)) => match dec_text(b, q) {
                Some((body, e)) => Some(
                    (
                        NoteView {
                            id: le64(b, p),
                            title,
                            body,
                            created_at: le64(b, p + 8),
                            updated_at: le64(b, p + 16),
                            deleted: b[p + 24] == 1,
                        },
                        e,
                    ),
                ),
                None => None,
            },
            None => None,
        }
    }
}

pub open spec fn kind_code(k: ChangeKind) -> u8 {
    match k {
        ChangeKind::Create => 0,
        ChangeKind::Update => 1,
        ChangeKind::Delete => 2,
    }
}

pub open spec fn enc_before(before: Option<NoteView>) -> Seq<u8> {
    match before {
        Some(n) => seq![1u8] + enc_note(n),
        None => seq![0u8],
    }
}

pub open spec fn enc_record(r: RecordView) -> Seq<u8> {
    enc_u64(r.note_id) + enc_u64(r.timestamp) + seq![kind_code(r.kind)] + enc_before(r.before)
        + enc_note(r.after)
}

pub open spec fn kind_of(c: u8) -> ChangeKind {
    if c == 0 {
        ChangeKind::Create
    } else if c == 1 {
        ChangeKind::Update
    } else {
        ChangeKind::Delete
    }
}

/// The optional snapshot stored at `p` and the position after it.
pub open spec fn dec_before(b: Seq<u8>, p: int) -> Option<(Option<NoteView>, int)> {
    if p + 1 > b.len() || b[p] > 1 {
        None
    } else if b[p] == 0 {
        Some((None, p + 1))
    } else {
        match dec_note(b, p + 1) {
            Some((n, e)) => Some((Some(n), e)),
            None => None,
        }
    }
}

/// The record stored at `p` and the position after it.
pub open spec fn dec_record(b: Seq<u8>, p: int) -> Option<(RecordView, int)> {
    if p + 17 > b.len() || b[p + 16] > 2 {
        None
    } else {
        match dec_before(b, p + 17) {
            Some((before, q)) => match dec_note(b, q) {
                Some((after, e)) => Some(
                    (
                        RecordView {
                            note_id: le64(b, p),
                            kind: kind_of(b[p + 16]),
                            before,
                            after,
                            timestamp: le64(b, p + 8),
                        },
                        e,
                    ),
                ),
                None => None,
            },
            None => None,
        }
    }
}

pub open spec fn enc_frame(r: RecordView) -> Seq<u8> {
    enc_u64(enc_record(r).len() as u64) + enc_record(r)
}

/// The bytes of a log: its records' frames, one after another.
pub open spec fn enc_log(rs: Seq<RecordView>) -> Seq<u8>
    decreases rs.len(),
{
    if rs.len() == 0 {
        seq![]
    } else {
        enc_log(rs.drop_last()) + enc_frame(rs.last())
    }
}

/// The record of the frame at `p` and the position after the frame, or
/// `None` where the frame is cut short or does not hold exactly one record.
pub open spec fn frame_at(b: Seq<u8>, p: int) -> Option<(RecordView, int)> {
    if p + 8 > b.len() || p + 8 + le64(b, p) > b.len() {
        None
    } else {
        match dec_record(b, p + 8) {
            Some((r, q)) => if q == p + 8 + le64(b, p) {
                Some((r, q))
            } else {
                None
            },
            None => None,
        }
    }
}

/// The records of the frames from `p` on, and whether they reach the end of
/// the bytes; reading stops at the first frame that is cut short or damaged.
pub open spec fn dec_log_from(b: Seq<u8>, p: int) -> (Seq<RecordView>, bool)
    decreases b.len() - p,
{
    if p >= b.len() {
        (seq![], true)
    } else {
        match frame_at(b, p) {
            Some((r, e)) => if e > p {
                let rest = dec_log_from(b, e);
                (seq![r] + rest.0, rest.1)
            } else {
                (seq![], false)
            },
            None => (seq![], false),
        }
    }
}

fn put_note(out: &mut Vec<u8>, n: &Note)
    ensures
        final(out)@ == old(out)@ + enc_note(n@),
{
    put_u64(out, n.id);
    put_u64(out, n.created_at);
    put_u64(out, n.updated_at);
    out.push(if n.deleted { 1 } else { 0 });
    put_text(out, n.title.as_str());
    put_text(out, n.body.as_str());
    proof {
        assert(out@ =~= old(out)@ + enc_note(n@));
    }
}

fn get_note(b: &Vec<u8>, p: usize) -> (r: Option<(Note, usize)>)
    ensures
        match dec_note(b@, p as int) {
            Some((n, e)) => r matches Some((m, f)) && m@ == n && f == e,
            None => r is None,
        },
{
    if b.len() < 25 || p > b.len() - 25 || b[p + 24] > 1 {
        return None;
    }
    let (title, q) = match get_text(b, p + 25) {
        Some(x) => x,
        None => {
            return None;
        },
    };
    let (body, e) = match get_text(b, q) {
        Some(x) => x,
        None => {
            return None;
        },
    };
    let n = Note {
        id: get_u64(b, p),
        title,
        body,
        created_at: get_u64(b, p + 8),
        updated_at: get_u64(b, p + 16),
        deleted: b[p + 24] == 1,
    };
    Some((n, e))
}

fn put_record(out: &mut Vec<u8>, r: &ChangeRecord)
    ensures
        final(out)@ == old(out)@ + enc_record(r@),
{
    put_u64(out, r.note_id);
    put_u64(out, r.timestamp);
    out.push(
        match r.kind {
            ChangeKind::Create => 0,
            ChangeKind::Update => 1,
            ChangeKind::Delete => 2,
        },
    );
    let ghost mid = out@;
    match &r.before {
        Some(n) => {
            out.push(1);
            put_note(out, n);
            proof {
                assert(out@ =~= mid + enc_before(r@.before));
            }
        },
        None => {
            out.push(0);
            proof {
                assert(out@ =~= mid + enc_before(r@.before));
            }
        },
    }
    put_note(out, &r.after);
    proof {
        assert(out@ =~= old(out)@ + enc_record(r@));
    }
}

fn get_record(b: &Vec<u8>, p: usize) -> (r: Option<(ChangeRecord, usize)>)
    ensures
        match dec_record(b@, p as int) {
            Some((x, e)) => r matches Some((y, f)) && y@ == x && f == e,
            None => r is None,
        },
{
    if b.len() < 18 || p > b.len() - 18 || b[p + 16] > 2 || b[p + 17] > 1 {
        return None;
    }
    let kind = if b[p + 16] == 0 {
        ChangeKind::Create
    } else if b[p + 16] == 1 {
        ChangeKind::Update
    } else {
        ChangeKind::Delete
    };
    let (before, q) = if b[p + 17] == 0 {
        (None, p + 18)
    } else {
        match get_note(b, p + 18) {
            Some((n, e)) => (Some(n), e),
            None => {
                return None;
            },
        }
    };
    let (after, e) = match get_note(b, q) {
        Some(x) => x,
        None => {
            return None;
        },
    };
    let rec = ChangeRecord {
        note_id: get_u64(b, p),
        kind,
        before,
        after,
        timestamp: get_u64(b, p + 8),
    };
    Some((rec, e))
}

/// The frame that appends `rec` to a persisted log.
pub fn encode_frame(rec: &ChangeRecord) -> (r: Vec<u8>)
    ensures
        r@ == enc_frame(rec@),
{
    let mut body: Vec<u8> = Vec::new();
    put_record(&mut body, rec);
    let mut out: Vec<u8> = Vec::new();
    put_u64(&mut out, body.len() as u64);
    out.append(&mut body);
    out
}

/// The bytes of a whole log.
pub fn encode_log(log: &Vec<ChangeRecord>) -> (r: Vec<u8>)
    ensures
        r@ == enc_log(records_view(log@)),
{
    let ghost rs = records_view(log@);
    let mut out: Vec<u8> = Vec::new();
    let mut i: usize = 0;
    while i < log.len()
        invariant
            i <= log@.len(),
            rs == records_view(log@),
            out@ == enc_log(rs.take(i as int)),
        decreases log@.len() - i,
    {
        let mut frame = encode_frame(&log[i]);
        out.append(&mut frame);
        proof {
            assert(rs.take(i + 1).drop_last() =~= rs.take(i as int));
        }
        i = i + 1;
    }
    proof {
        assert(rs.take(i as int) =~= rs);
    }
    out
}

fn get_frame(b: &Vec<u8>, p: usize) -> (r: Option<(ChangeRecord, usize)>)
    ensures
        match frame_at(b@, p as int) {
            Some((x, e)) => r matches Some((y, f)) && y@ == x && f == e,
            None => r is None,
        },
{
    let n = b.len();
    if n < 8 || p > n - 8 {
        return None;
    }
    let len = get_u64(b, p);
    if len > (n - 8 - p) as u64 {
        return None;
    }
    let e = p + 8 + len as usize;
    match get_record(b, p + 8) {
        Some((rec, q)) => if q == e {
            Some((rec, q))
        } else {
            None
        },
        None => None,
    }
}

/// Reads a persisted log: the records of its frames in order, and whether
/// they reach the end of the bytes. A frame that is cut short or damaged ends
/// the reading there, and the flag is then false.
pub fn decode_log(b: &Vec<u8>) -> (r: (Vec<ChangeRecord>, bool))
    ensures
        records_view(r.0@) == dec_log_from(b@, 0).0,
        r.1 == dec_log_from(b@, 0).1,
{
    let mut out: Vec<ChangeRecord> = Vec::new();
    let mut p: usize = 0;
    let n = b.len();
    loop
        invariant
            n == b@.len(),
            p <= n,
            dec_log_from(b@, 0).0 == records_view(out@) + dec_log_from(b@, p as int).0,
            dec_log_from(b@, 0).1 == dec_log_from(b@, p as int).1,
        decreases n - p,
    {
        if p == n {
            proof {
                assert(records_view(out@) + seq![] =~= records_view(out@));
            }
            return (out, true);
        }
        match get_frame(b, p) {
            Some((rec, e)) => {
                if e <= p {
                    proof {
                        assert(records_view(out@) + seq![] =~= records_view(out@));
                    }
                    return (out, false);
                }
                let ghost before = out@;
                let ghost rv = rec@;
                out.push(rec);
                proof {
                    assert(records_view(out@) =~= records_view(before).push(rv));
                    assert(records_view(before) + dec_log_from(b@, p as int).0 =~= records_view(out@)
                        + dec_log_from(b@, e as int).0);
                }
                p = e;
            },
            None => {
                proof {
                    assert(records_view(out@) + seq![] =~= records_view(out@));
                }
                return (out, false);
            },
        }
    }
}

/// `s` stands in `b` at position `p`.
pub open spec fn stands_at(b: Seq<u8>, p: int, s: Seq<u8>) -> bool {
    0 <= p && p + s.len() <= b.len() && b.subrange(p, p + s.len()) == s
}

proof fn lemma_stands_split(b: Seq<u8>, p: int, s1: Seq<u8>, s2: Seq<u8>)
    requires
        stands_at(b, p, s1 + s2),
    ensures
        stands_at(b, p, s1),
        stands_at(b, p + s1.len(), s2),
{
    let s = s1 + s2;
    assert forall|i: int| 0 <= i < s.len() implies b[p + i] == #[trigger] s[i] by {
        assert(b.subrange(p, p + s.len())[i] == b[p + i]);
    }
    assert(b.subrange(p, p + s1.len()) =~= s1) by {
        assert forall|i: int| 0 <= i < s1.len() implies b.subrange(p, p + s1.len())[i] == s1[i] by {
            assert(s[i] == s1[i]);
        }
    }
    assert(b.subrange(p + s1.len(), p + s1.len() + s2.len()) =~= s2) by {
        assert forall|i: int| 0 <= i < s2.len() implies b.subrange(
            p + s1.len(),
            p + s1.len() + s2.len(),
        )[i] == s2[i] by {
            assert(s[s1.len() + i] == s2[i]);
        }
    }
}

proof fn lemma_le32_at(b: Seq<u8>, p: int, x: u32)
    requires
        stands_at(b, p, enc_u32(x)),
    ensures
        le32(b, p) == x,
{
    let s = enc_u32(x);
    assert(b[p] == b.subrange(p, p + 4)[0]);
    assert(b[p + 1] == b.subrange(p, p + 4)[1]);
    assert(b[p + 2] == b.subrange(p, p + 4)[2]);
    assert(b[p + 3] == b.subrange(p, p + 4)[3]);
    lemma_le32_enc(x);
}

proof fn lemma_le64_at(b: Seq<u8>, p: int, x: u64)
    requires
        stands_at(b, p, enc_u64(x)),
    ensures
        le64(b, p) == x,
{
    let lo = (x & 0xffff_ffff) as u32;
    let hi = (x >> 32) as u32;
    lemma_stands_split(b, p, enc_u32(lo), enc_u32(hi));
    lemma_le32_at(b, p, lo);
    lemma_le32_at(b, p + 4, hi);
    assert(((lo as u64) | ((hi as u64) << 32)) == x) by (bit_vector)
        requires
            lo == (x & 0xffff_ffff) as u32,
            hi == (x >> 32) as u32,
    ;
}

proof fn lemma_chars_len(s: Seq<char>)
    ensures
        enc_chars(s).len() == 4 * s.len(),
    decreases s.len(),
{
    if s.len() > 0 {
        lemma_chars_len(s.drop_last());
    }
}

proof fn lemma_chars_at(b: Seq<u8>, q: int, s: Seq<char>)
    requires
        stands_at(b, q, enc_chars(s)),
    ensures
        dec_chars(b, q, s.len()) == Some(s),
    decreases s.len(),
{
    lemma_chars_len(s);
    if s.len() > 0 {
        let t = s.drop_last();
        let c = s.last();
        lemma_chars_len(t);
        lemma_stands_split(b, q, enc_chars(t), enc_u32(c as u32));
        lemma_chars_at(b, q, t);
        lemma_le32_at(b, q + 4 * t.len(), c as u32);
        assert(code_of(c) == c as u32);
        assert(is_char_code(c as u32));
        let d = char_of(c as u32);
        assert(code_of(d) == c as u32);
        lemma_code_injective(d, c);
        assert(t.push(c) =~= s);
    }
}

proof fn lemma_text_at(b: Seq<u8>, p: int, s: Seq<char>)
    requires
        stands_at(b, p, enc_text(s)),
        s.len() <= u64::MAX,
    ensures
        dec_text(b, p) == Some((s, p + enc_text(s).len())),
{
    lemma_chars_len(s);
    lemma_stands_split(b, p, enc_u64(s.len() as u64), enc_chars(s));
    lemma_le64_at(b, p, s.len() as u64);
    lemma_chars_at(b, p + 8, s);
}

/// Every text in the note is short enough for its length to be written.
pub open spec fn note_fits(n: NoteView) -> bool {
    n.title.len() <= u64::MAX && n.body.len() <= u64::MAX
}

proof fn lemma_note_at(b: Seq<u8>, p: int, n: NoteView)
    requires
        stands_at(b, p, enc_note(n)),
        note_fits(n),
    ensures
        dec_note(b, p) == Some((n, p + enc_note(n).len())),
{
    let e1 = enc_u64(n.id);
    let e2 = enc_u64(n.created_at);
    let e3 = enc_u64(n.updated_at);
    let f = seq![flag(n.deleted)];
    let t = enc_text(n.title);
    let d = enc_text(n.body);
    lemma_stands_split(b, p, e1 + e2 + e3 + f + t, d);
    lemma_stands_split(b, p, e1 + e2 + e3 + f, t);
    lemma_stands_split(b, p, e1 + e2 + e3, f);
    lemma_stands_split(b, p, e1 + e2, e3);
    lemma_stands_split(b, p, e1, e2);
    lemma_le64_at(b, p, n.id);
    lemma_le64_at(b, p + 8, n.created_at);
    lemma_le64_at(b, p + 16, n.updated_at);
    assert(b[p + 24] == b.subrange(p + 24, p + 25)[0]);
    lemma_text_at(b, p + 25, n.title);
    lemma_text_at(b, p + 25 + t.len(), n.body);
}

/// The record's encoding is short enough for its length to be written.
pub open spec fn record_fits(r: RecordView) -> bool {
    enc_record(r).len() <= u64::MAX
}

proof fn lemma_record_fits(r: RecordView)
    requires
        record_fits(r),
    ensures
        note_fits(r.after),
        r.before matches Some(n) ==> note_fits(n),
{
    lemma_chars_len(r.after.title);
    lemma_chars_len(r.after.body);
    if let Some(n) = r.before {
        lemma_chars_len(n.title);
        lemma_chars_len(n.body);
    }
}

#[verifier::spinoff_prover]
#[verifier::rlimit(100)]
proof fn lemma_record_at(b: Seq<u8>, p: int, r: RecordView)
    requires
        stands_at(b, p, enc_record(r)),
        record_fits(r),
    ensures
        dec_record(b, p) == Some((r, p + enc_record(r).len())),
{
    lemma_record_fits(r);
    let e1 = enc_u64(r.note_id);
    let e2 = enc_u64(r.timestamp);
    let k = seq![kind_code(r.kind)];
    let bf = enc_before(r.before);
    let af = enc_note(r.after);
    lemma_stands_split(b, p, e1 + e2 + k + bf, af);
    lemma_stands_split(b, p, e1 + e2 + k, bf);
    lemma_stands_split(b, p, e1 + e2, k);
    lemma_stands_split(b, p, e1, e2);
    lemma_le64_at(b, p, r.note_id);
    lemma_le64_at(b, p + 8, r.timestamp);
    assert(b[p + 16] == b.subrange(p + 16, p + 17)[0]);
    match r.before {
        Some(n) => {
            lemma_stands_split(b, p + 17, seq![1u8], enc_note(n));
            assert(b[p + 17] == b.subrange(p + 17, p + 18)[0]);
            lemma_note_at(b, p + 18, n);
        },
        None => {
            assert(b[p + 17] == b.subrange(p + 17, p + 18)[0]);
        },
    }
    lemma_note_at(b, p + 17 + bf.len(), r.after);
}

proof fn lemma_log_front(r: RecordView, rs: Seq<RecordView>)
    ensures
        enc_log(seq![r] + rs) == enc_frame(r) + enc_log(rs),
    decreases rs.len(),
{
    if rs.len() == 0 {
        assert(seq![r] + rs =~= seq![r]);
        assert((seq![r] + rs).drop_last() =~= Seq::<RecordView>::empty());
        assert(enc_frame(r) + enc_log(rs) =~= enc_frame(r));
        assert(enc_log(seq![r]) =~= enc_log(Seq::<RecordView>::empty()) + enc_frame(r));
    } else {
        lemma_log_front(r, rs.drop_last());
        assert((seq![r] + rs).drop_last() =~= seq![r] + rs.drop_last());
        assert(enc_log(seq![r] + rs) =~= enc_frame(r) + enc_log(rs));
    }
}

#[verifier::spinoff_prover]
#[verifier::rlimit(100)]
proof fn lemma_log_at(b: Seq<u8>, p: int, rs: Seq<RecordView>)
    requires
        stands_at(b, p, enc_log(rs)),
        p + enc_log(rs).len() == b.len(),
        forall|i: int| 0 <= i < rs.len() ==> record_fits(#[trigger] rs[i]),
    ensures
        dec_log_from(b, p) == (rs, true),
    decreases rs.len(),
{
    if rs.len() == 0 {
    } else {
        let r = rs[0];
        let rest = rs.drop_first();
        assert(seq![r] + rest =~= rs);
        lemma_log_front(r, rest);
        assert(record_fits(rs[0]));
        let er = enc_record(r);
        lemma_stands_split(b, p, enc_frame(r), enc_log(rest));
        lemma_stands_split(b, p, enc_u64(er.len() as u64), er);
        lemma_le64_at(b, p, er.len() as u64);
        lemma_record_at(b, p + 8, r);
        assert forall|i: int| 0 <= i < rest.len() implies record_fits(#[trigger] rest[i]) by {
            assert(rest[i] == rs[i + 1]);
        }
        lemma_log_at(b, p + 8 + er.len(), rest);
        assert(seq![r] + rest =~= rs);
    }
}

/// Decoding the bytes of a log gives back its records, and reports that
/// they reach the end.
pub proof fn law_log_round_trip(rs: Seq<RecordView>)
    requires
        forall|i: int| 0 <= i < rs.len() ==> record_fits(#[trigger] rs[i]),
    ensures
        dec_log_from(enc_log(rs), 0) == (rs, true),
{
    let b = enc_log(rs);
    assert(b.subrange(0, b.len() as int) =~= b);
    lemma_log_at(b, 0, rs);
}

} // verus!
