use notes_core::codec::{decode_log, encode_frame, encode_log};
use notes_core::dispatch::Dispatcher;
use notes_core::note::{ChangeKind, ChangeRecord, ErrorKind, Note};
use notes_core::store::NoteStore;

fn sample_log() -> Vec<ChangeRecord> {
    let mut st = NoteStore::new();
    let a = st.create_or_update(None, "Grüße".to_string(), "- milk\n- eggs ☕".to_string()).unwrap();
    let b = st.create_or_update(None, "B".to_string(), String::new()).unwrap();
    st.create_or_update(Some(a.id), "A2".to_string(), "x".to_string()).unwrap();
    st.delete(b.id).unwrap();
    st.log().clone()
}

#[test]
fn log_bytes_round_trip() {
    let log = sample_log();
    let bytes = encode_log(&log);
    let (back, intact) = decode_log(&bytes);
    assert!(intact);
    assert_eq!(back, log);
}

#[test]
fn empty_log_encodes_to_nothing() {
    let bytes = encode_log(&Vec::new());
    assert!(bytes.is_empty());
    assert_eq!(decode_log(&bytes), (Vec::new(), true));
}

#[test]
fn frame_layout_is_exact() {
    let rec = ChangeRecord {
        note_id: 1,
        kind: ChangeKind::Delete,
        before: None,
        after: Note {
            id: 1,
            title: "A".to_string(),
            body: String::new(),
            created_at: 2,
            updated_at: 3,
            deleted: true,
        },
        timestamp: 4,
    };
    let f = encode_frame(&rec);
    // record header: 8 + 8 + 1 + 1; note: 8 * 3 + 1 + (8 + 4) + 8
    assert_eq!(f.len(), 8 + 18 + 45);
    assert_eq!(&f[0..8], &[63, 0, 0, 0, 0, 0, 0, 0]);
    assert_eq!(&f[8..16], &[1, 0, 0, 0, 0, 0, 0, 0]);
    assert_eq!(&f[16..24], &[4, 0, 0, 0, 0, 0, 0, 0]);
    assert_eq!(f[24], 2);
    assert_eq!(f[25], 0);
    assert_eq!(f[8 + 18 + 24], 1);
    assert_eq!(&f[8 + 18 + 33..8 + 18 + 37], &[65, 0, 0, 0]);
}

#[test]
fn truncated_log_keeps_whole_frames() {
    let log = sample_log();
    let bytes = encode_log(&log);
    let first = encode_frame(&log[0]).len();
    let cut = bytes[..first + 5].to_vec();
    let (back, intact) = decode_log(&cut);
    assert!(!intact);
    assert_eq!(back, vec![log[0].clone()]);
}

#[test]
fn damaged_frame_stops_reading() {
    let log = sample_log();
    let mut bytes = encode_log(&log);
    let first = encode_frame(&log[0]).len();
    // the kind byte of the second record
    bytes[first + 8 + 16] = 9;
    let (back, intact) = decode_log(&bytes);
    assert!(!intact);
    assert_eq!(back.len(), 1);
}

#[test]
fn invalid_character_code_is_damage() {
    let log = sample_log();
    let mut bytes = encode_log(&log[..1].to_vec());
    // first character of the title: a surrogate code
    let at = 8 + 18 + 25 + 8;
    bytes[at] = 0x00;
    bytes[at + 1] = 0xD8;
    bytes[at + 2] = 0;
    bytes[at + 3] = 0;
    assert_eq!(decode_log(&bytes), (Vec::new(), false));
}

#[test]
fn restore_rebuilds_dispatcher() {
    let mut d = Dispatcher::new();
    let a = d.save_note(None, "A".to_string(), "x".to_string()).unwrap();
    d.save_note(None, "B".to_string(), "y".to_string()).unwrap();
    d.save_note(Some(a.id.to_string()), "A2".to_string(), "z".to_string()).unwrap();
    let bytes = encode_log(d.log());
    let back = Dispatcher::restore(&bytes).unwrap();
    assert_eq!(back.list_notes(), d.list_notes());
    assert_eq!(back.log(), d.log());
}

#[test]
fn restore_of_damaged_log_is_log_corrupt() {
    let mut d = Dispatcher::new();
    d.save_note(None, "A".to_string(), "x".to_string()).unwrap();
    d.save_note(None, "B".to_string(), "y".to_string()).unwrap();
    let bytes = encode_log(d.log());
    let mut cut = bytes.clone();
    cut.truncate(bytes.len() - 1);
    assert_eq!(Dispatcher::restore(&cut).err(), Some(ErrorKind::LogCorrupt));
    let mut damaged = bytes.clone();
    damaged[8 + 16] = 7;
    assert_eq!(Dispatcher::restore(&damaged).err(), Some(ErrorKind::LogCorrupt));
    assert!(Dispatcher::restore(&Vec::new()).unwrap().list_notes().is_empty());
}
