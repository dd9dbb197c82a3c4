use notes_core::dispatch::{
    greet, message, next_write_step, parse_id, parse_markdown, Dispatcher, WriteStep,
};
use notes_core::note::{ChangeKind, ChangeRecord, ErrorKind, Note};
use notes_core::render::{render, sanitize_html, terminate_html};
use notes_core::store::NoteStore;

fn s(t: &str) -> String {
    t.to_string()
}

fn note(id: u64, title: &str, body: &str, ts: u64) -> Note {
    Note { id, title: s(title), body: s(body), created_at: ts, updated_at: ts, deleted: false }
}

#[test]
fn create_then_get_round_trips() {
    let mut st = NoteStore::new();
    let n = st.create_or_update(None, s("Title"), s("Body *md*")).unwrap();
    let g = st.get(n.id).unwrap();
    assert_eq!(g.title, "Title");
    assert_eq!(g.body, "Body *md*");
    assert_eq!(g.created_at, g.updated_at);
    let u = st.create_or_update(Some(n.id), s("New"), s("Other")).unwrap();
    let g2 = st.get(n.id).unwrap();
    assert_eq!(g2, u);
    assert_eq!(g2.title, "New");
    assert_eq!(g2.body, "Other");
    assert!(g2.updated_at > g2.created_at);
    assert_eq!(g2.created_at, g.created_at);
}

#[test]
fn delete_twice_same_as_once() {
    let mut st = NoteStore::new();
    let a = st.create_or_update(None, s("a"), s("")).unwrap();
    st.create_or_update(None, s("b"), s("")).unwrap();
    assert_eq!(st.delete(a.id), Ok(()));
    let list_once = st.list();
    let log_once = st.log().len();
    assert_eq!(st.delete(a.id), Ok(()));
    assert_eq!(st.list(), list_once);
    assert_eq!(st.log().len(), log_once);
    assert_eq!(st.get(a.id), Err(ErrorKind::NotFound));
}

#[test]
fn delete_unknown_is_not_an_error() {
    let mut st = NoteStore::new();
    assert_eq!(st.delete(7), Ok(()));
    assert_eq!(st.log().len(), 0);
}

#[test]
fn update_moves_note_to_front() {
    let mut st = NoteStore::new();
    let a = st.create_or_update(None, s("A"), s("")).unwrap();
    let b = st.create_or_update(None, s("B"), s("")).unwrap();
    let l = st.list();
    assert_eq!(l[0].id, b.id);
    assert_eq!(l[1].id, a.id);
    st.create_or_update(Some(a.id), s("A2"), s("")).unwrap();
    let l = st.list();
    assert_eq!(l.len(), 2);
    assert_eq!(l[0].id, a.id);
    assert_eq!(l[0].title, "A2");
    assert_eq!(l[1].id, b.id);
    assert!(l[0].updated_at > l[1].updated_at);
}

#[test]
fn list_excludes_deleted() {
    let mut st = NoteStore::new();
    let a = st.create_or_update(None, s("A"), s("")).unwrap();
    let b = st.create_or_update(None, s("B"), s("")).unwrap();
    st.delete(b.id).unwrap();
    let l = st.list();
    assert_eq!(l.len(), 1);
    assert_eq!(l[0].id, a.id);
}

#[test]
fn update_of_deleted_or_unknown_is_not_found() {
    let mut st = NoteStore::new();
    let a = st.create_or_update(None, s("A"), s("")).unwrap();
    st.delete(a.id).unwrap();
    assert_eq!(st.create_or_update(Some(a.id), s("x"), s("")), Err(ErrorKind::NotFound));
    assert_eq!(st.create_or_update(Some(99), s("x"), s("")), Err(ErrorKind::NotFound));
}

#[test]
fn replay_rebuilds_the_list() {
    let mut st = NoteStore::new();
    let a = st.create_or_update(None, s("A"), s("a")).unwrap();
    let b = st.create_or_update(None, s("B"), s("b")).unwrap();
    st.create_or_update(None, s("C"), s("c")).unwrap();
    st.create_or_update(Some(a.id), s("A2"), s("a2")).unwrap();
    st.delete(b.id).unwrap();
    let log = st.log().clone();
    assert_eq!(log.len(), 5);
    let rebuilt = NoteStore::replay(&log).unwrap();
    assert_eq!(rebuilt.list(), st.list());
    assert_eq!(rebuilt.log(), st.log());
}

#[test]
fn replay_refuses_a_record_that_does_not_fit() {
    let good = ChangeRecord {
        note_id: 0,
        kind: ChangeKind::Create,
        before: None,
        after: note(0, "x", "", 1),
        timestamp: 1,
    };
    let stale = ChangeRecord {
        note_id: 1,
        kind: ChangeKind::Create,
        before: None,
        after: note(1, "y", "", 1),
        timestamp: 1,
    };
    assert_eq!(NoteStore::replay(&vec![good.clone(), stale]).err(), Some(ErrorKind::LogCorrupt));
    let wrong_id = ChangeRecord { note_id: 5, ..good.clone() };
    assert_eq!(NoteStore::replay(&vec![wrong_id]).err(), Some(ErrorKind::LogCorrupt));
    let update_missing = ChangeRecord { kind: ChangeKind::Update, ..good.clone() };
    assert_eq!(NoteStore::replay(&vec![update_missing]).err(), Some(ErrorKind::LogCorrupt));
    assert!(NoteStore::replay(&vec![good]).is_ok());
}

#[test]
fn exhausted_clock_is_internal() {
    let rec = ChangeRecord {
        note_id: 0,
        kind: ChangeKind::Create,
        before: None,
        after: note(0, "x", "", u64::MAX),
        timestamp: u64::MAX,
    };
    let mut st = NoteStore::replay(&vec![rec]).unwrap();
    assert_eq!(st.create_or_update(None, s("y"), s("")), Err(ErrorKind::Internal));
    assert_eq!(st.create_or_update(Some(0), s("y"), s("")), Err(ErrorKind::Internal));
    assert_eq!(st.delete(0), Err(ErrorKind::Internal));
    assert_eq!(st.list().len(), 1);
    assert_eq!(st.log().len(), 1);
}

#[test]
fn render_is_deterministic() {
    let x = "# Title\n\nSome *text* and `code`.";
    assert_eq!(render(x), render(x));
}

#[test]
fn render_escapes_script_tags() {
    let out = render("<script>alert(1)</script>");
    assert!(!out.to_lowercase().contains("<script"));
    assert!(out.contains("&lt;script"));
}

#[test]
fn groceries_example() {
    let mut d = Dispatcher::new();
    let n = d.save_note(None, s("Groceries"), s("- milk\n- eggs")).unwrap();
    assert_eq!(n.title, "Groceries");
    assert_eq!(n.body, "- milk\n- eggs");
    assert_eq!(render("- milk\n- eggs"), "<ul>\n<li>milk</li>\n<li>eggs</li>\n</ul>\n");
    assert_eq!(parse_markdown("- milk\n- eggs"), "<ul>\n<li>milk</li>\n<li>eggs</li>\n</ul>\n");
}

#[test]
fn render_heading_exact() {
    assert_eq!(render("# Hi"), "<h1>Hi</h1>\n");
    assert_eq!(render(""), "");
}

#[test]
fn terminate_html_adds_line_ending_once() {
    assert_eq!(terminate_html(s("<p>a</p>")), "<p>a</p>\n");
    assert_eq!(terminate_html(s("<p>a</p>\n")), "<p>a</p>\n");
    assert_eq!(terminate_html(s("")), "");
}

#[test]
fn greet_formats_name() {
    assert_eq!(greet("Ada"), "Hello, Ada! You've been greeted from Rust!");
}

#[test]
fn parse_id_accepts_decimal() {
    assert_eq!(parse_id("0"), Ok(0));
    assert_eq!(parse_id("42"), Ok(42));
    assert_eq!(parse_id("18446744073709551615"), Ok(u64::MAX));
}

#[test]
fn parse_id_rejects_malformed() {
    assert_eq!(parse_id(""), Err(ErrorKind::InvalidInput));
    assert_eq!(parse_id("12a"), Err(ErrorKind::InvalidInput));
    assert_eq!(parse_id("-1"), Err(ErrorKind::InvalidInput));
    assert_eq!(parse_id("18446744073709551616"), Err(ErrorKind::InvalidInput));
}

#[test]
fn dispatcher_validates_before_mutating() {
    let mut d = Dispatcher::new();
    assert_eq!(d.save_note(None, s(""), s("body")), Err(ErrorKind::InvalidInput));
    assert_eq!(d.save_note(Some(s("x1")), s("t"), s("body")), Err(ErrorKind::InvalidInput));
    assert_eq!(d.delete_note("nope"), Err(ErrorKind::InvalidInput));
    assert_eq!(d.get_note(""), Err(ErrorKind::InvalidInput));
    assert_eq!(d.log().len(), 0);
    assert_eq!(d.list_notes().len(), 0);
}

#[test]
fn dispatcher_routes_to_store() {
    let mut d = Dispatcher::new();
    let a = d.save_note(None, s("A"), s("x")).unwrap();
    let b = d.save_note(None, s("B"), s("y")).unwrap();
    let id_a = a.id.to_string();
    d.save_note(Some(id_a.clone()), s("A2"), s("x2")).unwrap();
    let l = d.list_notes();
    assert_eq!(l.len(), 2);
    assert_eq!(l[0].id, a.id);
    assert_eq!(l[0].title, "A2");
    assert_eq!(l[1].id, b.id);
    assert_eq!(d.get_note(&id_a).unwrap().body, "x2");
    assert_eq!(d.delete_note(&b.id.to_string()), Ok(()));
    assert_eq!(d.get_note(&b.id.to_string()), Err(ErrorKind::NotFound));
    assert_eq!(d.save_note(Some(s("99")), s("t"), s("")), Err(ErrorKind::NotFound));
    let restarted = Dispatcher::init(d.log()).unwrap();
    assert_eq!(restarted.list_notes(), d.list_notes());
}

#[test]
fn apply_returns_log_positions() {
    let mut st = NoteStore::new();
    let first = ChangeRecord {
        note_id: 0,
        kind: ChangeKind::Create,
        before: None,
        after: note(0, "x", "body", 3),
        timestamp: 3,
    };
    let second = ChangeRecord {
        note_id: 0,
        kind: ChangeKind::Update,
        before: Some(note(0, "x", "body", 3)),
        after: note(0, "y", "new", 5),
        timestamp: 5,
    };
    assert_eq!(st.apply(first.clone()), Ok(0));
    assert_eq!(st.apply(second), Ok(1));
    assert_eq!(st.apply(first), Err(ErrorKind::LogCorrupt));
    assert_eq!(st.log().len(), 2);
    let n = st.get(0).unwrap();
    assert_eq!(n.title, "y");
    assert_eq!(n.body, "new");
    assert_eq!(n.created_at, 3);
    assert_eq!(n.updated_at, 5);
}

#[test]
fn sanitize_keeps_only_standard_tags() {
    assert_eq!(sanitize_html("<SCRIPT>x"), "&lt;SCRIPT>x");
    assert_eq!(sanitize_html("a<script<p>"), "a&lt;script<p>");
    assert_eq!(sanitize_html("<img src=x onerror=y>"), "<img src=x onerror=y>");
    assert_eq!(sanitize_html("<iframe src=x>"), "&lt;iframe src=x>");
    assert_eq!(sanitize_html("<p>ok</p>\n<h2>t</h2>"), "<p>ok</p>\n<h2>t</h2>");
    assert_eq!(sanitize_html("<blockquote>\n<hr />"), "<blockquote>\n<hr />");
    assert_eq!(sanitize_html("<h7>x</h7>"), "&lt;h7>x&lt;/h7>");
    assert_eq!(sanitize_html("<"), "&lt;");
    assert_eq!(sanitize_html(""), "");
}

#[test]
fn render_escapes_raw_html() {
    let out = render("<img src=x onerror=alert(1)>\n\n<iframe></iframe>");
    assert!(!out.contains("<img"));
    assert!(!out.contains("<iframe"));
    assert_eq!(render("![a](b.png)"), "<p><img src=\"b.png\" alt=\"a\" /></p>\n");
}

#[test]
fn write_retries_then_gives_up() {
    assert_eq!(next_write_step(0, true), WriteStep::Done);
    assert_eq!(next_write_step(0, false), WriteStep::RetryAfter(50));
    assert_eq!(next_write_step(1, false), WriteStep::RetryAfter(100));
    assert_eq!(next_write_step(2, false), WriteStep::GiveUp);
    assert_eq!(next_write_step(2, true), WriteStep::Done);
}

#[test]
fn each_error_has_its_message() {
    assert_eq!(message(ErrorKind::NotFound), "That note does not exist or was deleted.");
    assert_eq!(message(ErrorKind::Internal), "An internal error occurred.");
    assert!(message(ErrorKind::LogCorrupt).starts_with("The change log is damaged"));
    assert!(message(ErrorKind::InvalidInput).contains("malformed"));
    assert!(message(ErrorKind::IOFailure).contains("could not be read or written"));
}

#[test]
fn list_notes_newest_first() {
    let mut d = Dispatcher::new();
    for t in ["one", "two", "three"] {
        d.save_note(None, s(t), s("")).unwrap();
    }
    d.save_note(Some(s("0")), s("one again"), s("")).unwrap();
    let l = d.list_notes();
    let titles: Vec<&str> = l.iter().map(|n| n.title.as_str()).collect();
    assert_eq!(titles, vec!["one again", "three", "two"]);
    assert!(l.windows(2).all(|w| w[0].updated_at > w[1].updated_at));
}

#[test]
fn logged_records_carry_snapshots() {
    let mut st = NoteStore::new();
    let a = st.create_or_update(None, s("A"), s("x")).unwrap();
    st.create_or_update(Some(a.id), s("B"), s("y")).unwrap();
    st.delete(a.id).unwrap();
    let log = st.log();
    assert_eq!(log[0].kind, ChangeKind::Create);
    assert_eq!(log[0].before, None);
    assert_eq!(log[1].kind, ChangeKind::Update);
    assert_eq!(log[1].before.as_ref().unwrap().title, "A");
    assert_eq!(log[1].after.title, "B");
    assert_eq!(log[2].kind, ChangeKind::Delete);
    assert!(log[2].after.deleted);
    assert_eq!((log[0].timestamp, log[1].timestamp, log[2].timestamp), (1, 2, 3));
}
