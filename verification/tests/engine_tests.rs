use kern_engine::check_health;
use kern_engine::container::Container;
use kern_engine::engine::{DecodeError, EditDelta, KernEngine};
use kern_engine::version::VersionVector;

fn empty_engine(replica: u64) -> KernEngine {
    KernEngine {
        replica,
        container: Container::new(),
        vv: VersionVector::new(),
        version: 0,
        log: Vec::new(),
        pending: Vec::new(),
    }
}

fn edit(line: usize, col: usize, insert: Option<&str>, delete: Option<usize>) -> EditDelta {
    EditDelta { line, col, insert: insert.map(|s| s.to_string()), delete }
}

#[test]
fn test_health_check() {
    assert_eq!(check_health(), "Kern Engine: Active (Rust/WASM)");
}

#[test]
fn test_engine_creation() {
    let engine = KernEngine::new(0);
    let content = engine.get_text();
    assert!(content.contains("Welcome to Kern"));
}

#[test]
fn set_text_replaces_content() {
    let mut e = KernEngine::new(1);
    e.set_text("hello");
    assert_eq!(e.get_text(), "hello");
    assert_eq!(e.get_version(), 1);
    e.set_text("world");
    assert_eq!(e.get_text(), "world");
    assert_eq!(e.get_version(), 2);
}

#[test]
fn scenario_insert_then_backspace() {
    let mut e = empty_engine(1);
    e.set_text("ab\ncd");
    let lines = e.apply_edit(&edit(0, 2, Some("X"), None));
    assert_eq!(e.get_text(), "abX\ncd");
    assert_eq!(lines, vec![0]);
    let lines = e.apply_edit(&edit(0, 3, None, Some(1)));
    assert_eq!(e.get_text(), "ab\ncd");
    assert_eq!(lines, vec![0]);
}

#[test]
fn clamped_delete_saturates_at_start() {
    let mut e = empty_engine(1);
    e.set_text("abcdefghij");
    e.apply_edit(&edit(0, 2, None, Some(5)));
    assert_eq!(e.get_text(), "cdefghij");
    assert_eq!(e.get_text().len(), 8);
}

#[test]
fn append_at_end_for_line_past_document() {
    let mut e = empty_engine(1);
    e.set_text("a\nb\nc");
    let lines = e.apply_edit(&edit(999, 0, Some("X"), None));
    assert_eq!(e.get_text(), "a\nb\ncX");
    assert_eq!(lines, vec![2, 999]);
}

#[test]
fn column_clamps_to_line_length() {
    let mut e = empty_engine(1);
    e.set_text("ab\ncd");
    e.apply_edit(&edit(0, 50, Some("!"), None));
    assert_eq!(e.get_text(), "ab!\ncd");
}

#[test]
fn newline_insert_reports_following_lines() {
    let mut e = empty_engine(1);
    e.set_text("ab\ncd");
    let lines = e.apply_edit(&edit(0, 1, Some("x\ny"), None));
    assert_eq!(e.get_text(), "ax\nyb\ncd");
    assert_eq!(lines, vec![0, 1, 2]);
}

#[test]
fn snapshot_round_trip_reconstructs_text() {
    let mut a = empty_engine(1);
    a.set_text("hello\nworld");
    let snap = a.export_snapshot();
    let mut b = empty_engine(2);
    let res = b.load_from_bytes(&snap);
    assert!(res.is_ok());
    assert_eq!(b.get_text(), "hello\nworld");
}

#[test]
fn import_is_idempotent() {
    let mut a = empty_engine(1);
    a.set_text("stable");
    let snap = a.export_snapshot();
    let before = a.get_text();
    let vv_before = a.vv.pairs.clone();
    a.load_from_bytes(&snap).unwrap();
    assert_eq!(a.get_text(), before);
    a.load_from_bytes(&snap).unwrap();
    assert_eq!(a.get_text(), before);
    for (r, s) in vv_before.iter() {
        assert!(a.vv.pairs.iter().any(|(r2, s2)| r2 == r && s2 == s));
    }
}

#[test]
fn concurrent_edits_converge() {
    let mut a = empty_engine(1);
    let mut b = empty_engine(2);
    a.apply_edit(&edit(0, 0, Some("abc"), None));
    b.apply_edit(&edit(0, 0, Some("xyz"), None));
    let sa = a.export_snapshot();
    let sb = b.export_snapshot();
    a.load_from_bytes(&sb).unwrap();
    b.load_from_bytes(&sa).unwrap();
    assert_eq!(a.get_text(), b.get_text());
    assert_eq!(a.get_text().len(), 6);
}

#[test]
fn convergence_is_order_independent() {
    let mut a = empty_engine(1);
    a.set_text("base");
    let s0 = a.export_snapshot();
    a.apply_edit(&edit(0, 4, Some("+one"), None));
    let s1 = a.export_snapshot();
    a.apply_edit(&edit(0, 8, Some("+two"), None));
    let s2 = a.export_snapshot();
    let mut fwd = empty_engine(7);
    fwd.load_from_bytes(&s0).unwrap();
    fwd.load_from_bytes(&s1).unwrap();
    fwd.load_from_bytes(&s2).unwrap();
    let mut rev = empty_engine(8);
    rev.load_from_bytes(&s2).unwrap();
    rev.load_from_bytes(&s1).unwrap();
    rev.load_from_bytes(&s0).unwrap();
    assert_eq!(fwd.get_text(), rev.get_text());
    assert_eq!(fwd.get_text(), "base+one+two");
}

#[test]
fn delta_never_larger_than_snapshot() {
    let mut a = empty_engine(1);
    a.set_text("some document");
    let reference = VersionVector { pairs: a.vv.pairs.clone() };
    a.apply_edit(&edit(0, 0, Some("!"), None));
    let snap = a.export_snapshot();
    let delta = a.export_delta(&reference);
    assert!(delta.len() <= snap.len());
    assert!(delta.len() < snap.len());
    let empty_ref = VersionVector::new();
    let full_delta = a.export_delta(&empty_ref);
    assert!(full_delta.len() <= snap.len());
}

#[test]
fn delta_carries_missing_operations() {
    let mut a = empty_engine(1);
    a.set_text("one");
    let snap0 = a.export_snapshot();
    let mut b = empty_engine(2);
    b.load_from_bytes(&snap0).unwrap();
    let reference = VersionVector { pairs: b.vv.pairs.clone() };
    a.apply_edit(&edit(0, 3, Some(" two"), None));
    let delta = a.export_delta(&reference);
    b.load_from_bytes(&delta).unwrap();
    assert_eq!(b.get_text(), "one two");
}

#[test]
fn export_updates_reconstructs_document() {
    let mut a = empty_engine(1);
    a.set_text("payload");
    let upd = a.export_updates();
    let mut b = empty_engine(2);
    b.load_from_bytes(&upd).unwrap();
    assert_eq!(b.get_text(), "payload");
}

#[test]
fn malformed_bytes_are_rejected_atomically() {
    let mut e = empty_engine(1);
    e.set_text("untouched");
    let before = e.get_text();
    let v_before = e.get_version();
    assert_eq!(e.load_from_bytes(&vec![1u8, 2, 3]), Err(DecodeError::Malformed));
    assert_eq!(e.load_from_bytes(&Vec::new()), Err(DecodeError::Malformed));
    let mut truncated = e.export_snapshot();
    truncated.pop();
    assert_eq!(e.load_from_bytes(&truncated), Err(DecodeError::Malformed));
    assert_eq!(e.get_text(), before);
    assert_eq!(e.get_version(), v_before);
}

#[test]
fn import_reports_all_lines() {
    let mut a = empty_engine(1);
    a.set_text("x\ny\nz");
    let snap = a.export_snapshot();
    let mut b = empty_engine(2);
    let lines = b.load_from_bytes(&snap).unwrap();
    assert_eq!(lines, vec![0, 1, 2]);
}

#[test]
fn view_projects_lines_with_ids() {
    let mut e = empty_engine(1);
    e.set_text("ab\ncd");
    let view = e.get_view();
    assert_eq!(view.version, e.get_version());
    assert_eq!(view.lines.len(), 2);
    assert_eq!(view.lines[0].id, "0");
    assert_eq!(view.lines[0].content, "ab");
    assert_eq!(view.lines[1].id, "1");
    assert_eq!(view.lines[1].content, "cd");
}

#[test]
fn view_of_empty_document_is_one_empty_line() {
    let e = empty_engine(1);
    let view = e.get_view();
    assert_eq!(view.lines.len(), 1);
    assert_eq!(view.lines[0].content, "");
    assert_eq!(view.lines[0].id, "0");
}

#[test]
fn unicode_text_survives_round_trip() {
    let mut a = empty_engine(1);
    a.set_text("héllo ✓ wörld");
    let snap = a.export_snapshot();
    let mut b = empty_engine(2);
    b.load_from_bytes(&snap).unwrap();
    assert_eq!(b.get_text(), "héllo ✓ wörld");
}

#[test]
fn delete_without_its_insert_is_buffered_until_it_arrives() {
    let mut a = empty_engine(1);
    a.set_text("ab");
    let base = a.export_snapshot();
    let reference = VersionVector { pairs: a.vv.pairs.clone() };
    a.apply_edit(&edit(0, 1, None, Some(1)));
    assert_eq!(a.get_text(), "b");
    let delete_only = a.export_delta(&reference);
    let mut c = empty_engine(3);
    c.load_from_bytes(&delete_only).unwrap();
    assert_eq!(c.get_text(), "");
    c.load_from_bytes(&base).unwrap();
    assert_eq!(c.get_text(), "b");
}

#[test]
fn deleting_across_a_separator_reports_removed_line() {
    let mut e = empty_engine(1);
    e.set_text("ab\ncd");
    let lines = e.apply_edit(&edit(1, 1, None, Some(2)));
    assert_eq!(e.get_text(), "abd");
    assert_eq!(lines, vec![0, 1]);
}

#[test]
fn version_counts_local_changes() {
    let mut e = empty_engine(1);
    assert_eq!(e.get_version(), 0);
    e.set_text("a");
    assert_eq!(e.get_version(), 1);
    e.apply_edit(&edit(0, 1, Some("b"), None));
    assert_eq!(e.get_version(), 2);
}
