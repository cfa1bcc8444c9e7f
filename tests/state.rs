use tasklog::config::Config;
use tasklog::state::State;

#[test]
fn sequential_ids_start_at_one_and_increase() {
    let mut s = State::new();
    assert_eq!(s.next_id("osv"), 1);
    assert_eq!(s.next_id("osv"), 2);
    assert_eq!(s.next_id("osv"), 3);
    assert_eq!(s.next_id("infra"), 1);
    assert_eq!(s.get("osv"), 3);
}

#[test]
fn sync_min_only_raises() {
    let mut s = State::new();
    s.sync_min("foo", 7);
    assert_eq!(s.get("foo"), 7);
    s.sync_min("foo", 3);
    assert_eq!(s.get("foo"), 7);
    assert_eq!(s.next_id("foo"), 8);
    s.sync_min("bar", 0);
    assert_eq!(s.get("bar"), 0);
    assert_eq!(s.entries().len(), 2);
}

#[test]
fn set_and_entries_round_trip() {
    let mut s = State::new();
    s.set("a", 5);
    s.set("b", 2);
    s.set("a", 9);
    let mut e = s.entries();
    e.sort();
    assert_eq!(e, vec![("a".to_string(), 9), ("b".to_string(), 2)]);
    assert_eq!(s.get("zzz"), 0);
}

#[test]
fn config_defaults() {
    let c = Config::with_log_path("/tmp/log.md");
    assert_eq!(c.log_path, "/tmp/log.md");
    assert_eq!(c.date_format, "DD/MM/YYYY");
    assert_eq!(c.note_indent, 6);
    assert_eq!(c.scan_window_lines, 5000);
    let d = Config::default();
    assert_eq!(d.log_path, "~/.config/tl/log.md");
    assert_eq!(d.note_indent, 6);
}

#[test]
fn default_state_is_empty() {
    let s = State::default();
    assert_eq!(s.get("any"), 0);
    assert!(s.entries().is_empty());
}
