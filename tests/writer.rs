use tasklog::error::TlError;
use tasklog::parser::{find_task, parse_log, today_str};
use tasklog::state::State;
use tasklog::writer::{
    add_note_now, add_note_with, add_task_now, add_task_with, complete_task_now,
    complete_task_with, ensure_section_for_date, ensure_today_section, init_log_content,
    validate_task,
};

const STAMP: &str = "02/01/2024 09:30AM";

#[test]
fn later_day_gets_new_header_and_next_number() {
    let log = "### 01/01/2024\n- [ ] osv-1 rotate keys\n";
    let mut state = State::new();
    let (id, doc) = add_task_with(log, "02/01/2024", "osv", "patch cve", &mut state, 5000).unwrap();
    assert_eq!(id, "osv-2");
    assert_eq!(
        doc,
        "### 01/01/2024\n- [ ] osv-1 rotate keys\n\n### 02/01/2024\n- [ ] osv-2 patch cve\n"
    );
    assert_eq!(state.get("osv"), 2);
}

#[test]
fn untracked_task_in_log_is_reconciled() {
    let log = "### 01/01/2024\n- [ ] foo-7 added by hand\n";
    let mut state = State::new();
    let (id, _) = add_task_with(log, "01/01/2024", "foo", "next", &mut state, 5000).unwrap();
    assert_eq!(id, "foo-8");
    assert_eq!(state.get("foo"), 8);
}

#[test]
fn counter_above_log_wins() {
    let log = "### 01/01/2024\n- [ ] foo-3 x\n";
    let mut state = State::new();
    state.set("foo", 10);
    let (id, doc) = add_task_with(log, "01/01/2024", "foo", "y", &mut state, 5000).unwrap();
    assert_eq!(id, "foo-11");
    assert_eq!(doc, "### 01/01/2024\n- [ ] foo-3 x\n- [ ] foo-11 y\n");
}

#[test]
fn sequential_additions_are_gapless() {
    let mut state = State::new();
    let mut log = "### 01/01/2024\n- [ ] foo-4 x\n".to_string();
    let mut numbers = Vec::new();
    for title in ["a", "b", "c", "d"] {
        let (id, doc) = add_task_with(&log, "01/01/2024", "foo", title, &mut state, 5000).unwrap();
        numbers.push(id);
        log = doc;
    }
    assert_eq!(numbers, vec!["foo-5", "foo-6", "foo-7", "foo-8"]);
    let secs = parse_log(&log, 5000);
    assert_eq!(secs[0].tasks.len(), 5);
}

#[test]
fn first_task_of_tag_is_one_and_empty_log_gets_header() {
    let mut state = State::new();
    let (id, doc) = add_task_with("", "05/05/2025", "new", "first", &mut state, 5000).unwrap();
    assert_eq!(id, "new-1");
    assert_eq!(doc, "### 05/05/2025\n- [ ] new-1 first\n");
}

#[test]
fn invalid_tag_is_rejected_and_state_kept() {
    let mut state = State::new();
    for tag in ["", "Osv", "os-v", "os v"] {
        match add_task_with("### d\n", "d", tag, "t", &mut state, 5000) {
            Err(TlError::Parse(msg)) => assert_eq!(msg, "tag must be lowercase alphanumeric"),
            other => panic!("expected a parse error, got {:?}", other.map(|x| x.0)),
        }
    }
    assert_eq!(state.entries().len(), 0);
}

#[test]
fn exhausted_counter_is_an_error() {
    let mut state = State::new();
    let log = "### d\n- [ ] big-18446744073709551615 last\n";
    match add_task_with(log, "d", "big", "t", &mut state, 5000) {
        Err(TlError::State(_)) => {}
        _ => panic!("expected a state error"),
    }
    assert_eq!(state.get("big"), 0);
}

#[test]
fn ensure_section_cases() {
    assert_eq!(ensure_section_for_date("", "d1"), "### d1\n");
    assert_eq!(ensure_section_for_date("### d1\n- [ ] a-1 t\n", "d1"), "### d1\n- [ ] a-1 t\n");
    assert_eq!(ensure_section_for_date("### d0\n- [ ] a-1 t", "d1"), "### d0\n- [ ] a-1 t\n\n### d1\n");
    assert_eq!(ensure_section_for_date("notes\n", "d1"), "notes\n\n### d1\n");
    let today = today_str();
    let out = ensure_today_section("### 01/01/2000\n");
    assert_eq!(out, format!("### 01/01/2000\n\n### {}\n", today));
}

#[test]
fn complete_checks_and_stamps_line() {
    let log = "### 01/01/2024\n- [ ] osv-1 rotate keys\n      - note\n";
    let doc = complete_task_with(log, "osv-1", STAMP, 5000).unwrap();
    assert_eq!(
        doc,
        "### 01/01/2024\n- [x] osv-1 rotate keys (02/01/2024 09:30AM)\n      - note\n"
    );
    let secs = parse_log(&doc, 5000);
    assert!(secs[0].tasks[0].done);
}

#[test]
fn complete_done_task_fails_and_changes_nothing() {
    let log = "### 01/01/2024\n- [x] osv-1 rotate keys (01/01/2024 10:00AM)\n";
    match complete_task_with(log, "osv-1", STAMP, 5000) {
        Err(TlError::Other(msg)) => assert_eq!(msg, "task osv-1 is already done"),
        _ => panic!("expected an error"),
    }
    let secs = parse_log(log, 5000);
    assert!(secs[0].tasks[0].done);
}

#[test]
fn complete_unknown_or_duplicate_id() {
    let log = "### d\n- [ ] a-1 x\n- [ ] a-1 y\n";
    match complete_task_with(log, "a-1", STAMP, 5000) {
        Err(TlError::DuplicateId(id)) => assert_eq!(id, "a-1"),
        _ => panic!("expected duplicate"),
    }
    match complete_task_with(log, "a-2", STAMP, 5000) {
        Err(TlError::TaskNotFound(id)) => assert_eq!(id, "a-2"),
        _ => panic!("expected not found"),
    }
}

#[test]
fn complete_now_stamps_with_local_time() {
    let doc = complete_task_now("### d\n- [ ] a-1 x\n", "a-1", 5000).unwrap();
    assert!(doc.starts_with("### d\n- [x] a-1 x ("));
    assert!(doc.ends_with(")\n"));
    assert_ne!(doc, "### d\n- [ ] a-1 x\n");
}

#[test]
fn notes_accumulate_in_insertion_order() {
    let log = "### d\n- [ ] a-1 x\n      - old\n- [ ] a-2 y\n";
    let one = add_note_with(log, "a-1", "first", STAMP, 6, 5000).unwrap();
    assert_eq!(
        one,
        "### d\n- [ ] a-1 x\n      - old\n      - [02/01/2024 09:30AM] first\n- [ ] a-2 y\n"
    );
    let two = add_note_with(&one, "a-1", "second", STAMP, 6, 5000).unwrap();
    let secs = parse_log(&two, 5000);
    let t = find_task(&secs, "a-1").unwrap();
    let texts: Vec<&str> = t.notes.iter().map(|n| n.text.as_str()).collect();
    assert_eq!(
        texts,
        vec!["old", "[02/01/2024 09:30AM] first", "[02/01/2024 09:30AM] second"]
    );
    assert_eq!(find_task(&secs, "a-2").unwrap().notes.len(), 0);
}

#[test]
fn note_on_task_without_notes_goes_right_after_it() {
    let log = "### d\n- [ ] a-1 x\n- [ ] a-2 y\n";
    let doc = add_note_with(log, "a-1", "hi", "s", 2, 5000).unwrap();
    assert_eq!(doc, "### d\n- [ ] a-1 x\n  - [s] hi\n- [ ] a-2 y\n");
    match add_note_with(log, "b-1", "hi", "s", 2, 5000) {
        Err(TlError::TaskNotFound(_)) => {}
        _ => panic!("expected not found"),
    }
}

#[test]
fn add_then_note_gives_one_note() {
    let mut state = State::new();
    let (id, doc) = add_task_with("### 01/01/2024\n", "01/01/2024", "osv", "t", &mut state, 5000).unwrap();
    let doc = add_note_with(&doc, &id, "looked into it", STAMP, 6, 5000).unwrap();
    let secs = parse_log(&doc, 5000);
    let t = find_task(&secs, &id).unwrap();
    assert_eq!(t.notes.len(), 1);
    assert_eq!(t.notes[0].text, "[02/01/2024 09:30AM] looked into it");
}

#[test]
fn add_now_and_note_now_use_the_clock() {
    let mut state = State::new();
    let today = today_str();
    let (id, doc) = add_task_now("", "x", "t", &mut state, 5000).unwrap();
    assert_eq!(id, "x-1");
    assert_eq!(doc, format!("### {}\n- [ ] x-1 t\n", today));
    let doc = add_note_now(&doc, "x-1", "n", 6, 5000).unwrap();
    let secs = parse_log(&doc, 5000);
    let t = find_task(&secs, "x-1").unwrap();
    assert_eq!(t.notes.len(), 1);
    assert!(t.notes[0].text.ends_with("] n"));
    assert!(t.notes[0].text.starts_with('['));
}

#[test]
fn init_content_cases() {
    assert_eq!(init_log_content(None, "d"), Some("### d\n".to_string()));
    assert_eq!(init_log_content(Some("  \n\n"), "d"), Some("### d\n".to_string()));
    assert_eq!(init_log_content(Some("### d\n- [ ] a-1 x\n"), "d"), None);
    assert_eq!(
        init_log_content(Some("### c\n- [ ] a-1 x\n"), "d"),
        Some("### c\n- [ ] a-1 x\n\n### d\n".to_string())
    );
}

#[test]
fn empty_title_is_rejected_and_state_kept() {
    let mut state = State::new();
    match add_task_with("### d\n", "d", "osv", "", &mut state, 5000) {
        Err(TlError::Other(msg)) => assert_eq!(msg, "title cannot be empty"),
        _ => panic!("expected an error"),
    }
    assert_eq!(state.get("osv"), 0);
    match validate_task("Bad", "") {
        Err(TlError::Parse(_)) => {}
        _ => panic!("a bad tag comes first"),
    }
    assert!(validate_task("osv", "x").is_ok());
}

#[test]
fn empty_note_text_is_rejected() {
    match add_note_with("### d\n- [ ] a-1 x\n", "a-1", "", STAMP, 6, 5000) {
        Err(TlError::Other(msg)) => assert_eq!(msg, "note text cannot be empty"),
        _ => panic!("expected an error"),
    }
}

#[test]
fn trailing_blank_line_is_kept() {
    let log = "### d\n- [ ] a-1 x\n\n";
    let done = complete_task_with(log, "a-1", STAMP, 5000).unwrap();
    assert_eq!(done, "### d\n- [x] a-1 x (02/01/2024 09:30AM)\n\n");
    let noted = add_note_with(log, "a-1", "n", "s", 2, 5000).unwrap();
    assert_eq!(noted, "### d\n- [ ] a-1 x\n  - [s] n\n\n");
}
