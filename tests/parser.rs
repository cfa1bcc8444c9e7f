use tasklog::error::TlError;
use tasklog::parser::{
    any_contains, find_last_section, find_section_end, find_task, get_today_section_text,
    is_note_line, is_section_header, parse_log, parse_task_line, search_tasks,
    section_text_for_date, today_str, Note, Section, Task,
};

fn task(tag: &str, number: u64, title: &str) -> Task {
    Task {
        line_number: 0,
        indent: String::new(),
        done: false,
        tag: tag.to_string(),
        number,
        title: title.to_string(),
        notes: Vec::new(),
        date: String::new(),
    }
}

#[test]
fn header_gives_trimmed_date() {
    assert_eq!(is_section_header("### 01/01/2024"), Some("01/01/2024".to_string()));
    assert_eq!(is_section_header("###   02/01/2024  "), Some("02/01/2024".to_string()));
    assert_eq!(is_section_header("### "), None);
    assert_eq!(is_section_header("###01/01/2024"), None);
    assert_eq!(is_section_header(" ### 01/01/2024"), None);
    assert_eq!(is_section_header("### a\nb"), None);
}

#[test]
fn task_line_parts() {
    assert_eq!(
        parse_task_line("- [ ] osv-12 rotate keys"),
        Some((String::new(), false, "osv".to_string(), 12, "rotate keys".to_string()))
    );
    assert_eq!(
        parse_task_line("  - [x] a1-3 done thing (01/01/2024 10:00AM)"),
        Some((
            "  ".to_string(),
            true,
            "a1".to_string(),
            3,
            "done thing (01/01/2024 10:00AM)".to_string()
        ))
    );
}

#[test]
fn task_line_rejections() {
    assert_eq!(parse_task_line("- [ ] Osv-1 upper tag"), None);
    assert_eq!(parse_task_line("- [ ] 1osv-1 digit first"), None);
    assert_eq!(parse_task_line("- [ ] osv-1"), None);
    assert_eq!(parse_task_line("- [ ] osv-1 "), None);
    assert_eq!(parse_task_line("- [y] osv-1 title"), None);
    assert_eq!(parse_task_line("- [ ] osv- title"), None);
    assert_eq!(parse_task_line("- [ ] osv-1x title"), None);
    assert_eq!(parse_task_line("- [ ] osv-99999999999999999999 too big"), None);
    assert_eq!(
        parse_task_line("- [ ] osv-18446744073709551615 max"),
        Some((String::new(), false, "osv".to_string(), u64::MAX, "max".to_string()))
    );
}

#[test]
fn note_line_parts() {
    assert_eq!(
        is_note_line("      - [01/01/2024 10:00AM] called vendor"),
        Some(("      ".to_string(), "[01/01/2024 10:00AM] called vendor".to_string()))
    );
    assert_eq!(is_note_line("\t- x"), Some(("\t".to_string(), "x".to_string())));
    assert_eq!(is_note_line("- not indented"), None);
    assert_eq!(is_note_line("   - "), None);
    assert_eq!(is_note_line("   plain"), None);
}

#[test]
fn parse_sections_tasks_and_notes() {
    let log = "### 01/01/2024\n- [ ] osv-1 rotate keys\n      - first note\n\n      - second note\n- [x] infra-2 reboot\n### 02/01/2024\n- [ ] osv-3 patch\n";
    let secs = parse_log(log, 5000);
    assert_eq!(secs.len(), 2);
    assert_eq!(secs[0].tasks.len(), 2);
    let t = &secs[0].tasks[0];
    assert_eq!(t.id(), "osv-1");
    assert_eq!(t.line_number, 1);
    assert_eq!(t.date, "01/01/2024");
    assert!(!t.done);
    assert_eq!(t.notes.len(), 2);
    assert_eq!(t.notes[0].text, "first note");
    assert_eq!(t.notes[0].line_number, 2);
    assert_eq!(t.notes[1].text, "second note");
    assert_eq!(t.notes[1].line_number, 4);
    assert!(secs[0].tasks[1].done);
    assert_eq!(secs[0].tasks[1].id(), "infra-2");
    assert_eq!(secs[1].tasks.len(), 1);
    assert_eq!(secs[1].tasks[0].date, "02/01/2024");
    assert_eq!(secs[1].tasks[0].line_number, 7);
}

#[test]
fn prose_breaks_note_run() {
    let log = "### d\n- [ ] a-1 t\n      - kept\nsome prose\n      - orphan\n";
    let secs = parse_log(log, 5000);
    assert_eq!(secs[0].tasks.len(), 1);
    assert_eq!(secs[0].tasks[0].notes.len(), 1);
    assert_eq!(secs[0].tasks[0].notes[0].text, "kept");
}

#[test]
fn shallow_note_breaks_note_run() {
    let log = "### d\n  - [ ] a-1 t\n  - same depth\n      - too late\n";
    let secs = parse_log(log, 5000);
    assert_eq!(secs[0].tasks.len(), 1);
    assert_eq!(secs[0].tasks[0].notes.len(), 0);
}

#[test]
fn task_before_any_header_is_dropped() {
    let secs = parse_log("- [ ] a-1 stray\n### d\n- [ ] a-2 kept\n", 5000);
    assert_eq!(secs.len(), 1);
    assert_eq!(secs[0].tasks.len(), 1);
    assert_eq!(secs[0].tasks[0].number, 2);
}

#[test]
fn window_keeps_absolute_line_numbers() {
    let log = "### d\n- [ ] a-1 old\n### e\n- [ ] a-2 new\n";
    let secs = parse_log(log, 2);
    assert_eq!(secs.len(), 1);
    assert_eq!(secs[0].tasks[0].id(), "a-2");
    assert_eq!(secs[0].tasks[0].line_number, 3);
    assert_eq!(parse_log(log, 0).len(), 0);
    assert_eq!(parse_log("", 10).len(), 0);
}

#[test]
fn crlf_lines() {
    let secs = parse_log("### d\r\n- [ ] a-1 t\r\n", 10);
    assert_eq!(secs[0].tasks[0].title, "t");
    assert_eq!(secs[0].tasks[0].date, "d");
}

#[test]
fn task_id_formats_tag_and_number() {
    assert_eq!(task("osv", 12, "x").id(), "osv-12");
    assert_eq!(task("a", 0, "x").id(), "a-0");
    assert_eq!(task("b2", u64::MAX, "x").id(), "b2-18446744073709551615");
}

#[test]
fn find_task_found_missing_duplicate() {
    let secs = vec![
        Section { tasks: vec![task("osv", 1, "a"), task("osv", 2, "b")] },
        Section { tasks: vec![task("infra", 1, "c"), task("osv", 2, "d")] },
    ];
    assert_eq!(find_task(&secs, "infra-1").unwrap().title, "c");
    match find_task(&secs, "osv-9") {
        Err(TlError::TaskNotFound(id)) => assert_eq!(id, "osv-9"),
        _ => panic!("expected not found"),
    }
    match find_task(&secs, "osv-2") {
        Err(TlError::DuplicateId(id)) => assert_eq!(id, "osv-2"),
        _ => panic!("expected duplicate"),
    }
}

#[test]
fn last_section_and_its_end() {
    let log = "intro\n### 01/01/2024\n- [ ] a-1 t\n### 02/01/2024\n- [ ] a-2 u\n";
    assert_eq!(find_last_section(log), Some((3, "02/01/2024".to_string())));
    assert_eq!(find_last_section("no headers\n"), None);
    assert_eq!(find_section_end(log, 1), 3);
    assert_eq!(find_section_end(log, 3), 5);
    assert_eq!(find_section_end(log, 99), 5);
}

#[test]
fn section_text_takes_last_matching_header() {
    let log = "### 01/01/2024\n- [ ] a-1 t\n### 02/01/2024\n- [ ] a-2 u\n      - n\n### 01/01/2024\n- [ ] a-3 v\n";
    assert_eq!(
        section_text_for_date(log, "02/01/2024"),
        Some("### 02/01/2024\n- [ ] a-2 u\n      - n".to_string())
    );
    assert_eq!(
        section_text_for_date(log, "01/01/2024"),
        Some("### 01/01/2024\n- [ ] a-3 v".to_string())
    );
    assert_eq!(section_text_for_date(log, "03/01/2024"), None);
}

#[test]
fn today_section_uses_local_date() {
    let today = today_str();
    assert_eq!(today.len(), 10);
    let log = format!("### 01/01/2000\n- [ ] a-1 old\n### {}\n- [ ] a-2 new\n", today);
    assert_eq!(
        get_today_section_text(&log),
        Some(format!("### {}\n- [ ] a-2 new", today))
    );
    assert_eq!(get_today_section_text("### 01/01/2000\n"), None);
}

#[test]
fn any_contains_on_folded_fields() {
    let fields = vec!["rotate keys".to_string(), "osv".to_string(), "osv-1".to_string()];
    assert!(any_contains(&fields, "osv"));
    assert!(any_contains(&fields, "keys"));
    assert!(!any_contains(&fields, "OSV"));
    assert!(!any_contains(&fields, "infra"));
    assert!(any_contains(&fields, ""));
    assert!(!any_contains(&Vec::new(), ""));
}

#[test]
fn search_osv_over_mixed_tags() {
    let log = "### 01/01/2024\n- [ ] osv-1 rotate keys\n- [ ] infra-2 reboot hosts\n      - check OSV advisories\n- [ ] web-3 fix css\n- [ ] infra-4 Upgrade OSVault\n- [ ] web-5 nothing here\n";
    let secs = parse_log(log, 5000);
    let found = search_tasks(&secs, "osv");
    let ids: Vec<String> = found.iter().map(|t| t.id()).collect();
    assert_eq!(ids, vec!["osv-1", "infra-2", "infra-4"]);
    let upper = search_tasks(&secs, "OSV");
    assert_eq!(upper.len(), 3);
    let by_id = search_tasks(&secs, "WEB-3");
    assert_eq!(by_id.len(), 1);
    assert_eq!(by_id[0].title, "fix css");
    assert_eq!(search_tasks(&secs, "zzz").len(), 0);
}

#[test]
fn cloned_task_keeps_notes() {
    let mut t = task("a", 1, "x");
    t.notes.push(Note { line_number: 3, text: "n".to_string() });
    let c = t.clone();
    assert_eq!(c.notes.len(), 1);
    assert_eq!(c.notes[0].text, "n");
    assert_eq!(c.id(), "a-1");
}

#[test]
fn empty_query_returns_every_task() {
    let secs = parse_log("### d\n- [ ] a-1 x\n- [x] b-2 y\n", 5000);
    assert_eq!(search_tasks(&secs, "").len(), 2);
}
