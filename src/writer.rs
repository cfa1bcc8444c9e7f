//! The document edits behind each write operation: from the log's current
//! text (and the date or time stamp to use) to its next text.
use crate::error::TlError;
use crate::parse_facts::{
    checked, checked_tasks, lemma_check_line, lemma_append_task, lemma_append_task_note, lemma_filter_none, lemma_flat_all_at,
    lemma_insert_note, lemma_parse_ok, lemma_task_tag_chars, opened, task_at,
};
use crate::parser::{
    find_task, flat, has_id, header_spec, id_of, is_tag_char, last_header, last_header_of,
    last_line_of, lemma_digit_run_at, lemma_flat_next, lemma_flat_step, lemma_tag_run_at,
    lemma_ws_run_at, lemma_ws_run_le, lemma_ws_run_same, lemma_tag_run_same,
    lemma_digit_run_same, tag_run, digit_run, next_header, next_header_of, note_spec, parse_lines, parse_log, parse_spec,
    run_end, scan, sections_view, task_spec, tasks_with_id, today_str, is_date_char, width, window_start,
    with_note, ws_run, NoteView, Section, TaskParts, TaskView,
};
use crate::state::{counter, State};
use crate::text::{
    all_ws, chars_eq, chars_of, clean_line, dec_str, dec_value, digit_char, digit_value, is_blank,
    is_digit, is_ws, lemma_lines_of_render, lines_of, push_all, render, render_lines,
    split_lines, string_of, sub_vec, u64_to_dec, views,
};
use vstd::prelude::*;
use vstd::string::StringExecFns;

verus! {

/// The header line `### <date>`.
pub open spec fn header_line(date: Seq<char>) -> Seq<char> {
    seq!['#', '#', '#', ' '] + date
}

/// The log with a header for `today` at its end, unless its last header is
/// already dated `today`. A non-empty log gets a blank line before the new
/// header, after a line feed that ends its last line if it had none.
pub open spec fn ensure_spec(content: Seq<char>, today: Seq<char>) -> Seq<char> {
    let dated = match last_header(lines_of(content)) {
        Some(h) => h.1 == today,
        None => false,
    };
    if dated {
        content
    } else if content.len() == 0 {
        header_line(today).push('\n')
    } else if content.last() != '\n' {
        content.push('\n').push('\n') + header_line(today).push('\n')
    } else {
        content.push('\n') + header_line(today).push('\n')
    }
}

fn header_chars(date: &Vec<char>) -> (r: Vec<char>)
    ensures
        r@ == header_line(date@).push('\n'),
{
    let mut h: Vec<char> = Vec::new();
    h.push('#');
    h.push('#');
    h.push('#');
    h.push(' ');
    push_all(&mut h, date);
    h.push('\n');
    assert(h@ =~= header_line(date@).push('\n'));
    h
}

/// The log with a section for `today` at its end (see `ensure_spec`).
pub fn ensure_section_for_date(content: &str, today: &str) -> (r: String)
    ensures
        r@ == ensure_spec(content@, today@),
{
    let c = chars_of(content);
    let t = chars_of(today);
    let ls = split_lines(&c);
    match last_header_of(&ls) {
        Some(h) => {
            if chars_eq(&h.1, &t) {
                return String::from_str(content);
            }
        },
        None => {},
    }
    let mut out = c;
    if out.len() > 0 {
        if out[out.len() - 1] != '\n' {
            out.push('\n');
        }
        out.push('\n');
    }
    let h = header_chars(&t);
    push_all(&mut out, &h);
    proof {
        if c@.len() == 0 {
            assert(Seq::<char>::empty() + header_line(t@).push('\n') =~= header_line(t@).push('\n'));
        }
    }
    string_of(out.as_slice())
}

/// The log with a section for today's local date at its end.
pub fn ensure_today_section(content: &str) -> (r: String)
    ensures
        exists|d: Seq<char>| date_like(d) && r@ == ensure_spec(content@, d),
{
    let today = today_str();
    let r = ensure_section_for_date(content, today.as_str());
    assert(date_like(today@));
    r
}

/// A date that `today_str` may give.
pub open spec fn date_like(d: Seq<char>) -> bool {
    d.len() > 0 && forall|i: int| 0 <= i < d.len() ==> is_date_char(#[trigger] d[i])
}

/// A tag is one or more lowercase ASCII letters or digits.
pub open spec fn valid_tag(tag: Seq<char>) -> bool {
    tag.len() > 0 && forall|i: int|
        0 <= i < tag.len() ==> (('a' <= #[trigger] tag[i] && tag[i] <= 'z') || is_digit(tag[i]))
}

fn check_tag(tag: &Vec<char>) -> (r: bool)
    ensures
        r == valid_tag(tag@),
{
    if tag.len() == 0 {
        return false;
    }
    let mut i: usize = 0;
    while i < tag.len()
        invariant
            i <= tag@.len(),
            forall|k: int| 0 <= k < i ==> (('a' <= #[trigger] tag@[k] && tag@[k] <= 'z') || is_digit(tag@[k])),
        decreases tag@.len() - i,
    {
        let c = tag[i];
        if !(('a' <= c && c <= 'z') || ('0' <= c && c <= '9')) {
            return false;
        }
        i += 1;
    }
    true
}

/// The highest number among the tasks of `tag`, 0 when there is none.
pub open spec fn max_number(ts: Seq<TaskView>, tag: Seq<char>) -> u64
    decreases ts.len(),
{
    if ts.len() == 0 {
        0
    } else {
        let m = max_number(ts.drop_last(), tag);
        let t = ts.last();
        if t.tag == tag && t.number > m {
            t.number
        } else {
            m
        }
    }
}

fn max_in_sections(sections: &Vec<Section>, tag: &str) -> (r: u64)
    ensures
        r == max_number(flat(sections_view(sections@)), tag@),
{
    let ghost secs = sections_view(sections@);
    let want = String::from_str(tag);
    let mut best: u64 = 0;
    let mut si: usize = 0;
    assert(secs.take(0) =~= Seq::<Seq<TaskView>>::empty());
    while si < sections.len()
        invariant
            si <= sections@.len() == secs.len(),
            secs == sections_view(sections@),
            want@ == tag@,
            best == max_number(flat(secs.take(si as int)), tag@),
        decreases sections@.len() - si,
    {
        let tasks = &sections[si].tasks;
        let ghost base = flat(secs.take(si as int));
        assert(secs[si as int] == crate::parser::tasks_view(tasks@));
        let mut ti: usize = 0;
        assert(base + secs[si as int].take(0) =~= base);
        while ti < tasks.len()
            invariant
                si < sections@.len() == secs.len(),
                secs == sections_view(sections@),
                want@ == tag@,
                tasks == &sections@[si as int].tasks,
                secs[si as int] == crate::parser::tasks_view(tasks@),
                base == flat(secs.take(si as int)),
                ti <= tasks@.len(),
                best == max_number(base + secs[si as int].take(ti as int), tag@),
            decreases tasks@.len() - ti,
        {
            let ghost before = base + secs[si as int].take(ti as int);
            proof {
                lemma_flat_step(secs, si as int, ti as int);
            }
            assert(before.push(secs[si as int][ti as int]).drop_last() =~= before);
            let t = &tasks[ti];
            assert(secs[si as int][ti as int] == t@);
            if t.tag == want && t.number > best {
                best = t.number;
            }
            ti += 1;
        }
        proof {
            lemma_flat_next(secs, si as int);
        }
        si += 1;
    }
    assert(secs.take(si as int) =~= secs);
    best
}

/// The task line `- [ ] <id> <title>`.
pub open spec fn task_line(id: Seq<char>, title: Seq<char>) -> Seq<char> {
    seq!['-', ' ', '[', ' ', ']', ' '] + id + seq![' '] + title
}

/// After the last header nothing is a header, so its section ends the log.
proof fn lemma_last_section_ends(ls: Seq<Seq<char>>, from: nat)
    requires
        last_header(ls) is Some,
        from > last_header(ls)->Some_0.0,
        from <= ls.len(),
    ensures
        next_header(ls, from) == ls.len(),
    decreases ls.len() - from,
{
    if from < ls.len() {
        lemma_no_header_after(ls, from as int);
        lemma_last_section_ends(ls, from + 1);
    }
}

proof fn lemma_no_header_after(ls: Seq<Seq<char>>, k: int)
    requires
        last_header(ls) is Some,
        last_header(ls)->Some_0.0 < k < ls.len(),
    ensures
        header_spec(ls[k]) is None,
    decreases ls.len(),
{
    if header_spec(ls.last()) is None {
        assert(last_header(ls) == last_header(ls.drop_last()));
        if k < ls.len() - 1 {
            lemma_no_header_after(ls.drop_last(), k);
        }
    }
}

/// Message of the error for a malformed tag.
pub open spec fn bad_tag_msg() -> Seq<char> {
    "tag must be lowercase alphanumeric"@
}

/// Message of the error for an empty title.
pub open spec fn empty_title_msg() -> Seq<char> {
    "title cannot be empty"@
}

/// The error for a task that cannot be added as given: a malformed tag is a
/// parse error, an empty title (with a good tag) another error.
pub open spec fn validation_failed(tag: Seq<char>, title: Seq<char>, e: TlError) -> bool {
    if !valid_tag(tag) {
        e is Parse && e->Parse_0@ == bad_tag_msg()
    } else {
        e is Other && e->Other_0@ == empty_title_msg()
    }
}

/// Checks the tag and title of a task to add: `Ok` when the tag is one or
/// more lowercase letters or digits and the title is not empty.
pub fn validate_task(tag: &str, title: &str) -> (r: Result<(), TlError>)
    ensures
        match r {
            Ok(()) => valid_tag(tag@) && title@.len() > 0,
            Err(e) => !(valid_tag(tag@) && title@.len() > 0) && validation_failed(tag@, title@, e),
        },
{
    let tv = chars_of(tag);
    if !check_tag(&tv) {
        return Err(TlError::Parse(String::from_str("tag must be lowercase alphanumeric")));
    }
    if chars_of(title).len() == 0 {
        return Err(TlError::Other(String::from_str("title cannot be empty")));
    }
    Ok(())
}

/// What `add_task_with` does: a malformed tag or an empty title is refused
/// with the counters unchanged; otherwise the number is one more than the
/// higher of the tag's counter and the highest number of the tag in the
/// scanned log, and the task line goes at the end of the log, under its last
/// (today's) header.
pub open spec fn add_task_post(
    content: Seq<char>,
    today: Seq<char>,
    tag: Seq<char>,
    title: Seq<char>,
    window: nat,
    before: Map<Seq<char>, u64>,
    r: Result<(String, String), TlError>,
    after: Map<Seq<char>, u64>,
) -> bool {
    if !valid_tag(tag) || title.len() == 0 {
        r is Err && validation_failed(tag, title, r->Err_0) && after == before
    } else {
        let e = ensure_spec(content, today);
        let ls = lines_of(e);
        let c = counter(before, tag);
        let m = max_number(flat(parse_spec(e, window)), tag);
        let top = if c < m {
            m
        } else {
            c
        };
        if last_header(ls) is None {
            r is Err && r->Err_0 is Other && after == before
        } else if top == u64::MAX {
            r is Err && r->Err_0 is State && after == before
        } else {
            let id = id_of(tag, (top + 1) as u64);
            &&& r is Ok
            &&& r->Ok_0.0@ == id
            &&& r->Ok_0.1@ == render(ls.push(task_line(id, title)))
            &&& after == before.insert(tag, (top + 1) as u64)
        }
    }
}

/// Adds a task of `tag` to the log, under a section for `today`; gives its id
/// and the new log.
pub fn add_task_with(
    content: &str,
    today: &str,
    tag: &str,
    title: &str,
    state: &mut State,
    window: usize,
) -> (r: Result<(String, String), TlError>)
    requires
        old(state).wf(),
    ensures
        final(state).wf(),
        add_task_post(content@, today@, tag@, title@, window as nat, old(state)@, r, final(state)@),
{
    match validate_task(tag, title) {
        Ok(()) => {},
        Err(e) => {
            return Err(e);
        },
    }
    let tv = chars_of(tag);
    let ensured = ensure_section_for_date(content, today);
    let sections = parse_log(ensured.as_str(), window);
    let m = max_in_sections(&sections, tag);
    let mut ls = split_lines(&chars_of(ensured.as_str()));
    let ghost vs = views(ls@);
    let section_line = match last_header_of(&ls) {
        Some(h) => h.0,
        None => {
            return Err(TlError::Other(String::from_str("no section found in log")));
        },
    };
    let n_lines = ls.len();
    assert(section_line < n_lines);
    proof {
        lemma_last_section_ends(vs, (section_line + 1) as nat);
    }
    let section_end = next_header_of(&ls, section_line + 1);
    let c = state.get(tag);
    let top = if c < m {
        m
    } else {
        c
    };
    if top == u64::MAX {
        return Err(TlError::State(String::from_str("counter for the tag is exhausted")));
    }
    let ghost s0 = state@;
    state.sync_min(tag, m);
    assert(counter(state@, tag@) == top);
    let number = state.next_id(tag);
    assert(state@ =~= s0.insert(tag@, number));
    let mut id = tv.clone();
    id.push('-');
    push_all(&mut id, &u64_to_dec(number));
    assert(id@ =~= id_of(tag@, number));
    let mut line: Vec<char> = Vec::new();
    line.push('-');
    line.push(' ');
    line.push('[');
    line.push(' ');
    line.push(']');
    line.push(' ');
    push_all(&mut line, &id);
    line.push(' ');
    push_all(&mut line, &chars_of(title));
    assert(line@ =~= task_line(id@, title@));
    let ghost lv = line@;
    ls.insert(section_end, line);
    assert(views(ls@) =~= vs.push(lv));
    let doc = render_lines(&ls);
    Ok((string_of(id.as_slice()), string_of(doc.as_slice())))
}

/// Adds a task under a section for today's local date.
pub fn add_task_now(
    content: &str,
    tag: &str,
    title: &str,
    state: &mut State,
    window: usize,
) -> (r: Result<(String, String), TlError>)
    requires
        old(state).wf(),
    ensures
        final(state).wf(),
        exists|d: Seq<char>|
            date_like(d) && add_task_post(
                content@,
                d,
                tag@,
                title@,
                window as nat,
                old(state)@,
                r,
                final(state)@,
            ),
{
    let today = today_str();
    let r = add_task_with(content, today.as_str(), tag, title, state, window);
    assert(date_like(today@));
    r
}


/// The task that `tasks_with_id` finds stands for its own line of the whole
/// document.
proof fn lemma_found_at(content: Seq<char>, window: nat, id: Seq<char>)
    requires
        tasks_with_id(parse_spec(content, window), id).len() >= 1,
    ensures
        ({
            let ls = lines_of(content);
            let t = tasks_with_id(parse_spec(content, window), id)[0];
            &&& t.line_number < ls.len()
            &&& task_spec(ls[t.line_number as int]) == Some(
                crate::parser::TaskParts {
                    indent: t.indent,
                    done: t.done,
                    tag: t.tag,
                    number: t.number,
                    title: t.title,
                },
            )
            &&& forall|k: int|
                0 <= k < t.notes.len() ==> t.line_number < (#[trigger] t.notes[k]).line_number
                    < ls.len()
        }),
{
    let ls = lines_of(content);
    let s = window_start(ls.len(), window);
    let w = ls.skip(s as int);
    let secs = parse_lines(w, s);
    let f = flat(secs);
    let m = f.filter(has_id(id));
    lemma_parse_ok(w, s);
    lemma_flat_all_at(w, s, secs);
    assert(m.contains(m[0]));
    f.lemma_filter_contains_rev(has_id(id), m[0]);
    let k = choose|k: int| 0 <= k < f.len() && f[k] == m[0];
    assert(task_at(w, s, f[k]));
    assert(w[m[0].line_number - s] == ls[m[0].line_number as int]);
}

/// The task line checked: the blank of its box becomes `x`, and the stamp
/// follows in parentheses.
pub open spec fn checked_line(l: Seq<char>, stamp: Seq<char>) -> Seq<char> {
    l.update(ws_run(l) as int + 3, 'x') + seq![' ', '('] + stamp + seq![')']
}

/// The lookup outcome shared by the edits that address a task by id.
pub open spec fn lookup_failed<T>(m: Seq<TaskView>, id: Seq<char>, r: Result<T, TlError>) -> bool {
    if m.len() == 0 {
        r is Err && r->Err_0 is TaskNotFound && r->Err_0->TaskNotFound_0@ == id
    } else {
        r is Err && r->Err_0 is DuplicateId && r->Err_0->DuplicateId_0@ == id
    }
}

/// Message of the error for completing a task that is already done.
pub open spec fn already_done_msg(id: Seq<char>) -> Seq<char> {
    "task "@ + id + " is already done"@
}

/// What `complete_task_with` does: an open task's line is checked and
/// stamped; a task already done is an error.
pub open spec fn complete_post(
    content: Seq<char>,
    id: Seq<char>,
    stamp: Seq<char>,
    window: nat,
    r: Result<String, TlError>,
) -> bool {
    let m = tasks_with_id(parse_spec(content, window), id);
    let ls = lines_of(content);
    if m.len() != 1 {
        lookup_failed(m, id, r)
    } else if m[0].done {
        r is Err && r->Err_0 is Other && r->Err_0->Other_0@ == already_done_msg(id)
    } else {
        let n = m[0].line_number as int;
        r is Ok && r->Ok_0@ == render(ls.update(n, checked_line(ls[n], stamp)))
    }
}

/// Marks the task `id` done, stamped with `stamp`; gives the new log.
#[verifier::rlimit(60)]
pub fn complete_task_with(content: &str, id: &str, stamp: &str, window: usize) -> (r: Result<
    String,
    TlError,
>)
    ensures
        complete_post(content@, id@, stamp@, window as nat, r),
{
    let sections = parse_log(content, window);
    let t = match find_task(sections.as_slice(), id) {
        Ok(t) => t,
        Err(e) => {
            return Err(e);
        },
    };
    proof {
        lemma_found_at(content@, window as nat, id@);
    }
    if t.done {
        let mut msg = chars_of("task ");
        push_all(&mut msg, &chars_of(id));
        push_all(&mut msg, &chars_of(" is already done"));
        assert(msg@ =~= already_done_msg(id@));
        return Err(TlError::Other(string_of(msg.as_slice())));
    }
    let n = t.line_number;
    let mut ls = split_lines(&chars_of(content));
    let ghost vs = views(ls@);
    let old_line = &ls[n];
    let mut line = sub_vec(old_line, 0, old_line.len());
    assert(line@ =~= vs[n as int]);
    let a = run_end(&line, 0, 0);
    assert(line@.skip(0) =~= line@);
    line.set(a + 3, 'x');
    line.push(' ');
    line.push('(');
    push_all(&mut line, &chars_of(stamp));
    line.push(')');
    assert(line@ =~= checked_line(vs[n as int], stamp@));
    let ghost lv = line@;
    ls.set(n, line);
    assert(views(ls@) =~= vs.update(n as int, lv));
    let doc = render_lines(&ls);
    Ok(string_of(doc.as_slice()))
}

/// The note line: `indent` spaces, then `- [<stamp>] <text>`.
pub open spec fn note_line(indent: nat, stamp: Seq<char>, text: Seq<char>) -> Seq<char> {
    Seq::new(indent, |i: int| ' ') + seq!['-', ' ', '['] + stamp + seq![']', ' '] + text
}

/// Message of the error for an empty note.
pub open spec fn empty_note_msg() -> Seq<char> {
    "note text cannot be empty"@
}

/// What `add_note_with` does: an empty text is an error; otherwise the note
/// line goes right after the task's last note, or right after the task when
/// it has none.
pub open spec fn add_note_post(
    content: Seq<char>,
    id: Seq<char>,
    text: Seq<char>,
    stamp: Seq<char>,
    indent: nat,
    window: nat,
    r: Result<String, TlError>,
) -> bool {
    let m = tasks_with_id(parse_spec(content, window), id);
    let ls = lines_of(content);
    if text.len() == 0 {
        r is Err && r->Err_0 is Other && r->Err_0->Other_0@ == empty_note_msg()
    } else if m.len() != 1 {
        lookup_failed(m, id, r)
    } else {
        r is Ok && r->Ok_0@ == render(
            ls.insert(last_line_of(m[0]) as int + 1, note_line(indent, stamp, text)),
        )
    }
}

/// Adds a note, stamped with `stamp`, under the task `id`; gives the new log.
pub fn add_note_with(
    content: &str,
    id: &str,
    text: &str,
    stamp: &str,
    note_indent: usize,
    window: usize,
) -> (r: Result<String, TlError>)
    ensures
        add_note_post(content@, id@, text@, stamp@, note_indent as nat, window as nat, r),
{
    if chars_of(text).len() == 0 {
        return Err(TlError::Other(String::from_str("note text cannot be empty")));
    }
    let sections = parse_log(content, window);
    let t = match find_task(sections.as_slice(), id) {
        Ok(t) => t,
        Err(e) => {
            return Err(e);
        },
    };
    proof {
        lemma_found_at(content@, window as nat, id@);
    }
    let after = if t.notes.len() == 0 {
        t.line_number
    } else {
        t.notes[t.notes.len() - 1].line_number
    };
    assert(after == last_line_of(t@));
    let mut ls = split_lines(&chars_of(content));
    let ghost vs = views(ls@);
    let n_lines = ls.len();
    assert(t@.notes.len() > 0 ==> t@.notes[t@.notes.len() - 1].line_number < n_lines);
    assert(after < n_lines);
    let mut line: Vec<char> = Vec::new();
    let mut k: usize = 0;
    while k < note_indent
        invariant
            k <= note_indent,
            line@ == Seq::new(k as nat, |i: int| ' '),
        decreases note_indent - k,
    {
        line.push(' ');
        k += 1;
        assert(line@ =~= Seq::new(k as nat, |i: int| ' '));
    }
    line.push('-');
    line.push(' ');
    line.push('[');
    push_all(&mut line, &chars_of(stamp));
    line.push(']');
    line.push(' ');
    push_all(&mut line, &chars_of(text));
    assert(line@ =~= note_line(note_indent as nat, stamp@, text@));
    let ghost lv = line@;
    ls.insert(after + 1, line);
    assert(views(ls@) =~= vs.insert(after + 1, lv));
    let doc = render_lines(&ls);
    Ok(string_of(doc.as_slice()))
}

/// A time stamp as `now_stamp` writes it.
pub open spec fn is_stamp_char(c: char) -> bool {
    is_digit(c) || c == '/' || c == ' ' || c == ':' || c == 'A' || c == 'P' || c == 'M' || c
        == '+' || c == '-'
}

/// Relies on chrono's `Local::now` and `format("%d/%m/%Y %I:%M%p")`: the local
/// date and time, beginning with the two digits of the day.
#[verifier::external_body]
fn now_stamp() -> (r: String)
    ensures
        r@.len() > 0,
        is_digit(r@[0]),
        forall|i: int| 0 <= i < r@.len() ==> is_stamp_char(#[trigger] r@[i]),
{
    chrono::Local::now().format("%d/%m/%Y %I:%M%p").to_string()
}

/// A stamp that `now_stamp` may give.
pub open spec fn stamp_like(s: Seq<char>) -> bool {
    s.len() > 0 && is_digit(s[0]) && forall|i: int| 0 <= i < s.len() ==> is_stamp_char(#[trigger] s[i])
}

/// Marks the task `id` done, stamped with the local date and time.
pub fn complete_task_now(content: &str, id: &str, window: usize) -> (r: Result<String, TlError>)
    ensures
        exists|st: Seq<char>| stamp_like(st) && complete_post(content@, id@, st, window as nat, r),
{
    let stamp = now_stamp();
    let r = complete_task_with(content, id, stamp.as_str(), window);
    assert(stamp_like(stamp@));
    r
}

/// Adds a note under the task `id`, stamped with the local date and time.
pub fn add_note_now(
    content: &str,
    id: &str,
    text: &str,
    note_indent: usize,
    window: usize,
) -> (r: Result<String, TlError>)
    ensures
        exists|st: Seq<char>|
            stamp_like(st) && add_note_post(
                content@,
                id@,
                text@,
                st,
                note_indent as nat,
                window as nat,
                r,
            ),
{
    let stamp = now_stamp();
    let r = add_note_with(content, id, text, stamp.as_str(), note_indent, window);
    assert(stamp_like(stamp@));
    r
}

/// The log that setting up writes: `None` when the existing log needs no
/// change. A missing or blank log becomes a single header for `today`; any
/// other gets a section for `today` unless its last header has that date.
pub open spec fn init_post(existing: Option<Seq<char>>, today: Seq<char>, r: Option<String>) -> bool {
    match existing {
        None => r matches Some(x) && x@ == header_line(today).push('\n'),
        Some(c) => if all_ws(c) {
            r matches Some(x) && x@ == header_line(today).push('\n')
        } else if ensure_spec(c, today) == c {
            r is None
        } else {
            r matches Some(x) && x@ == ensure_spec(c, today)
        },
    }
}

pub open spec fn opt_str_view(o: Option<&str>) -> Option<Seq<char>> {
    match o {
        Some(s) => Some(s@),
        None => None,
    }
}

/// The text to write to the log when setting up, given its current text
/// (`None` when there is no log file).
pub fn init_log_content(existing: Option<&str>, today: &str) -> (r: Option<String>)
    ensures
        init_post(opt_str_view(existing), today@, r),
{
    let t = chars_of(today);
    match existing {
        None => {
            let h = header_chars(&t);
            Some(string_of(h.as_slice()))
        },
        Some(c) => {
            let cv = chars_of(c);
            if is_blank(&cv) {
                let h = header_chars(&t);
                return Some(string_of(h.as_slice()));
            }
            let u = ensure_section_for_date(c, today);
            let uv = chars_of(u.as_str());
            if chars_eq(&uv, &cv) {
                None
            } else {
                Some(u)
            }
        },
    }
}


/// Numbers of a tag only grow: once an addition has handed out a number, the
/// next addition of that tag, on whatever log and whatever day, hands out a
/// larger one, and the counter keeps it.
pub proof fn lemma_additions_increase(
    c1: Seq<char>,
    c2: Seq<char>,
    d1: Seq<char>,
    d2: Seq<char>,
    tag: Seq<char>,
    t1: Seq<char>,
    t2: Seq<char>,
    w1: nat,
    w2: nat,
    s0: Map<Seq<char>, u64>,
    r1: Result<(String, String), TlError>,
    s1: Map<Seq<char>, u64>,
    r2: Result<(String, String), TlError>,
    s2: Map<Seq<char>, u64>,
)
    requires
        add_task_post(c1, d1, tag, t1, w1, s0, r1, s1),
        r1 is Ok,
        add_task_post(c2, d2, tag, t2, w2, s1, r2, s2),
        r2 is Ok,
    ensures
        exists|n1: u64, n2: u64|
            n1 < n2 && r1->Ok_0.0@ == id_of(tag, n1) && r2->Ok_0.0@ == id_of(tag, n2)
                && counter(s2, tag) == n2,
{
    let e1 = ensure_spec(c1, d1);
    let c = counter(s0, tag);
    let m = max_number(flat(parse_spec(e1, w1)), tag);
    let top = if c < m {
        m
    } else {
        c
    };
    let n1 = (top + 1) as u64;
    assert(counter(s1, tag) == n1);
    let e2 = ensure_spec(c2, d2);
    let m2 = max_number(flat(parse_spec(e2, w2)), tag);
    let top2 = if n1 < m2 {
        m2
    } else {
        n1
    };
    let n2 = (top2 + 1) as u64;
    assert(counter(s2, tag) == n2);
    assert(n1 < n2 && r1->Ok_0.0@ == id_of(tag, n1) && r2->Ok_0.0@ == id_of(tag, n2));
}

/// The first number of a tag that has no counter and no task in the scanned
/// log is 1.
pub proof fn lemma_first_number_is_one(
    c: Seq<char>,
    d: Seq<char>,
    tag: Seq<char>,
    title: Seq<char>,
    w: nat,
    s0: Map<Seq<char>, u64>,
    r: Result<(String, String), TlError>,
    s1: Map<Seq<char>, u64>,
)
    requires
        add_task_post(c, d, tag, title, w, s0, r, s1),
        r is Ok,
        !s0.contains_key(tag),
        max_number(flat(parse_spec(ensure_spec(c, d), w)), tag) == 0,
    ensures
        r->Ok_0.0@ == id_of(tag, 1),
        counter(s1, tag) == 1,
{
}


// ---------------------------------------------------------------- the lines written

/// Decimal forms are ASCII digits.
proof fn lemma_dec_str_digits(n: nat)
    ensures
        dec_str(n).len() > 0,
        forall|i: int| 0 <= i < dec_str(n).len() ==> is_digit(#[trigger] dec_str(n)[i]),
    decreases n,
{
    lemma_digit_char(n % 10);
    if n >= 10 {
        lemma_dec_str_digits(n / 10);
    }
}

proof fn lemma_digit_char(d: nat)
    requires
        d < 10,
    ensures
        is_digit(digit_char(d)),
        digit_value(digit_char(d)) == d,
{
    assert(((d + 48) as u8) as char as u32 == d + 48);
}

/// Reading a decimal form gives the number back.
proof fn lemma_dec_round_trip(n: nat)
    ensures
        dec_value(dec_str(n)) == n,
    decreases n,
{
    lemma_digit_char(n % 10);
    if n < 10 {
        assert(n % 10 == n);
        assert(dec_str(n).drop_last() =~= Seq::<char>::empty());
        assert(dec_str(n).last() == digit_char(n));
        assert(dec_value(dec_str(n)) == dec_value(Seq::<char>::empty()) * 10 + digit_value(digit_char(n)));
    } else {
        lemma_dec_round_trip(n / 10);
        assert(dec_str(n).drop_last() =~= dec_str(n / 10));
        assert(dec_str(n).last() == digit_char(n % 10));
        assert(n == (n / 10) * 10 + n % 10);
        assert(dec_value(dec_str(n)) == dec_value(dec_str(n / 10)) * 10 + digit_value(digit_char(n % 10)));
    }
}

/// Ids of tasks whose tags hold no `-` differ unless tag and number agree.
proof fn lemma_id_differs(a: Seq<char>, x: u64, b: Seq<char>, y: u64)
    requires
        forall|i: int| 0 <= i < a.len() ==> is_tag_char(#[trigger] a[i]),
        forall|i: int| 0 <= i < b.len() ==> is_tag_char(#[trigger] b[i]),
        a != b || x != y,
    ensures
        id_of(a, x) != id_of(b, y),
{
    let ia = id_of(a, x);
    let ib = id_of(b, y);
    if ia == ib {
        if a.len() < b.len() {
            assert(ia[a.len() as int] == '-');
            assert(ib[a.len() as int] == b[a.len() as int]);
        } else if b.len() < a.len() {
            assert(ib[b.len() as int] == '-');
            assert(ia[b.len() as int] == a[b.len() as int]);
        } else {
            assert(a =~= ia.take(a.len() as int));
            assert(b =~= ib.take(b.len() as int));
            assert(dec_str(x as nat) =~= ia.skip(a.len() as int + 1));
            assert(dec_str(y as nat) =~= ib.skip(b.len() as int + 1));
            lemma_dec_round_trip(x as nat);
            lemma_dec_round_trip(y as nat);
        }
    }
}

/// A task line written for a tag that starts with a letter reads back as
/// that tag, number and title.
#[verifier::rlimit(60)]
proof fn lemma_task_line_parses(tag: Seq<char>, n: u64, title: Seq<char>)
    requires
        valid_tag(tag),
        'a' <= tag[0] && tag[0] <= 'z',
        title.len() > 0,
        forall|i: int| 0 <= i < title.len() ==> #[trigger] title[i] != '\n',
    ensures
        task_spec(task_line(id_of(tag, n), title)) == Some(
            TaskParts { indent: seq![], done: false, tag, number: n, title },
        ),
{
    let d = dec_str(n as nat);
    let tl = task_line(id_of(tag, n), title);
    lemma_dec_str_digits(n as nat);
    lemma_dec_round_trip(n as nat);
    lemma_ws_run_at(tl, 0);
    assert(tl.skip(0) =~= tl);
    let b: int = 6 + tag.len() as int;
    let e: int = b + 1 + d.len() as int;
    assert forall|k: int| 0 <= k < tag.len() implies is_tag_char(#[trigger] tl.skip(6)[k]) by {
        assert(tl.skip(6)[k] == tag[k]);
    }
    assert(tl.skip(6)[tag.len() as int] == '-');
    lemma_tag_run_at(tl.skip(6), tag.len() as int);
    assert forall|k: int| 0 <= k < d.len() implies is_digit(#[trigger] tl.skip(b + 1)[k]) by {
        assert(tl.skip(b + 1)[k] == d[k]);
    }
    assert(tl.skip(b + 1)[d.len() as int] == ' ');
    lemma_digit_run_at(tl.skip(b + 1), d.len() as int);
    assert(tl.subrange(6, b) =~= tag);
    assert(tl.subrange(b + 1, e) =~= d);
    assert(tl.skip(e + 1) =~= title);
    assert(tl.take(0) =~= Seq::<char>::empty());
}

/// A note line with a positive indent, whose stamp does not look like a box,
/// reads back as a note and as nothing else.
proof fn lemma_note_line_parses(k: nat, stamp: Seq<char>, text: Seq<char>)
    requires
        k > 0,
        stamp.len() > 0 ==> stamp[0] != ' ' && stamp[0] != 'x',
        forall|i: int| 0 <= i < stamp.len() ==> #[trigger] stamp[i] != '\n',
        forall|i: int| 0 <= i < text.len() ==> #[trigger] text[i] != '\n',
    ensures
        header_spec(note_line(k, stamp, text)) is None,
        task_spec(note_line(k, stamp, text)) is None,
        note_spec(note_line(k, stamp, text)) == Some(
            (Seq::new(k, |i: int| ' '), seq!['['] + stamp + seq![']', ' '] + text),
        ),
        width(Seq::new(k, |i: int| ' ')) == k,
{
    let nl = note_line(k, stamp, text);
    let sp = Seq::new(k, |i: int| ' ');
    assert forall|j: int| 0 <= j < k implies is_ws(#[trigger] nl[j]) by {
        assert(nl[j] == ' ');
    }
    assert(nl[k as int] == '-');
    lemma_ws_run_at(nl, k as int);
    let r = nl.skip(k as int);
    assert(r[0] == '-' && r[1] == ' ' && r[2] == '[');
    if stamp.len() > 0 {
        assert(r[3] == stamp[0]);
    } else {
        assert(r[3] == ']');
    }
    assert(nl.take(k as int) =~= sp);
    assert(r.skip(2) =~= seq!['['] + stamp + seq![']', ' '] + text);
    assert forall|j: int| 0 <= j < r.skip(2).len() implies #[trigger] r.skip(2)[j] != '\n' by {
        let t = seq!['['] + stamp + seq![']', ' '] + text;
        if 1 <= j < 1 + stamp.len() {
            assert(t[j] == stamp[j - 1]);
        } else if j >= stamp.len() + 3 {
            assert(t[j] == text[j - stamp.len() - 3]);
        }
    }
    lemma_width_spaces(k);
}

proof fn lemma_note_line_clean(k: nat, stamp: Seq<char>, text: Seq<char>)
    requires
        forall|i: int| 0 <= i < stamp.len() ==> #[trigger] stamp[i] != '\n',
        clean_line(text),
    ensures
        clean_line(note_line(k, stamp, text)),
        note_line(k, stamp, text).len() > 0,
{
    let nl = note_line(k, stamp, text);
    assert forall|i: int| 0 <= i < nl.len() implies #[trigger] nl[i] != '\n' by {
        let tx = seq!['['] + stamp + seq![']', ' '] + text;
        if k + 2 <= i {
            assert(nl[i] == tx[i - k - 2]);
            if 1 <= i - k - 2 < 1 + stamp.len() {
                assert(tx[i - k - 2] == stamp[i - k - 3]);
            } else if i - k - 2 >= stamp.len() + 3 {
                assert(tx[i - k - 2] == text[i - k - 2 - stamp.len() - 3]);
            }
        }
    }
    if text.len() > 0 {
        assert(nl.last() == text.last());
    }
}

proof fn lemma_width_spaces(k: nat)
    ensures
        width(Seq::new(k, |i: int| ' ')) == k,
    decreases k,
{
    if k > 0 {
        assert(Seq::new(k, |i: int| ' ').drop_last() =~= Seq::new((k - 1) as nat, |i: int| ' '));
        lemma_width_spaces((k - 1) as nat);
    }
}


proof fn lemma_max_number_bound(ts: Seq<TaskView>, tag: Seq<char>)
    ensures
        forall|k: int|
            0 <= k < ts.len() && (#[trigger] ts[k]).tag == tag ==> ts[k].number <= max_number(
                ts,
                tag,
            ),
    decreases ts.len(),
{
    if ts.len() > 0 {
        lemma_max_number_bound(ts.drop_last(), tag);
        assert forall|k: int| 0 <= k < ts.len() && (#[trigger] ts[k]).tag == tag implies ts[k].number
            <= max_number(ts, tag) by {
            if k < ts.len() - 1 {
                assert(ts[k] == ts.drop_last()[k]);
            }
        }
    }
}

proof fn lemma_task_line_clean(tag: Seq<char>, n: u64, title: Seq<char>)
    requires
        valid_tag(tag),
        title.len() > 0,
        clean_line(title),
    ensures
        clean_line(task_line(id_of(tag, n), title)),
        task_line(id_of(tag, n), title).len() > 0,
{
    let d = dec_str(n as nat);
    let tl = task_line(id_of(tag, n), title);
    lemma_dec_str_digits(n as nat);
    let b: int = 6 + tag.len() as int;
    let e: int = b + 1 + d.len() as int;
    assert forall|i: int| 0 <= i < tl.len() implies #[trigger] tl[i] != '\n' by {
        if 6 <= i < b {
            assert(tl[i] == tag[i - 6]);
        } else if b < i < e {
            assert(tl[i] == d[i - b - 1]);
        } else if i > e {
            assert(tl[i] == title[i - e - 1]);
        }
    }
    assert(tl.last() == title.last());
}

/// Every task of the scanned log whose tag is `tag` has a number below `n`,
/// so none has the id `tag-n`.
#[verifier::rlimit(30)]
proof fn lemma_fresh_id(ls: Seq<Seq<char>>, tag: Seq<char>, n: u64)
    requires
        valid_tag(tag),
        max_number(flat(parse_lines(ls, 0)), tag) < n,
    ensures
        forall|k: int|
            0 <= k < flat(parse_lines(ls, 0)).len() ==> id_of(
                (#[trigger] flat(parse_lines(ls, 0))[k]).tag,
                flat(parse_lines(ls, 0))[k].number,
            ) != id_of(tag, n),
{
    let f = flat(parse_lines(ls, 0));
    lemma_parse_ok(ls, 0);
    lemma_flat_all_at(ls, 0, parse_lines(ls, 0));
    lemma_max_number_bound(f, tag);
    assert forall|k: int| 0 <= k < f.len() implies id_of((#[trigger] f[k]).tag, f[k].number)
        != id_of(tag, n) by {
        lemma_fresh_one(ls, tag, n, f[k]);
    }
}

proof fn lemma_fresh_one(ls: Seq<Seq<char>>, tag: Seq<char>, n: u64, t: TaskView)
    requires
        valid_tag(tag),
        task_at(ls, 0, t),
        t.tag == tag ==> t.number < n,
    ensures
        id_of(t.tag, t.number) != id_of(tag, n),
{
    let l = ls[t.line_number as int];
    assert(l == ls[t.line_number - 0]);
    assert(task_spec(l)->Some_0.tag == t.tag);
    lemma_task_tag_chars(l);
    assert forall|i: int| 0 <= i < t.tag.len() implies is_tag_char(#[trigger] t.tag[i]) by {
        assert(t.tag[i] == task_spec(l)->Some_0.tag[i]);
    }
    assert forall|i: int| 0 <= i < tag.len() implies is_tag_char(#[trigger] tag[i]) by {
        assert(('a' <= tag[i] && tag[i] <= 'z') || is_digit(tag[i]));
    }
    lemma_id_differs(t.tag, t.number, tag, n);
}

/// Additions of a tag one after another are gapless. On a log whose last
/// section is already today's, with clean lines, all of which the scan
/// window covers, an addition hands out one more than the higher of the
/// counter and the log's highest number of the tag; the next addition of the
/// tag on the resulting log hands out the number after that (or fails when
/// no number is left); and the resulting log again ends in today's section
/// with clean lines, so the statement applies to it in turn.
pub proof fn lemma_consecutive_additions(
    c0: Seq<char>,
    today: Seq<char>,
    tag: Seq<char>,
    t1: Seq<char>,
    t2: Seq<char>,
    w: nat,
    s0: Map<Seq<char>, u64>,
    r1: Result<(String, String), TlError>,
    s1: Map<Seq<char>, u64>,
    r2: Result<(String, String), TlError>,
    s2: Map<Seq<char>, u64>,
)
    requires
        last_header(lines_of(c0)) is Some,
        last_header(lines_of(c0))->Some_0.1 == today,
        forall|i: int| 0 <= i < lines_of(c0).len() ==> clean_line(#[trigger] lines_of(c0)[i]),
        tag.len() > 0 && 'a' <= tag[0] && tag[0] <= 'z',
        t1.len() > 0,
        clean_line(t1),
        t2.len() > 0,
        w >= lines_of(c0).len() + 1,
        add_task_post(c0, today, tag, t1, w, s0, r1, s1),
        r1 is Ok,
        add_task_post(r1->Ok_0.1@, today, tag, t2, w, s1, r2, s2),
    ensures
        ({
            let c = counter(s0, tag);
            let m = max_number(flat(parse_spec(c0, w)), tag);
            let n = (if c < m {
                m
            } else {
                c
            }) + 1;
            &&& r1->Ok_0.0@ == id_of(tag, n as u64)
            &&& r2 is Ok ==> r2->Ok_0.0@ == id_of(tag, (n + 1) as u64)
            &&& r2 is Err ==> n == u64::MAX
        }),
        last_header(lines_of(r1->Ok_0.1@)) is Some,
        last_header(lines_of(r1->Ok_0.1@))->Some_0.1 == today,
        forall|i: int|
            0 <= i < lines_of(r1->Ok_0.1@).len() ==> clean_line(
                #[trigger] lines_of(r1->Ok_0.1@)[i],
            ),
{
    lemma_one_addition(c0, today, tag, t1, w, s0, r1, s1);
    let c1 = r1->Ok_0.1@;
    assert(ensure_spec(c1, today) == c1);
}

/// Adding a task and then a note to it gives a task with exactly that one
/// note: on a log with clean lines, all of which the scan window covers,
/// for a tag that starts with a letter, a clean non-empty title, a positive
/// note indent, and a stamp and text that keep the note line one line that
/// does not look like a task box.
#[verifier::rlimit(80)]
pub proof fn lemma_note_on_new_task(
    c0: Seq<char>,
    today: Seq<char>,
    tag: Seq<char>,
    title: Seq<char>,
    text: Seq<char>,
    stamp: Seq<char>,
    k: nat,
    w: nat,
    s0: Map<Seq<char>, u64>,
    r1: Result<(String, String), TlError>,
    s1: Map<Seq<char>, u64>,
    r2: Result<String, TlError>,
)
    requires
        add_task_post(c0, today, tag, title, w, s0, r1, s1),
        r1 is Ok,
        add_note_post(r1->Ok_0.1@, r1->Ok_0.0@, text, stamp, k, w, r2),
        forall|i: int|
            0 <= i < lines_of(ensure_spec(c0, today)).len() ==> clean_line(
                #[trigger] lines_of(ensure_spec(c0, today))[i],
            ),
        tag.len() > 0 && 'a' <= tag[0] && tag[0] <= 'z',
        title.len() > 0,
        clean_line(title),
        k > 0,
        stamp.len() > 0 ==> stamp[0] != ' ' && stamp[0] != 'x',
        forall|i: int| 0 <= i < stamp.len() ==> #[trigger] stamp[i] != '\n',
        text.len() > 0,
        clean_line(text),
        w >= lines_of(ensure_spec(c0, today)).len() + 2,
    ensures
        r2 is Ok,
        ({
            let m = tasks_with_id(parse_spec(r2->Ok_0@, w), r1->Ok_0.0@);
            &&& m.len() == 1
            &&& m[0].notes.len() == 1
            &&& m[0].notes[0].text == seq!['['] + stamp + seq![']', ' '] + text
        }),
{
    let e0 = ensure_spec(c0, today);
    let l0 = lines_of(e0);
    assert(l0.skip(0) =~= l0);
    assert(parse_spec(e0, w) == parse_lines(l0, 0));
    let c = counter(s0, tag);
    let m0 = max_number(flat(parse_lines(l0, 0)), tag);
    let top = if c < m0 {
        m0
    } else {
        c
    };
    let n = (top + 1) as u64;
    let id = id_of(tag, n);
    let tl = task_line(id, title);
    lemma_task_line_parses(tag, n, title);
    lemma_task_line_clean(tag, n, title);
    let l1 = l0.push(tl);
    assert forall|i: int| 0 <= i < l1.len() implies clean_line(#[trigger] l1[i]) by {
        if i < l0.len() {
            assert(l1[i] == l0[i]);
        }
    }
    lemma_lines_of_render(l1);
    let c1 = r1->Ok_0.1@;
    assert(lines_of(c1) == l1);
    assert(l1.skip(0) =~= l1);
    assert(parse_spec(c1, w) == parse_lines(l1, 0));
    lemma_append_task(l0, tl, 0);
    let f0 = flat(parse_lines(l0, 0));
    let nt = opened(task_spec(tl)->Some_0, l0.len(), scan(l0, 0).date);
    lemma_fresh_id(l0, tag, n);
    lemma_filter_none(f0, id);
    f0.lemma_filter_push(nt, has_id(id));
    assert(tasks_with_id(parse_spec(c1, w), id) =~= seq![nt]);
    assert(last_line_of(nt) == l0.len());
    let nl = note_line(k, stamp, text);
    lemma_note_line_parses(k, stamp, text);
    assert(width(task_spec(tl)->Some_0.indent) == 0);
    let l2 = l1.push(nl);
    assert(l1.insert(l0.len() as int + 1, nl) =~= l2);
    lemma_note_line_clean(k, stamp, text);
    assert forall|i: int| 0 <= i < l2.len() implies clean_line(#[trigger] l2[i]) by {
        if i < l1.len() {
            assert(l2[i] == l1[i]);
        }
    }
    lemma_lines_of_render(l2);
    let c2 = r2->Ok_0@;
    assert(lines_of(c2) == l2);
    assert(l2.skip(0) =~= l2);
    assert(parse_spec(c2, w) == parse_lines(l2, 0));
    lemma_append_task_note(l0, tl, nl, 0);
    let nn = TaskView {
        notes: seq![NoteView { line_number: l0.len() + 1, text: note_spec(nl)->Some_0.1 }],
        ..nt
    };
    f0.lemma_filter_push(nn, has_id(id));
    assert(tasks_with_id(parse_spec(c2, w), id) =~= seq![nn]);
}


/// Adding a note puts it right after the task's earlier notes, which keep
/// their order, so repeated notes pile up in the order they were added. On
/// a log with clean lines, all of which the scan window covers, where
/// exactly one task has the id, a non-empty note whose indent is
/// deeper than the task's (and whose stamp and text keep it one line that
/// does not look like a task box) gives a log in which that id still finds
/// exactly one task: the same task with its notes as before and then the
/// new one. The new log again has clean lines.
pub proof fn lemma_notes_accumulate(
    c: Seq<char>,
    id: Seq<char>,
    text: Seq<char>,
    stamp: Seq<char>,
    k: nat,
    w: nat,
    r: Result<String, TlError>,
)
    requires
        add_note_post(c, id, text, stamp, k, w, r),
        tasks_with_id(parse_spec(c, w), id).len() == 1,
        forall|i: int| 0 <= i < lines_of(c).len() ==> clean_line(#[trigger] lines_of(c)[i]),
        w >= lines_of(c).len() + 1,
        k > width(tasks_with_id(parse_spec(c, w), id)[0].indent),
        stamp.len() > 0 ==> stamp[0] != ' ' && stamp[0] != 'x',
        forall|i: int| 0 <= i < stamp.len() ==> #[trigger] stamp[i] != '\n',
        text.len() > 0,
        clean_line(text),
    ensures
        r is Ok,
        ({
            let t = tasks_with_id(parse_spec(c, w), id)[0];
            tasks_with_id(parse_spec(r->Ok_0@, w), id) == seq![
                with_note(
                    t,
                    NoteView {
                        line_number: last_line_of(t) + 1,
                        text: seq!['['] + stamp + seq![']', ' '] + text,
                    },
                ),
            ]
        }),
        forall|i: int|
            0 <= i < lines_of(r->Ok_0@).len() ==> clean_line(#[trigger] lines_of(r->Ok_0@)[i]),
{
    let l = lines_of(c);
    let n = l.len();
    assert(l.skip(0) =~= l);
    assert(window_start(n, w) == 0);
    assert(parse_spec(c, w) == parse_lines(l, 0));
    let m = tasks_with_id(parse_spec(c, w), id);
    let t = m[0];
    assert(m =~= seq![t]);
    lemma_found_at(c, w, id);
    assert(last_line_of(t) < n) by {
        if t.notes.len() > 0 {
            assert(t.notes[t.notes.len() - 1].line_number < n);
        }
    }
    let p = last_line_of(t) + 1;
    let nl = note_line(k, stamp, text);
    lemma_note_line_parses(k, stamp, text);
    let l2 = l.insert(p as int, nl);
    lemma_note_line_clean(k, stamp, text);
    assert forall|i: int| 0 <= i < l2.len() implies clean_line(#[trigger] l2[i]) by {
        if i < p {
            assert(l2[i] == l[i]);
        } else if i > p {
            assert(l2[i] == l[i - 1]);
        }
    }
    lemma_lines_of_render(l2);
    let c2 = r->Ok_0@;
    assert(lines_of(c2) == l2);
    assert(l2.skip(0) =~= l2);
    assert(window_start(l2.len(), w) == 0);
    assert(parse_spec(c2, w) == parse_lines(l2, 0));
    lemma_insert_note(l, nl, t, id);
}

/// One addition on a log whose last section is today's, with clean lines,
/// all of which the scan window covers: the number is one more than the
/// higher of the counter and the log's highest number of the tag; the new
/// log has one more line, its last section is still today's, its lines are
/// clean, and its highest number of the tag is the new one.
proof fn lemma_one_addition(
    c0: Seq<char>,
    today: Seq<char>,
    tag: Seq<char>,
    t: Seq<char>,
    w: nat,
    s0: Map<Seq<char>, u64>,
    r: Result<(String, String), TlError>,
    s1: Map<Seq<char>, u64>,
)
    requires
        last_header(lines_of(c0)) is Some,
        last_header(lines_of(c0))->Some_0.1 == today,
        forall|i: int| 0 <= i < lines_of(c0).len() ==> clean_line(#[trigger] lines_of(c0)[i]),
        tag.len() > 0 && 'a' <= tag[0] && tag[0] <= 'z',
        t.len() > 0,
        clean_line(t),
        w >= lines_of(c0).len() + 1,
        add_task_post(c0, today, tag, t, w, s0, r, s1),
        r is Ok,
    ensures
        ({
            let c = counter(s0, tag);
            let m = max_number(flat(parse_spec(c0, w)), tag);
            let n = (if c < m {
                m
            } else {
                c
            }) + 1;
            &&& r->Ok_0.0@ == id_of(tag, n as u64)
            &&& counter(s1, tag) == n
            &&& max_number(flat(parse_spec(r->Ok_0.1@, w)), tag) == n
        }),
        lines_of(r->Ok_0.1@).len() == lines_of(c0).len() + 1,
        last_header(lines_of(r->Ok_0.1@)) is Some,
        last_header(lines_of(r->Ok_0.1@))->Some_0.1 == today,
        forall|i: int|
            0 <= i < lines_of(r->Ok_0.1@).len() ==> clean_line(
                #[trigger] lines_of(r->Ok_0.1@)[i],
            ),
{
    let l0 = lines_of(c0);
    assert(ensure_spec(c0, today) == c0);
    assert(l0.skip(0) =~= l0);
    assert(parse_spec(c0, w) == parse_lines(l0, 0));
    let c = counter(s0, tag);
    let m = max_number(flat(parse_lines(l0, 0)), tag);
    let top = if c < m {
        m
    } else {
        c
    };
    let n = (top + 1) as u64;
    let tl = task_line(id_of(tag, n), t);
    lemma_task_line_parses(tag, n, t);
    lemma_task_line_clean(tag, n, t);
    let l1 = l0.push(tl);
    assert forall|i: int| 0 <= i < l1.len() implies clean_line(#[trigger] l1[i]) by {
        if i < l0.len() {
            assert(l1[i] == l0[i]);
        }
    }
    lemma_lines_of_render(l1);
    let c1 = r->Ok_0.1@;
    assert(lines_of(c1) == l1);
    assert(l1.drop_last() =~= l0);
    assert(header_spec(tl) is None);
    assert(last_header(l1) == last_header(l0));
    assert(l1.skip(0) =~= l1);
    assert(window_start(l1.len(), w) == 0);
    assert(parse_spec(c1, w) == parse_lines(l1, 0));
    lemma_append_task(l0, tl, 0);
    assert(flat(parse_lines(l1, 0)).drop_last() =~= flat(parse_lines(l0, 0)));
}

/// `rs.len()` additions of `tag` one after another: call `j` runs on log
/// `cs[j]` and counters `ss[j]` with title `titles[j]`, and succeeds with log
/// `cs[j + 1]` and counters `ss[j + 1]`.
pub open spec fn added_in_turn(
    cs: Seq<Seq<char>>,
    today: Seq<char>,
    tag: Seq<char>,
    titles: Seq<Seq<char>>,
    w: nat,
    ss: Seq<Map<Seq<char>, u64>>,
    rs: Seq<Result<(String, String), TlError>>,
) -> bool {
    &&& cs.len() == rs.len() + 1
    &&& ss.len() == rs.len() + 1
    &&& titles.len() == rs.len()
    &&& forall|j: int|
        0 <= j < rs.len() ==> add_task_post(
            cs[j],
            today,
            tag,
            titles[j],
            w,
            ss[j],
            #[trigger] rs[j],
            ss[j + 1],
        ) && rs[j] is Ok && cs[j + 1] == rs[j]->Ok_0.1@
}

/// Additions of a new tag number its tasks 1, 2, 3, ... in turn. For a tag
/// that starts with a letter, has no counter and no task in the log, on a
/// log whose last section is today's, with clean lines, which the scan
/// window covers together with the new lines, and with clean non-empty
/// titles, call `j` gives the id `tag-(j + 1)`, and the counter ends at the
/// number of calls.
pub proof fn lemma_numbers_from_one(
    cs: Seq<Seq<char>>,
    today: Seq<char>,
    tag: Seq<char>,
    titles: Seq<Seq<char>>,
    w: nat,
    ss: Seq<Map<Seq<char>, u64>>,
    rs: Seq<Result<(String, String), TlError>>,
)
    requires
        added_in_turn(cs, today, tag, titles, w, ss, rs),
        last_header(lines_of(cs[0])) is Some,
        last_header(lines_of(cs[0]))->Some_0.1 == today,
        forall|i: int| 0 <= i < lines_of(cs[0]).len() ==> clean_line(#[trigger] lines_of(cs[0])[i]),
        tag.len() > 0 && 'a' <= tag[0] && tag[0] <= 'z',
        forall|j: int| 0 <= j < titles.len() ==> (#[trigger] titles[j]).len() > 0 && clean_line(titles[j]),
        !ss[0].contains_key(tag),
        max_number(flat(parse_spec(cs[0], w)), tag) == 0,
        w >= lines_of(cs[0]).len() + rs.len(),
    ensures
        forall|j: int| 0 <= j < rs.len() ==> (#[trigger] rs[j])->Ok_0.0@ == id_of(tag, (j + 1) as u64),
        counter(ss[rs.len() as int], tag) == rs.len(),
{
    lemma_numbers_prefix(cs, today, tag, titles, w, ss, rs, rs.len());
}

proof fn lemma_numbers_prefix(
    cs: Seq<Seq<char>>,
    today: Seq<char>,
    tag: Seq<char>,
    titles: Seq<Seq<char>>,
    w: nat,
    ss: Seq<Map<Seq<char>, u64>>,
    rs: Seq<Result<(String, String), TlError>>,
    i: nat,
)
    requires
        i <= rs.len(),
        added_in_turn(cs, today, tag, titles, w, ss, rs),
        last_header(lines_of(cs[0])) is Some,
        last_header(lines_of(cs[0]))->Some_0.1 == today,
        forall|k: int| 0 <= k < lines_of(cs[0]).len() ==> clean_line(#[trigger] lines_of(cs[0])[k]),
        tag.len() > 0 && 'a' <= tag[0] && tag[0] <= 'z',
        forall|j: int| 0 <= j < titles.len() ==> (#[trigger] titles[j]).len() > 0 && clean_line(titles[j]),
        !ss[0].contains_key(tag),
        max_number(flat(parse_spec(cs[0], w)), tag) == 0,
        w >= lines_of(cs[0]).len() + rs.len(),
    ensures
        forall|j: int| 0 <= j < i ==> (#[trigger] rs[j])->Ok_0.0@ == id_of(tag, (j + 1) as u64),
        counter(ss[i as int], tag) == i,
        max_number(flat(parse_spec(cs[i as int], w)), tag) == i,
        lines_of(cs[i as int]).len() == lines_of(cs[0]).len() + i,
        last_header(lines_of(cs[i as int])) is Some,
        last_header(lines_of(cs[i as int]))->Some_0.1 == today,
        forall|k: int|
            0 <= k < lines_of(cs[i as int]).len() ==> clean_line(#[trigger] lines_of(cs[i as int])[k]),
    decreases i,
{
    if i > 0 {
        let j = (i - 1) as int;
        lemma_numbers_prefix(cs, today, tag, titles, w, ss, rs, (i - 1) as nat);
        assert(add_task_post(cs[j], today, tag, titles[j], w, ss[j], rs[j], ss[j + 1]));
        assert(titles[j].len() > 0 && clean_line(titles[j]));
        lemma_one_addition(cs[j], today, tag, titles[j], w, ss[j], rs[j], ss[j + 1]);
    }
}

/// What a check appends to a task line's title.
pub open spec fn stamp_suffix(stamp: Seq<char>) -> Seq<char> {
    seq![' ', '('] + stamp + seq![')']
}

/// An open task line, checked, reads back as the same task, done, with the
/// stamp after its title.
#[verifier::rlimit(60)]
proof fn lemma_checked_line_parses(l: Seq<char>, stamp: Seq<char>)
    requires
        task_spec(l) is Some,
        !task_spec(l)->Some_0.done,
        forall|i: int| 0 <= i < stamp.len() ==> #[trigger] stamp[i] != '\n',
    ensures
        ws_run(l) + 6 < l.len(),
        header_spec(checked_line(l, stamp)) is None,
        task_spec(checked_line(l, stamp)) == Some(
            TaskParts {
                done: true,
                title: task_spec(l)->Some_0.title + stamp_suffix(stamp),
                ..task_spec(l)->Some_0
            },
        ),
{
    let p = task_spec(l)->Some_0;
    let a = ws_run(l) as int;
    let r = l.skip(a);
    let b = 6 + tag_run(r.skip(6)) as int;
    let e = b + 1 + digit_run(r.skip(b + 1)) as int;
    let suf = stamp_suffix(stamp);
    let l2 = checked_line(l, stamp);
    lemma_ws_run_le(l);
    assert(r.len() > 6 && b < r.len() && r[b] == '-' && e > b + 1 && e + 1 < r.len() && r[e]
        == ' ' && r[3] == ' ');
    assert(l2 == l.update(a + 3, 'x') + suf);
    assert forall|k: int| 0 <= k <= a implies #[trigger] l2[k] == l[k] by {}
    lemma_ws_run_same(l, l2);
    let r2 = l2.skip(a);
    assert forall|k: int| 0 <= k <= b - 6 implies #[trigger] r2.skip(6)[k] == r.skip(6)[k] by {
        assert(r2.skip(6)[k] == l2[a + 6 + k]);
        assert(r.skip(6)[k] == l[a + 6 + k]);
    }
    lemma_tag_run_same(r.skip(6), r2.skip(6));
    assert forall|k: int| 0 <= k <= e - b - 1 implies #[trigger] r2.skip(b + 1)[k] == r.skip(
        b + 1,
    )[k] by {
        assert(r2.skip(b + 1)[k] == l2[a + b + 1 + k]);
        assert(r.skip(b + 1)[k] == l[a + b + 1 + k]);
    }
    lemma_digit_run_same(r.skip(b + 1), r2.skip(b + 1));
    assert(r2.subrange(6, b) =~= r.subrange(6, b));
    assert(r2.subrange(b + 1, e) =~= r.subrange(b + 1, e));
    assert(r2.skip(e + 1) =~= r.skip(e + 1) + suf);
    assert(l2.take(a) =~= l.take(a));
    assert forall|i: int| 0 <= i < r2.skip(e + 1).len() implies #[trigger] r2.skip(e + 1)[i]
        != '\n' by {
        let tl = r.skip(e + 1);
        if i < tl.len() {
            assert(r2.skip(e + 1)[i] == tl[i]);
        } else if 2 <= i - tl.len() < 2 + stamp.len() {
            assert(r2.skip(e + 1)[i] == stamp[i - tl.len() - 2]);
        }
    }
    if l2.len() > 0 && l2[0] == '#' {
        assert(ws_run(l2) == 0);
        assert(l2[0] == r2[0]);
    }
}

/// Completing is not repeatable. On a log with clean lines, all of which the
/// scan window covers, after a completion (with a stamp of one line)
/// succeeds, completing the same id again on the new log fails with the
/// "already done" error, whatever its stamp.
pub proof fn lemma_complete_twice(
    c: Seq<char>,
    id: Seq<char>,
    s1: Seq<char>,
    s2: Seq<char>,
    w: nat,
    r1: Result<String, TlError>,
    r2: Result<String, TlError>,
)
    requires
        complete_post(c, id, s1, w, r1),
        r1 is Ok,
        complete_post(r1->Ok_0@, id, s2, w, r2),
        forall|i: int| 0 <= i < lines_of(c).len() ==> clean_line(#[trigger] lines_of(c)[i]),
        w >= lines_of(c).len(),
        forall|i: int| 0 <= i < s1.len() ==> #[trigger] s1[i] != '\n',
    ensures
        r2 is Err,
        r2->Err_0 is Other,
        r2->Err_0->Other_0@ == already_done_msg(id),
{
    let l = lines_of(c);
    assert(l.skip(0) =~= l);
    assert(window_start(l.len(), w) == 0);
    assert(parse_spec(c, w) == parse_lines(l, 0));
    let m = tasks_with_id(parse_spec(c, w), id);
    let t = m[0];
    lemma_found_at(c, w, id);
    let ln = t.line_number;
    let x = checked_line(l[ln as int], s1);
    lemma_checked_line_parses(l[ln as int], s1);
    let l2 = l.update(ln as int, x);
    assert(clean_line(x)) by {
        let old_line = l[ln as int];
        assert(clean_line(old_line));
        let a = ws_run(old_line) as int;
        let u = old_line.update(a + 3, 'x');
        let suf = stamp_suffix(s1);
        assert(x == u + suf);
        assert forall|i: int| 0 <= i < x.len() implies #[trigger] x[i] != '\n' by {
            if i < u.len() {
                assert(x[i] == u[i]);
                if i != a + 3 {
                    assert(u[i] == old_line[i]);
                }
            } else if 2 <= i - u.len() < 2 + s1.len() {
                assert(x[i] == s1[i - u.len() - 2]);
            }
        }
        assert(x.last() == ')');
    }
    assert forall|i: int| 0 <= i < l2.len() implies clean_line(#[trigger] l2[i]) by {
        if i != ln {
            assert(l2[i] == l[i]);
        }
    }
    lemma_lines_of_render(l2);
    let c2 = r1->Ok_0@;
    assert(lines_of(c2) == l2);
    assert(l2.skip(0) =~= l2);
    assert(window_start(l2.len(), w) == 0);
    assert(parse_spec(c2, w) == parse_lines(l2, 0));
    lemma_check_line(l, x, ln, stamp_suffix(s1), id);
    assert(m =~= seq![t]);
    assert(checked_tasks(ln, stamp_suffix(s1), seq![t]) =~= seq![checked(ln, stamp_suffix(s1), t)]);
}

/// Numbers found in the log but missing from the counter are taken into
/// account. On a log whose last section is today's, with clean lines, all of
/// which the scan window covers, whose highest number of the tag is `m`,
/// with a counter for the tag of at most `m`, a tag that starts with a
/// letter and a clean non-empty title: the addition gives `tag-(m + 1)`,
/// sets the counter to `m + 1`, and the new log is the old lines followed by
/// the new task line.
pub proof fn lemma_reconciles_with_log(
    c0: Seq<char>,
    today: Seq<char>,
    tag: Seq<char>,
    t: Seq<char>,
    w: nat,
    s0: Map<Seq<char>, u64>,
    r: Result<(String, String), TlError>,
    s1: Map<Seq<char>, u64>,
)
    requires
        last_header(lines_of(c0)) is Some,
        last_header(lines_of(c0))->Some_0.1 == today,
        forall|i: int| 0 <= i < lines_of(c0).len() ==> clean_line(#[trigger] lines_of(c0)[i]),
        tag.len() > 0 && 'a' <= tag[0] && tag[0] <= 'z',
        t.len() > 0,
        clean_line(t),
        w >= lines_of(c0).len() + 1,
        counter(s0, tag) <= max_number(flat(parse_spec(c0, w)), tag),
        add_task_post(c0, today, tag, t, w, s0, r, s1),
        r is Ok,
    ensures
        ({
            let n = (max_number(flat(parse_spec(c0, w)), tag) + 1) as u64;
            &&& r->Ok_0.0@ == id_of(tag, n)
            &&& counter(s1, tag) == n
            &&& lines_of(r->Ok_0.1@) == lines_of(c0).push(task_line(id_of(tag, n), t))
        }),
{
    lemma_one_addition(c0, today, tag, t, w, s0, r, s1);
    let n = (max_number(flat(parse_spec(c0, w)), tag) + 1) as u64;
    let l1 = lines_of(c0).push(task_line(id_of(tag, n), t));
    lemma_task_line_clean(tag, n, t);
    assert forall|i: int| 0 <= i < l1.len() implies clean_line(#[trigger] l1[i]) by {
        if i < lines_of(c0).len() {
            assert(l1[i] == lines_of(c0)[i]);
        }
    }
    assert(ensure_spec(c0, today) == c0);
    lemma_lines_of_render(l1);
}

} // verus!
