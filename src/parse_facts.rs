//! Facts about what the scanner reports: each task stands for its own line
//! and was the open task right after its last line; a line appended at the
//! end, or a note line inserted after a task, changes the result in a way
//! stated here.
use crate::parser::{
    flat, flush, has_id, header_spec, id_of, is_tag_char, last_header, last_line_of,
    note_spec, parse_lines, scan, step, tag_run, task_spec, width, with_note, ws_run, NoteView,
    ScanState, TaskParts, TaskView, tasks_with_id,
};
use vstd::prelude::*;

verus! {

// ---------------------------------------------------------------- positions

/// `t` stands for the task line `ls[t.line_number - off]`, and its notes lie
/// after it, in order, within the lines.
pub open spec fn task_at(ls: Seq<Seq<char>>, off: nat, t: TaskView) -> bool {
    &&& off <= t.line_number < off + ls.len()
    &&& task_spec(ls[t.line_number - off]) == Some(
        TaskParts {
            indent: t.indent,
            done: t.done,
            tag: t.tag,
            number: t.number,
            title: t.title,
        },
    )
    &&& forall|k: int|
        0 <= k < t.notes.len() ==> t.line_number < (#[trigger] t.notes[k]).line_number < off
            + ls.len()
    &&& forall|k: int|
        0 <= k < t.notes.len() - 1 ==> (#[trigger] t.notes[k]).line_number < t.notes[k
            + 1].line_number
}

pub open spec fn all_at(ls: Seq<Seq<char>>, off: nat, secs: Seq<Seq<TaskView>>) -> bool {
    forall|i: int, j: int|
        0 <= i < secs.len() && 0 <= j < secs[i].len() ==> task_at(ls, off, #[trigger] secs[i][j])
}

pub open spec fn scan_ok(ls: Seq<Seq<char>>, off: nat, st: ScanState) -> bool {
    &&& all_at(ls, off, st.sections)
    &&& st.open matches Some(t) ==> task_at(ls, off, t)
}

proof fn lemma_task_at_grow(ls: Seq<Seq<char>>, x: Seq<char>, off: nat, t: TaskView)
    requires
        task_at(ls, off, t),
    ensures
        task_at(ls.push(x), off, t),
{
    assert(ls.push(x)[t.line_number - off] == ls[t.line_number - off]);
}

proof fn lemma_flush_ok(ls: Seq<Seq<char>>, off: nat, st: ScanState)
    requires
        scan_ok(ls, off, st),
    ensures
        scan_ok(ls, off, flush(st)),
{
    let f = flush(st);
    assert forall|i: int, j: int|
        0 <= i < f.sections.len() && 0 <= j < f.sections[i].len() implies task_at(
        ls,
        off,
        #[trigger] f.sections[i][j],
    ) by {
        if st.open is Some && st.sections.len() > 0 && i == st.sections.len() - 1 && j
            == st.sections[i].len() {
        } else {
        }
    }
}

proof fn lemma_lift_ok(prev: Seq<Seq<char>>, x: Seq<char>, off: nat, st: ScanState)
    requires
        scan_ok(prev, off, st),
    ensures
        scan_ok(prev.push(x), off, st),
{
    assert forall|i: int, j: int|
        0 <= i < st.sections.len() && 0 <= j < st.sections[i].len() implies task_at(
        prev.push(x),
        off,
        #[trigger] st.sections[i][j],
    ) by {
        lemma_task_at_grow(prev, x, off, st.sections[i][j]);
    }
    if let Some(t) = st.open {
        lemma_task_at_grow(prev, x, off, t);
    }
}

proof fn lemma_note_ok(prev: Seq<Seq<char>>, x: Seq<char>, off: nat, t: TaskView, text: Seq<char>)
    requires
        task_at(prev, off, t),
    ensures
        task_at(
            prev.push(x),
            off,
            TaskView {
                notes: t.notes.push(NoteView { line_number: off + prev.len(), text }),
                ..t
            },
        ),
{
    let ls = prev.push(x);
    let nt = TaskView { notes: t.notes.push(NoteView { line_number: off + prev.len(), text }), ..t };
    assert(ls[t.line_number - off] == prev[t.line_number - off]);
    assert forall|k: int| 0 <= k < nt.notes.len() implies nt.line_number < (
    #[trigger] nt.notes[k]).line_number < off + ls.len() by {
        if k < t.notes.len() {
            assert(nt.notes[k] == t.notes[k]);
        }
    }
    assert forall|k: int| 0 <= k < nt.notes.len() - 1 implies (
    #[trigger] nt.notes[k]).line_number < nt.notes[k + 1].line_number by {
        assert(nt.notes[k] == t.notes[k]);
        if k + 1 < t.notes.len() {
            assert(nt.notes[k + 1] == t.notes[k + 1]);
        }
    }
}

proof fn lemma_step_ok(prev: Seq<Seq<char>>, x: Seq<char>, off: nat, st: ScanState)
    requires
        scan_ok(prev, off, st),
    ensures
        scan_ok(prev.push(x), off, step(st, x, off + prev.len())),
{
    let ls = prev.push(x);
    let at = off + prev.len();
    lemma_lift_ok(prev, x, off, st);
    lemma_flush_ok(ls, off, st);
    let f = flush(st);
    assert(ls[at - off] == x);
    match header_spec(x) {
        Some(d) => {
            assert(all_at(ls, off, f.sections.push(seq![])));
        },
        None => match task_spec(x) {
            Some(p) => {},
            None => match note_spec(x) {
                Some(n) => match st.open {
                    Some(t) => {
                        if width(n.0) > width(t.indent) {
                            lemma_note_ok(prev, x, off, t, n.1);
                        }
                    },
                    None => {},
                },
                None => {},
            },
        },
    }
}

/// Every task the scanner reports stands for its own line.
pub proof fn lemma_scan_ok(ls: Seq<Seq<char>>, off: nat)
    ensures
        scan_ok(ls, off, scan(ls, off)),
    decreases ls.len(),
{
    if ls.len() > 0 {
        lemma_scan_ok(ls.drop_last(), off);
        lemma_step_ok(ls.drop_last(), ls.last(), off, scan(ls.drop_last(), off));
        assert(ls.drop_last().push(ls.last()) == ls);
    }
}

/// Every task of the sections stands for its own line.
pub proof fn lemma_parse_ok(ls: Seq<Seq<char>>, off: nat)
    ensures
        all_at(ls, off, parse_lines(ls, off)),
{
    lemma_scan_ok(ls, off);
    lemma_flush_ok(ls, off, scan(ls, off));
}

/// Each task of `flat(secs)` comes from some section.
pub proof fn lemma_flat_all_at(ls: Seq<Seq<char>>, off: nat, secs: Seq<Seq<TaskView>>)
    requires
        all_at(ls, off, secs),
    ensures
        forall|k: int| 0 <= k < flat(secs).len() ==> task_at(ls, off, #[trigger] flat(secs)[k]),
    decreases secs.len(),
{
    if secs.len() > 0 {
        let prev = secs.drop_last();
        assert forall|i: int, j: int|
            0 <= i < prev.len() && 0 <= j < prev[i].len() implies task_at(
            ls,
            off,
            #[trigger] prev[i][j],
        ) by {
            assert(prev[i] == secs[i]);
        }
        lemma_flat_all_at(ls, off, prev);
        let f = flat(secs);
        assert forall|k: int| 0 <= k < f.len() implies task_at(ls, off, #[trigger] f[k]) by {
            if k < flat(prev).len() {
                assert(f[k] == flat(prev)[k]);
            } else {
                let j = k - flat(prev).len();
                assert(f[k] == secs[secs.len() - 1][j]);
            }
        }
    }
}


// ---------------------------------------------------------------- appending

/// Closing the open task keeps the number of sections.
proof fn lemma_flush_len(st: ScanState)
    ensures
        flush(st).sections.len() == st.sections.len(),
{
}

/// A log with a header has at least one section.
pub proof fn lemma_sections_nonempty(ls: Seq<Seq<char>>, off: nat)
    requires
        last_header(ls) is Some,
    ensures
        scan(ls, off).sections.len() > 0,
    decreases ls.len(),
{
    let prev = scan(ls.drop_last(), off);
    lemma_flush_len(prev);
    if header_spec(ls.last()) is None {
        lemma_sections_nonempty(ls.drop_last(), off);
    }
}

pub proof fn lemma_flat_push_last(secs: Seq<Seq<TaskView>>, x: TaskView)
    requires
        secs.len() > 0,
    ensures
        flat(secs.update(secs.len() - 1, secs.last().push(x))) == flat(secs).push(x),
{
    let u = secs.update(secs.len() - 1, secs.last().push(x));
    assert(u.drop_last() =~= secs.drop_last());
    assert(flat(u) =~= flat(secs).push(x));
}

/// The task that a task line opens at position `at`.
pub open spec fn opened(p: TaskParts, at: nat, date: Seq<char>) -> TaskView {
    TaskView {
        line_number: at,
        indent: p.indent,
        done: p.done,
        tag: p.tag,
        number: p.number,
        title: p.title,
        notes: seq![],
        date,
    }
}

/// A task line appended to a log with a header joins its last section.
pub proof fn lemma_append_task(ls: Seq<Seq<char>>, tl: Seq<char>, off: nat)
    requires
        last_header(ls) is Some,
        task_spec(tl) is Some,
    ensures
        flat(parse_lines(ls.push(tl), off)) == flat(parse_lines(ls, off)).push(
            opened(task_spec(tl)->Some_0, off + ls.len(), scan(ls, off).date),
        ),
        scan(ls.push(tl), off).sections.len() > 0,
{
    let st = scan(ls, off);
    lemma_sections_nonempty(ls, off);
    let ls2 = ls.push(tl);
    assert(ls2.drop_last() =~= ls);
    assert(ls2.last() == tl);
    assert(header_spec(tl) is None) by {
        if tl.len() > 0 && tl[0] == '#' {
            assert(ws_run(tl) == 0);
        }
    }
    let f = flush(st);
    lemma_flush_len(st);
    let nt = opened(task_spec(tl)->Some_0, off + ls.len(), st.date);
    assert(scan(ls2, off) == ScanState { sections: f.sections, open: Some(nt), date: st.date });
    lemma_flat_push_last(f.sections, nt);
}

/// A note line deeper than a task line right before it becomes that task's
/// one note.
pub proof fn lemma_append_task_note(
    ls: Seq<Seq<char>>,
    tl: Seq<char>,
    nl: Seq<char>,
    off: nat,
)
    requires
        last_header(ls) is Some,
        task_spec(tl) is Some,
        header_spec(nl) is None,
        task_spec(nl) is None,
        note_spec(nl) is Some,
        width(note_spec(nl)->Some_0.0) > width(task_spec(tl)->Some_0.indent),
    ensures
        flat(parse_lines(ls.push(tl).push(nl), off)) == flat(parse_lines(ls, off)).push(
            TaskView {
                notes: seq![NoteView { line_number: off + ls.len() + 1, text: note_spec(nl)->Some_0.1 }],
                ..opened(task_spec(tl)->Some_0, off + ls.len(), scan(ls, off).date)
            },
        ),
{
    let st = scan(ls, off);
    lemma_sections_nonempty(ls, off);
    let ls2 = ls.push(tl);
    let ls3 = ls2.push(nl);
    assert(ls2.drop_last() =~= ls);
    assert(ls3.drop_last() =~= ls2);
    assert(header_spec(tl) is None) by {
        if tl.len() > 0 && tl[0] == '#' {
            assert(ws_run(tl) == 0);
        }
    }
    let f = flush(st);
    lemma_flush_len(st);
    let nt = opened(task_spec(tl)->Some_0, off + ls.len(), st.date);
    assert(scan(ls2, off) == ScanState { sections: f.sections, open: Some(nt), date: st.date });
    let nn = TaskView {
        notes: seq![NoteView { line_number: off + ls.len() + 1, text: note_spec(nl)->Some_0.1 }],
        ..nt
    };
    assert(nt.notes.push(NoteView { line_number: off + ls.len() + 1, text: note_spec(nl)->Some_0.1 }) =~= nn.notes);
    assert(scan(ls3, off) == ScanState { sections: f.sections, open: Some(nn), date: st.date });
    lemma_flat_push_last(f.sections, nn);
}


proof fn lemma_tag_run_chars(s: Seq<char>)
    ensures
        tag_run(s) <= s.len(),
        forall|k: int| 0 <= k < tag_run(s) ==> is_tag_char(#[trigger] s[k]),
    decreases s.len(),
{
    if s.len() > 0 && is_tag_char(s[0]) {
        lemma_tag_run_chars(s.drop_first());
        assert forall|k: int| 0 <= k < tag_run(s) implies is_tag_char(#[trigger] s[k]) by {
            if k > 0 {
                assert(s[k] == s.drop_first()[k - 1]);
            }
        }
    }
}

/// The tag of a task line is made of lowercase letters and digits.
pub proof fn lemma_task_tag_chars(l: Seq<char>)
    requires
        task_spec(l) is Some,
    ensures
        forall|i: int|
            0 <= i < task_spec(l)->Some_0.tag.len() ==> is_tag_char(
                #[trigger] task_spec(l)->Some_0.tag[i],
            ),
{
    let a = ws_run(l) as int;
    let r = l.skip(a);
    lemma_tag_run_chars(r.skip(6));
    let tag = task_spec(l)->Some_0.tag;
    assert forall|i: int| 0 <= i < tag.len() implies is_tag_char(#[trigger] tag[i]) by {
        assert(tag[i] == r.skip(6)[i]);
    }
}

/// No task of `ts` has the id `id`, so none is found.
pub proof fn lemma_filter_none(ts: Seq<TaskView>, id: Seq<char>)
    requires
        forall|k: int| 0 <= k < ts.len() ==> id_of((#[trigger] ts[k]).tag, ts[k].number) != id,
    ensures
        ts.filter(has_id(id)) == Seq::<TaskView>::empty(),
    decreases ts.len(),
{
    reveal(Seq::filter);
    if ts.len() > 0 {
        assert forall|k: int| 0 <= k < ts.drop_last().len() implies id_of(
            (#[trigger] ts.drop_last()[k]).tag,
            ts.drop_last()[k].number,
        ) != id by {
            assert(ts.drop_last()[k] == ts[k]);
        }
        lemma_filter_none(ts.drop_last(), id);
        assert(!has_id(id)(ts.last()));
    } else {
        assert(ts.filter(has_id(id)) =~= Seq::<TaskView>::empty());
    }
}


/// Closed tasks end before line `end - 1`; the open one ends before `end`.
pub open spec fn ends_before(st: ScanState, end: nat) -> bool {
    &&& forall|i: int, j: int|
        0 <= i < st.sections.len() && 0 <= j < st.sections[i].len() ==> last_line_of(
            #[trigger] st.sections[i][j],
        ) + 1 < end
    &&& st.open matches Some(t) ==> last_line_of(t) < end
}

proof fn lemma_step_ends(st: ScanState, x: Seq<char>, at: nat)
    requires
        ends_before(st, at),
    ensures
        ends_before(step(st, x, at), at + 1),
{
    let f = flush(st);
    assert forall|i: int, j: int|
        0 <= i < f.sections.len() && 0 <= j < f.sections[i].len() implies last_line_of(
        #[trigger] f.sections[i][j],
    ) + 1 < at + 1 by {
        if st.open is Some && st.sections.len() > 0 && i == st.sections.len() - 1 && j
            == st.sections[i].len() {
        } else {
        }
    }
    match header_spec(x) {
        Some(d) => {
            assert(ends_before(step(st, x, at), at + 1));
        },
        None => {},
    }
}

/// Tasks already closed end before the last line scanned; the open one ends
/// at it at the latest.
pub proof fn lemma_scan_ends(ls: Seq<Seq<char>>, off: nat)
    ensures
        ends_before(scan(ls, off), off + ls.len()),
    decreases ls.len(),
{
    if ls.len() > 0 {
        lemma_scan_ends(ls.drop_last(), off);
        lemma_step_ends(scan(ls.drop_last(), off), ls.last(), (off + ls.len() - 1) as nat);
    }
}



// ---------------------------------------------------------------- history

/// Every task, as it now stands, was the open task right after its last line.
pub open spec fn seen_open(ls: Seq<Seq<char>>, off: nat, v: TaskView) -> bool {
    off <= last_line_of(v) < off + ls.len() && scan(ls.take(last_line_of(v) + 1 - off), off).open
        == Some(v)
}

pub open spec fn history_ok(ls: Seq<Seq<char>>, off: nat, st: ScanState) -> bool {
    &&& forall|i: int, j: int|
        0 <= i < st.sections.len() && 0 <= j < st.sections[i].len() ==> seen_open(
            ls,
            off,
            #[trigger] st.sections[i][j],
        )
    &&& st.open matches Some(t) ==> seen_open(ls, off, t)
}

proof fn lemma_seen_open_grow(ls: Seq<Seq<char>>, x: Seq<char>, off: nat, v: TaskView)
    requires
        seen_open(ls, off, v),
    ensures
        seen_open(ls.push(x), off, v),
{
    let k = last_line_of(v) + 1 - off;
    assert(ls.push(x).take(k) =~= ls.take(k));
}

proof fn lemma_history_step(prev: Seq<Seq<char>>, x: Seq<char>, off: nat, st: ScanState)
    requires
        history_ok(prev, off, st),
        st == scan(prev, off),
    ensures
        history_ok(prev.push(x), off, step(st, x, off + prev.len())),
{
    let ls = prev.push(x);
    let at = off + prev.len();
    assert(ls.take(ls.len() as int) =~= ls);
    assert(ls.drop_last() =~= prev);
    let nx = step(st, x, at);
    assert(scan(ls, off) == nx);
    assert forall|i: int, j: int|
        0 <= i < st.sections.len() && 0 <= j < st.sections[i].len() implies seen_open(
        ls,
        off,
        #[trigger] st.sections[i][j],
    ) by {
        lemma_seen_open_grow(prev, x, off, st.sections[i][j]);
    }
    if let Some(t) = st.open {
        lemma_seen_open_grow(prev, x, off, t);
    }
    let f = flush(st);
    assert forall|i: int, j: int|
        0 <= i < f.sections.len() && 0 <= j < f.sections[i].len() implies seen_open(
        ls,
        off,
        #[trigger] f.sections[i][j],
    ) by {
        if st.open is Some && st.sections.len() > 0 && i == st.sections.len() - 1 && j
            == st.sections[i].len() {
        } else {
        }
    }
    if let Some(o) = nx.open {
        if last_line_of(o) == at {
            assert(ls.take(last_line_of(o) + 1 - off) =~= ls);
        }
    }
    match header_spec(x) {
        Some(d) => {
            assert(history_ok(ls, off, nx));
        },
        None => {},
    }
}

/// Each task of the scan was the open task right after its last line.
pub proof fn lemma_history(ls: Seq<Seq<char>>, off: nat)
    ensures
        history_ok(ls, off, scan(ls, off)),
    decreases ls.len(),
{
    if ls.len() > 0 {
        lemma_history(ls.drop_last(), off);
        lemma_history_step(ls.drop_last(), ls.last(), off, scan(ls.drop_last(), off));
        assert(ls.drop_last().push(ls.last()) == ls);
    }
}


/// The open task starts after every closed one.
pub open spec fn open_newest(st: ScanState) -> bool {
    st.open matches Some(o) ==> forall|i: int, j: int|
        0 <= i < st.sections.len() && 0 <= j < st.sections[i].len() ==> (
        #[trigger] st.sections[i][j]).line_number < o.line_number
}

proof fn lemma_ln_le_last(ls: Seq<Seq<char>>, off: nat, v: TaskView)
    requires
        task_at(ls, off, v),
    ensures
        v.line_number <= last_line_of(v),
{
    if v.notes.len() > 0 {
        assert(v.line_number < v.notes[v.notes.len() - 1].line_number);
    }
}

proof fn lemma_flush_before(ls: Seq<Seq<char>>, off: nat, st: ScanState)
    requires
        ends_before(st, off + ls.len()),
        scan_ok(ls, off, st),
    ensures
        forall|i: int, j: int|
            0 <= i < flush(st).sections.len() && 0 <= j < flush(st).sections[i].len() ==> (
            #[trigger] flush(st).sections[i][j]).line_number < off + ls.len(),
{
    let at = off + ls.len();
    let f = flush(st);
    assert forall|i: int, j: int|
        0 <= i < f.sections.len() && 0 <= j < f.sections[i].len() implies (
        #[trigger] f.sections[i][j]).line_number < at by {
        let v = f.sections[i][j];
        if st.open is Some && st.sections.len() > 0 && i == st.sections.len() - 1 && j
            == st.sections[i].len() {
            assert(v == st.open->Some_0);
        } else {
            assert(v == st.sections[i][j]);
        }
        lemma_ln_le_last(ls, off, v);
    }
}

proof fn lemma_newest_step(ls: Seq<Seq<char>>, off: nat, st: ScanState, x: Seq<char>)
    requires
        open_newest(st),
        ends_before(st, off + ls.len()),
        scan_ok(ls, off, st),
    ensures
        open_newest(step(st, x, off + ls.len())),
{
    let at = off + ls.len();
    lemma_flush_before(ls, off, st);
    let nx = step(st, x, at);
    if header_spec(x) is None && task_spec(x) is Some {
        assert(nx.sections == flush(st).sections);
        assert(nx.open->Some_0.line_number == at);
    }
}

/// In every scan the open task starts after every closed one.
pub proof fn lemma_scan_newest(ls: Seq<Seq<char>>, off: nat)
    ensures
        open_newest(scan(ls, off)),
    decreases ls.len(),
{
    if ls.len() > 0 {
        let prev = ls.drop_last();
        lemma_scan_newest(prev, off);
        lemma_scan_ends(prev, off);
        lemma_scan_ok(prev, off);
        lemma_newest_step(prev, off, scan(prev, off), ls.last());
    }
}


// ---------------------------------------------------------------- inserting a line

/// A line inserted at position `p`: later lines move down by one, and the
/// task that starts on line `u` gets the note `np` as its note number `k`.
pub struct Insertion {
    pub p: nat,
    pub u: nat,
    pub k: nat,
    pub np: NoteView,
}

pub open spec fn moved(g: Insertion, n: nat) -> nat {
    if n >= g.p {
        n + 1
    } else {
        n
    }
}

pub open spec fn moved_note(g: Insertion, n: NoteView) -> NoteView {
    NoteView { line_number: moved(g, n.line_number), text: n.text }
}

pub open spec fn moved_notes(g: Insertion, ns: Seq<NoteView>) -> Seq<NoteView> {
    ns.map_values(|n: NoteView| moved_note(g, n))
}

pub open spec fn moved_task(g: Insertion, v: TaskView) -> TaskView {
    TaskView {
        line_number: moved(g, v.line_number),
        notes: if v.line_number == g.u {
            moved_notes(g, v.notes).insert(g.k as int, g.np)
        } else {
            moved_notes(g, v.notes)
        },
        ..v
    }
}

pub open spec fn moved_tasks(g: Insertion, ts: Seq<TaskView>) -> Seq<TaskView> {
    ts.map_values(|v: TaskView| moved_task(g, v))
}

pub open spec fn moved_secs(g: Insertion, secs: Seq<Seq<TaskView>>) -> Seq<Seq<TaskView>> {
    secs.map_values(|s: Seq<TaskView>| moved_tasks(g, s))
}

pub open spec fn moved_state(g: Insertion, st: ScanState) -> ScanState {
    ScanState {
        sections: moved_secs(g, st.sections),
        open: match st.open {
            Some(v) => Some(moved_task(g, v)),
            None => None,
        },
        date: st.date,
    }
}

proof fn lemma_moved_flush(g: Insertion, st: ScanState)
    ensures
        flush(moved_state(g, st)) == moved_state(g, flush(st)),
{
    if let Some(v) = st.open {
        if st.sections.len() > 0 {
            let n = st.sections.len() - 1;
            let a = moved_secs(g, st.sections.update(n, st.sections.last().push(v)));
            let b = moved_secs(g, st.sections).update(
                n,
                moved_secs(g, st.sections).last().push(moved_task(g, v)),
            );
            assert(moved_tasks(g, st.sections.last().push(v)) =~= moved_tasks(
                g,
                st.sections.last(),
            ).push(moved_task(g, v)));
            assert(a =~= b);
        }
    }
}

/// The task open during the rest of the scan after the insertion keeps at
/// least `k` notes when it is the task that gets the new one.
pub open spec fn keeps_k(g: Insertion, st: ScanState) -> bool {
    st.open matches Some(v) ==> (v.line_number == g.u ==> v.notes.len() >= g.k)
}

proof fn lemma_moved_note_push(g: Insertion, v: TaskView, at: nat, text: Seq<char>)
    requires
        at >= g.p,
        v.line_number == g.u ==> v.notes.len() >= g.k,
    ensures
        moved_task(g, with_note(v, NoteView { line_number: at, text })) == with_note(
            moved_task(g, v),
            NoteView { line_number: at + 1, text },
        ),
{
    let a = NoteView { line_number: at, text };
    assert(moved_notes(g, v.notes.push(a)) =~= moved_notes(g, v.notes).push(
        NoteView { line_number: at + 1, text },
    ));
    if v.line_number == g.u {
        assert(moved_notes(g, v.notes).push(NoteView { line_number: at + 1, text }).insert(
            g.k as int,
            g.np,
        ) =~= moved_notes(g, v.notes).insert(g.k as int, g.np).push(
            NoteView { line_number: at + 1, text },
        ));
    }
}

/// After the inserted line, scanning the moved state one line further down
/// gives the moved result.
proof fn lemma_moved_step(g: Insertion, st: ScanState, x: Seq<char>, at: nat)
    requires
        at >= g.p,
        g.u < g.p,
        keeps_k(g, st),
    ensures
        step(moved_state(g, st), x, at + 1) == moved_state(g, step(st, x, at)),
        keeps_k(g, step(st, x, at)),
{
    lemma_moved_flush(g, st);
    let ms = moved_state(g, st);
    match header_spec(x) {
        Some(d) => {
            assert(moved_tasks(g, seq![]) =~= Seq::<TaskView>::empty());
            assert(moved_secs(g, flush(st).sections.push(seq![])) =~= moved_secs(
                g,
                flush(st).sections,
            ).push(seq![]));
        },
        None => match task_spec(x) {
            Some(p) => {
                let nt = opened(p, at, st.date);
                assert(moved_notes(g, nt.notes) =~= Seq::<NoteView>::empty());
                assert(moved_task(g, nt) == opened(p, at + 1, st.date));
            },
            None => match note_spec(x) {
                Some(n) => match st.open {
                    Some(v) => {
                        if width(n.0) > width(v.indent) {
                            lemma_moved_note_push(g, v, at, n.1);
                        }
                    },
                    None => {},
                },
                None => {},
            },
        },
    }
}


proof fn lemma_moved_unchanged(g: Insertion, v: TaskView)
    requires
        v.line_number < g.p,
        v.line_number != g.u,
        forall|k: int| 0 <= k < v.notes.len() ==> (#[trigger] v.notes[k]).line_number < g.p,
    ensures
        moved_task(g, v) == v,
{
    assert(moved_notes(g, v.notes) =~= v.notes);
}

proof fn lemma_step_deeper_note(st: ScanState, x: Seq<char>, at: nat)
    requires
        header_spec(x) is None,
        task_spec(x) is None,
        note_spec(x) is Some,
        st.open is Some,
        width(note_spec(x)->Some_0.0) > width(st.open->Some_0.indent),
    ensures
        step(st, x, at) == (ScanState {
            open: Some(
                with_note(st.open->Some_0, NoteView { line_number: at, text: note_spec(x)->Some_0.1 }),
            ),
            ..st
        }),
{
}

proof fn lemma_moved_closed_one(g: Insertion, pre: Seq<Seq<char>>, v: TaskView)
    requires
        g.p == pre.len(),
        task_at(pre, 0, v),
        v.line_number < g.u,
    ensures
        moved_task(g, v) == v,
{
    lemma_moved_unchanged(g, v);
}

proof fn lemma_moved_closed(g: Insertion, pre: Seq<Seq<char>>, t: TaskView)
    requires
        g.p == pre.len(),
        scan(pre, 0).open == Some(t),
        g.u == t.line_number,
    ensures
        moved_secs(g, scan(pre, 0).sections) == scan(pre, 0).sections,
{
    let st = scan(pre, 0);
    lemma_scan_ok(pre, 0);
    lemma_scan_newest(pre, 0);
    assert forall|i: int| 0 <= i < st.sections.len() implies moved_tasks(
        g,
        #[trigger] st.sections[i],
    ) =~= st.sections[i] by {
        assert forall|j: int| 0 <= j < st.sections[i].len() implies moved_task(
            g,
            #[trigger] st.sections[i][j],
        ) == st.sections[i][j] by {
            lemma_moved_closed_one(g, pre, st.sections[i][j]);
        }
    }
    assert(moved_secs(g, st.sections) =~= st.sections);
}

proof fn lemma_moved_before(g: Insertion, pre: Seq<Seq<char>>, t: TaskView)
    requires
        g.p == pre.len(),
        scan(pre, 0).open == Some(t),
        g.u == t.line_number,
        g.k == t.notes.len(),
    ensures
        moved_state(g, scan(pre, 0)) == (ScanState {
            open: Some(with_note(t, g.np)),
            ..scan(pre, 0)
        }),
        keeps_k(g, scan(pre, 0)),
        g.u < g.p,
{
    lemma_scan_ok(pre, 0);
    assert(task_at(pre, 0, t));
    lemma_moved_closed(g, pre, t);
    assert(moved_notes(g, t.notes) =~= t.notes);
    assert(t.notes.insert(g.k as int, g.np) =~= t.notes.push(g.np));
}

/// Right after the inserted note line, the scan of the new lines is the
/// moved scan of the old ones.
proof fn lemma_insert_base(ls: Seq<Seq<char>>, x: Seq<char>, g: Insertion, t: TaskView)
    requires
        0 < g.p <= ls.len(),
        scan(ls.take(g.p as int), 0).open == Some(t),
        g.u == t.line_number,
        g.k == t.notes.len(),
        header_spec(x) is None,
        task_spec(x) is None,
        note_spec(x) is Some,
        width(note_spec(x)->Some_0.0) > width(t.indent),
        g.np == (NoteView { line_number: g.p, text: note_spec(x)->Some_0.1 }),
    ensures
        step(scan(ls.take(g.p as int), 0), x, g.p) == moved_state(g, scan(ls.take(g.p as int), 0)),
        keeps_k(g, scan(ls.take(g.p as int), 0)),
        g.u < g.p,
{
    let pre = ls.take(g.p as int);
    lemma_step_deeper_note(scan(pre, 0), x, g.p);
    lemma_moved_before(g, pre, t);
}

/// From the inserted line on, the scan of the new lines one line further
/// down is the moved scan of the old ones.
proof fn lemma_insert_sim(ls: Seq<Seq<char>>, x: Seq<char>, g: Insertion, i: nat)
    requires
        0 < g.p <= i <= ls.len(),
        g.u < g.p,
        step(scan(ls.take(g.p as int), 0), x, g.p) == moved_state(g, scan(ls.take(g.p as int), 0)),
        keeps_k(g, scan(ls.take(g.p as int), 0)),
    ensures
        scan(ls.insert(g.p as int, x).take(i as int + 1), 0) == moved_state(g, scan(ls.take(i as int), 0)),
        keeps_k(g, scan(ls.take(i as int), 0)),
    decreases i - g.p,
{
    let l2 = ls.insert(g.p as int, x);
    if i == g.p {
        assert(l2.take(i as int + 1).drop_last() =~= ls.take(g.p as int));
        assert(l2.take(i as int + 1).last() == x);
    } else {
        lemma_insert_sim(ls, x, g, (i - 1) as nat);
        let prev = scan(ls.take(i - 1), 0);
        lemma_moved_step(g, prev, ls[i - 1], (i - 1) as nat);
        assert(l2.take(i as int + 1).drop_last() =~= l2.take(i as int));
        assert(l2.take(i as int + 1).last() == ls[i - 1]);
        assert(ls.take(i as int).drop_last() =~= ls.take(i - 1));
        assert(ls.take(i as int).last() == ls[i - 1]);
    }
}

proof fn lemma_flat_moved(g: Insertion, secs: Seq<Seq<TaskView>>)
    ensures
        flat(moved_secs(g, secs)) == moved_tasks(g, flat(secs)),
    decreases secs.len(),
{
    if secs.len() > 0 {
        lemma_flat_moved(g, secs.drop_last());
        assert(moved_secs(g, secs).drop_last() =~= moved_secs(g, secs.drop_last()));
        assert(moved_tasks(g, flat(secs)) =~= moved_tasks(g, flat(secs.drop_last())) + moved_tasks(
            g,
            secs.last(),
        ));
    } else {
        assert(moved_tasks(g, flat(secs)) =~= Seq::<TaskView>::empty());
    }
}

proof fn lemma_filter_moved(g: Insertion, ts: Seq<TaskView>, id: Seq<char>)
    ensures
        moved_tasks(g, ts).filter(has_id(id)) == moved_tasks(g, ts.filter(has_id(id))),
    decreases ts.len(),
{
    reveal(Seq::filter);
    if ts.len() > 0 {
        lemma_filter_moved(g, ts.drop_last(), id);
        assert(moved_tasks(g, ts).drop_last() =~= moved_tasks(g, ts.drop_last()));
        let f = ts.drop_last().filter(has_id(id));
        assert(moved_tasks(g, f.push(ts.last())) =~= moved_tasks(g, f).push(
            moved_task(g, ts.last()),
        ));
    } else {
        assert(moved_tasks(g, ts) =~= Seq::<TaskView>::empty());
        assert(moved_tasks(g, ts.filter(has_id(id))) =~= Seq::<TaskView>::empty());
    }
}

/// Inserting a deeper note line right after a task's last line leaves the
/// scan as it was, with later lines moved down by one and the note added to
/// that task.
pub proof fn lemma_insert_note(ls: Seq<Seq<char>>, x: Seq<char>, t: TaskView, id: Seq<char>)
    requires
        tasks_with_id(parse_lines(ls, 0), id) == seq![t],
        last_line_of(t) < ls.len(),
        header_spec(x) is None,
        task_spec(x) is None,
        note_spec(x) is Some,
        width(note_spec(x)->Some_0.0) > width(t.indent),
    ensures
        tasks_with_id(parse_lines(ls.insert(last_line_of(t) as int + 1, x), 0), id) == seq![
            with_note(t, NoteView { line_number: last_line_of(t) + 1, text: note_spec(x)->Some_0.1 }),
        ],
{
    let p = last_line_of(t) + 1;
    let g = Insertion {
        p,
        u: t.line_number,
        k: t.notes.len(),
        np: NoteView { line_number: p, text: note_spec(x)->Some_0.1 },
    };
    let st = scan(ls, 0);
    let f = flat(parse_lines(ls, 0));
    lemma_open_at_last(ls, t, id);
    assert(ls.take(p as int) == ls.take(last_line_of(t) + 1 - 0));
    lemma_insert_base(ls, x, g, t);
    lemma_insert_sim(ls, x, g, ls.len());
    let l2 = ls.insert(p as int, x);
    assert(l2.take(ls.len() as int + 1) =~= l2);
    assert(ls.take(ls.len() as int) =~= ls);
    lemma_moved_flush(g, st);
    lemma_flat_moved(g, flush(st).sections);
    lemma_filter_moved(g, f, id);
    assert(moved_tasks(g, seq![t]) =~= seq![moved_task(g, t)]);
    lemma_moved_found(ls, g, t, id);
}

/// The task found by id was the open task right after its last line.
proof fn lemma_open_at_last(ls: Seq<Seq<char>>, t: TaskView, id: Seq<char>)
    requires
        tasks_with_id(parse_lines(ls, 0), id) == seq![t],
    ensures
        seen_open(ls, 0, t),
{
    let st = scan(ls, 0);
    let f = flat(parse_lines(ls, 0));
    let m = f.filter(has_id(id));
    assert(m[0] == t);
    assert(m.contains(t));
    f.lemma_filter_contains_rev(has_id(id), t);
    let kk = choose|kk: int| 0 <= kk < f.len() && f[kk] == t;
    lemma_history(ls, 0);
    lemma_flush_history(ls, st);
    lemma_flat_seen(ls, flush(st).sections);
    assert(seen_open(ls, 0, f[kk]));
}

/// The found task, moved, is the task with the note added.
#[verifier::rlimit(60)]
proof fn lemma_moved_found(ls: Seq<Seq<char>>, g: Insertion, t: TaskView, id: Seq<char>)
    requires
        tasks_with_id(parse_lines(ls, 0), id) == seq![t],
        g.p == last_line_of(t) + 1,
        g.u == t.line_number,
        g.k == t.notes.len(),
    ensures
        moved_task(g, t) == with_note(t, g.np),
{
    let st = scan(ls, 0);
    let f = flat(parse_lines(ls, 0));
    let m = f.filter(has_id(id));
    assert(m[0] == t);
    assert(m.contains(t));
    f.lemma_filter_contains_rev(has_id(id), t);
    let kk = choose|kk: int| 0 <= kk < f.len() && f[kk] == t;
    lemma_scan_ok(ls, 0);
    lemma_flush_ok(ls, 0, st);
    lemma_flat_all_at(ls, 0, flush(st).sections);
    assert(task_at(ls, 0, f[kk]));
    assert forall|k: int| 0 <= k < t.notes.len() implies (#[trigger] t.notes[k]).line_number < g.p by {
        if k < t.notes.len() - 1 {
            lemma_notes_increase(t, k);
        }
    }
    assert(moved_notes(g, t.notes) =~= t.notes);
    assert(t.notes.insert(g.k as int, g.np) =~= t.notes.push(g.np));
}

proof fn lemma_notes_increase(t: TaskView, k: int)
    requires
        0 <= k < t.notes.len(),
        forall|q: int|
            0 <= q < t.notes.len() - 1 ==> (#[trigger] t.notes[q]).line_number < t.notes[q
                + 1].line_number,
    ensures
        t.notes[k].line_number <= t.notes[t.notes.len() - 1].line_number,
    decreases t.notes.len() - k,
{
    if k < t.notes.len() - 1 {
        lemma_notes_increase(t, k + 1);
    }
}

proof fn lemma_flush_history(ls: Seq<Seq<char>>, st: ScanState)
    requires
        history_ok(ls, 0, st),
    ensures
        forall|i: int, j: int|
            0 <= i < flush(st).sections.len() && 0 <= j < flush(st).sections[i].len()
                ==> seen_open(ls, 0, #[trigger] flush(st).sections[i][j]),
{
    let f = flush(st);
    assert forall|i: int, j: int|
        0 <= i < f.sections.len() && 0 <= j < f.sections[i].len() implies seen_open(
        ls,
        0,
        #[trigger] f.sections[i][j],
    ) by {
        if st.open is Some && st.sections.len() > 0 && i == st.sections.len() - 1 && j
            == st.sections[i].len() {
        } else {
        }
    }
}

proof fn lemma_flat_seen(ls: Seq<Seq<char>>, secs: Seq<Seq<TaskView>>)
    requires
        forall|i: int, j: int|
            0 <= i < secs.len() && 0 <= j < secs[i].len() ==> seen_open(ls, 0, #[trigger] secs[i][j]),
    ensures
        forall|k: int| 0 <= k < flat(secs).len() ==> seen_open(ls, 0, #[trigger] flat(secs)[k]),
    decreases secs.len(),
{
    if secs.len() > 0 {
        let prev = secs.drop_last();
        assert forall|i: int, j: int|
            0 <= i < prev.len() && 0 <= j < prev[i].len() implies seen_open(
            ls,
            0,
            #[trigger] prev[i][j],
        ) by {
            assert(prev[i] == secs[i]);
        }
        lemma_flat_seen(ls, prev);
        let f = flat(secs);
        assert forall|k: int| 0 <= k < f.len() implies seen_open(ls, 0, #[trigger] f[k]) by {
            if k < flat(prev).len() {
                assert(f[k] == flat(prev)[k]);
            } else {
                assert(f[k] == secs[secs.len() - 1][k - flat(prev).len()]);
            }
        }
    }
}

// ---------------------------------------------------------------- checking a task

/// The task of line `ln`, checked: done, with `suffix` after its title.
pub open spec fn checked(ln: nat, suffix: Seq<char>, v: TaskView) -> TaskView {
    if v.line_number == ln {
        TaskView { done: true, title: v.title + suffix, ..v }
    } else {
        v
    }
}

pub open spec fn checked_tasks(ln: nat, suffix: Seq<char>, ts: Seq<TaskView>) -> Seq<TaskView> {
    ts.map_values(|v: TaskView| checked(ln, suffix, v))
}

pub open spec fn checked_secs(ln: nat, suffix: Seq<char>, secs: Seq<Seq<TaskView>>) -> Seq<
    Seq<TaskView>,
> {
    secs.map_values(|s: Seq<TaskView>| checked_tasks(ln, suffix, s))
}

pub open spec fn checked_state(ln: nat, suffix: Seq<char>, st: ScanState) -> ScanState {
    ScanState {
        sections: checked_secs(ln, suffix, st.sections),
        open: match st.open {
            Some(v) => Some(checked(ln, suffix, v)),
            None => None,
        },
        date: st.date,
    }
}

proof fn lemma_checked_flush(ln: nat, suffix: Seq<char>, st: ScanState)
    ensures
        flush(checked_state(ln, suffix, st)) == checked_state(ln, suffix, flush(st)),
{
    if let Some(v) = st.open {
        if st.sections.len() > 0 {
            let n = st.sections.len() - 1;
            assert(checked_tasks(ln, suffix, st.sections.last().push(v)) =~= checked_tasks(
                ln,
                suffix,
                st.sections.last(),
            ).push(checked(ln, suffix, v)));
            assert(checked_secs(ln, suffix, st.sections.update(n, st.sections.last().push(v)))
                =~= checked_secs(ln, suffix, st.sections).update(
                n,
                checked_secs(ln, suffix, st.sections).last().push(checked(ln, suffix, v)),
            ));
        }
    }
}

proof fn lemma_checked_step(ln: nat, suffix: Seq<char>, st: ScanState, x: Seq<char>, at: nat)
    requires
        at > ln,
    ensures
        step(checked_state(ln, suffix, st), x, at) == checked_state(ln, suffix, step(st, x, at)),
{
    lemma_checked_flush(ln, suffix, st);
    match header_spec(x) {
        Some(d) => {
            assert(checked_tasks(ln, suffix, seq![]) =~= Seq::<TaskView>::empty());
            assert(checked_secs(ln, suffix, flush(st).sections.push(seq![])) =~= checked_secs(
                ln,
                suffix,
                flush(st).sections,
            ).push(seq![]));
        },
        None => {},
    }
}

proof fn lemma_checked_before(ln: nat, suffix: Seq<char>, pre: Seq<Seq<char>>)
    requires
        pre.len() == ln,
    ensures
        checked_state(ln, suffix, scan(pre, 0)) == scan(pre, 0),
{
    let st = scan(pre, 0);
    lemma_scan_ok(pre, 0);
    assert forall|i: int| 0 <= i < st.sections.len() implies checked_tasks(
        ln,
        suffix,
        #[trigger] st.sections[i],
    ) =~= st.sections[i] by {
        assert forall|j: int| 0 <= j < st.sections[i].len() implies checked(
            ln,
            suffix,
            #[trigger] st.sections[i][j],
        ) == st.sections[i][j] by {
            assert(task_at(pre, 0, st.sections[i][j]));
        }
    }
    assert(checked_secs(ln, suffix, st.sections) =~= st.sections);
    if let Some(v) = st.open {
        assert(task_at(pre, 0, v));
    }
}

proof fn lemma_checked_sim(ls: Seq<Seq<char>>, x: Seq<char>, ln: nat, suffix: Seq<char>, i: nat)
    requires
        ln < i <= ls.len(),
        header_spec(x) is None,
        task_spec(ls[ln as int]) is Some,
        task_spec(x) == Some(
            TaskParts {
                done: true,
                title: task_spec(ls[ln as int])->Some_0.title + suffix,
                ..task_spec(ls[ln as int])->Some_0
            },
        ),
    ensures
        scan(ls.update(ln as int, x).take(i as int), 0) == checked_state(
            ln,
            suffix,
            scan(ls.take(i as int), 0),
        ),
    decreases i,
{
    let l2 = ls.update(ln as int, x);
    let j = (i - 1) as int;
    assert(l2.take(i as int).drop_last() =~= l2.take(j));
    assert(ls.take(i as int).drop_last() =~= ls.take(j));
    if j == ln {
        let pre = ls.take(j);
        assert(l2.take(j) =~= pre);
        lemma_checked_before(ln, suffix, pre);
        let st = scan(pre, 0);
        assert(header_spec(ls[j]) is None) by {
            let l = ls[j];
            if l.len() > 0 && l[0] == '#' {
                assert(ws_run(l) == 0);
            }
        }
        lemma_checked_flush(ln, suffix, st);
        assert(l2.take(i as int).last() == x);
        assert(ls.take(i as int).last() == ls[j]);
    } else {
        lemma_checked_sim(ls, x, ln, suffix, (i - 1) as nat);
        assert(l2.take(i as int).last() == ls[j]);
        assert(ls.take(i as int).last() == ls[j]);
        lemma_checked_step(ln, suffix, scan(ls.take(j), 0), ls[j], j as nat);
    }
}

proof fn lemma_flat_checked(ln: nat, suffix: Seq<char>, secs: Seq<Seq<TaskView>>)
    ensures
        flat(checked_secs(ln, suffix, secs)) == checked_tasks(ln, suffix, flat(secs)),
    decreases secs.len(),
{
    if secs.len() > 0 {
        lemma_flat_checked(ln, suffix, secs.drop_last());
        assert(checked_secs(ln, suffix, secs).drop_last() =~= checked_secs(
            ln,
            suffix,
            secs.drop_last(),
        ));
        assert(checked_tasks(ln, suffix, flat(secs)) =~= checked_tasks(
            ln,
            suffix,
            flat(secs.drop_last()),
        ) + checked_tasks(ln, suffix, secs.last()));
    } else {
        assert(checked_tasks(ln, suffix, flat(secs)) =~= Seq::<TaskView>::empty());
    }
}

proof fn lemma_filter_checked(ln: nat, suffix: Seq<char>, ts: Seq<TaskView>, id: Seq<char>)
    ensures
        checked_tasks(ln, suffix, ts).filter(has_id(id)) == checked_tasks(
            ln,
            suffix,
            ts.filter(has_id(id)),
        ),
    decreases ts.len(),
{
    reveal(Seq::filter);
    if ts.len() > 0 {
        lemma_filter_checked(ln, suffix, ts.drop_last(), id);
        assert(checked_tasks(ln, suffix, ts).drop_last() =~= checked_tasks(
            ln,
            suffix,
            ts.drop_last(),
        ));
        let f = ts.drop_last().filter(has_id(id));
        assert(checked_tasks(ln, suffix, f.push(ts.last())) =~= checked_tasks(ln, suffix, f).push(
            checked(ln, suffix, ts.last()),
        ));
    } else {
        assert(checked_tasks(ln, suffix, ts) =~= Seq::<TaskView>::empty());
        assert(checked_tasks(ln, suffix, ts.filter(has_id(id))) =~= Seq::<TaskView>::empty());
    }
}

/// Replacing task line `ln` by the same task line checked leaves the scan as
/// it was, with that task done and `suffix` after its title.
pub proof fn lemma_check_line(
    ls: Seq<Seq<char>>,
    x: Seq<char>,
    ln: nat,
    suffix: Seq<char>,
    id: Seq<char>,
)
    requires
        ln < ls.len(),
        header_spec(x) is None,
        task_spec(ls[ln as int]) is Some,
        task_spec(x) == Some(
            TaskParts {
                done: true,
                title: task_spec(ls[ln as int])->Some_0.title + suffix,
                ..task_spec(ls[ln as int])->Some_0
            },
        ),
    ensures
        tasks_with_id(parse_lines(ls.update(ln as int, x), 0), id) == checked_tasks(
            ln,
            suffix,
            tasks_with_id(parse_lines(ls, 0), id),
        ),
{
    lemma_checked_sim(ls, x, ln, suffix, ls.len());
    let l2 = ls.update(ln as int, x);
    assert(l2.take(ls.len() as int) =~= l2);
    assert(ls.take(ls.len() as int) =~= ls);
    let st = scan(ls, 0);
    lemma_checked_flush(ln, suffix, st);
    lemma_flat_checked(ln, suffix, flush(st).sections);
    lemma_filter_checked(ln, suffix, flat(flush(st).sections), id);
}

} // verus!
