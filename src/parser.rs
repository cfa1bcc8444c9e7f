//! The log's line grammar and the scanner that turns a log into dated
//! sections of tasks with their notes.
use crate::error::TlError;
use crate::text::{
    all_ws, chars_eq, chars_of, contains, contains_chars, dec_str, dec_value, join_lines, join_range,
    push_all, u64_to_dec, is_blank, is_digit, is_whitespace, is_ws, lines_of, parse_u64,
    split_lines, string_of, sub_vec, trim, trim_chars, views,
};
use vstd::prelude::*;
use vstd::string::StringExecFns;

verus! {

// ---------------------------------------------------------------- runs

/// Length of the leading run of whitespace.
pub open spec fn ws_run(s: Seq<char>) -> nat
    decreases s.len(),
{
    if s.len() > 0 && is_ws(s[0]) {
        1 + ws_run(s.drop_first())
    } else {
        0
    }
}

pub open spec fn is_tag_char(c: char) -> bool {
    ('a' <= c && c <= 'z') || is_digit(c)
}

/// Length of the leading run of lowercase letters and digits.
pub open spec fn tag_run(s: Seq<char>) -> nat
    decreases s.len(),
{
    if s.len() > 0 && is_tag_char(s[0]) {
        1 + tag_run(s.drop_first())
    } else {
        0
    }
}

/// Length of the leading run of ASCII digits.
pub open spec fn digit_run(s: Seq<char>) -> nat
    decreases s.len(),
{
    if s.len() > 0 && is_digit(s[0]) {
        1 + digit_run(s.drop_first())
    } else {
        0
    }
}

pub proof fn lemma_ws_run_at(s: Seq<char>, m: int)
    requires
        0 <= m <= s.len(),
        forall|k: int| 0 <= k < m ==> is_ws(#[trigger] s[k]),
        m == s.len() || !is_ws(s[m]),
    ensures
        ws_run(s) == m,
    decreases m,
{
    if m > 0 {
        lemma_ws_run_at(s.drop_first(), m - 1);
    }
}

pub proof fn lemma_tag_run_at(s: Seq<char>, m: int)
    requires
        0 <= m <= s.len(),
        forall|k: int| 0 <= k < m ==> is_tag_char(#[trigger] s[k]),
        m == s.len() || !is_tag_char(s[m]),
    ensures
        tag_run(s) == m,
    decreases m,
{
    if m > 0 {
        lemma_tag_run_at(s.drop_first(), m - 1);
    }
}

pub proof fn lemma_digit_run_at(s: Seq<char>, m: int)
    requires
        0 <= m <= s.len(),
        forall|k: int| 0 <= k < m ==> is_digit(#[trigger] s[k]),
        m == s.len() || !is_digit(s[m]),
    ensures
        digit_run(s) == m,
    decreases m,
{
    if m > 0 {
        lemma_digit_run_at(s.drop_first(), m - 1);
    }
}

/// Two texts that agree up to and including where the run of `s` stops have
/// runs of the same length.
pub proof fn lemma_ws_run_same(s: Seq<char>, t: Seq<char>)
    requires
        ws_run(s) < s.len(),
        ws_run(s) < t.len(),
        forall|k: int| 0 <= k <= ws_run(s) ==> #[trigger] t[k] == s[k],
    ensures
        ws_run(t) == ws_run(s),
    decreases s.len(),
{
    if ws_run(s) > 0 {
        assert forall|k: int| 0 <= k <= ws_run(s.drop_first()) implies #[trigger] t.drop_first()[k]
            == s.drop_first()[k] by {
            assert(t[k + 1] == s[k + 1]);
        }
        lemma_ws_run_same(s.drop_first(), t.drop_first());
    } else {
        assert(t[0] == s[0]);
    }
}

/// Two texts that agree up to and including where the run of `s` stops have
/// runs of the same length.
pub proof fn lemma_tag_run_same(s: Seq<char>, t: Seq<char>)
    requires
        tag_run(s) < s.len(),
        tag_run(s) < t.len(),
        forall|k: int| 0 <= k <= tag_run(s) ==> #[trigger] t[k] == s[k],
    ensures
        tag_run(t) == tag_run(s),
    decreases s.len(),
{
    if tag_run(s) > 0 {
        assert forall|k: int| 0 <= k <= tag_run(s.drop_first()) implies #[trigger] t.drop_first()[k]
            == s.drop_first()[k] by {
            assert(t[k + 1] == s[k + 1]);
        }
        lemma_tag_run_same(s.drop_first(), t.drop_first());
    } else {
        assert(t[0] == s[0]);
    }
}

/// Two texts that agree up to and including where the run of `s` stops have
/// runs of the same length.
pub proof fn lemma_digit_run_same(s: Seq<char>, t: Seq<char>)
    requires
        digit_run(s) < s.len(),
        digit_run(s) < t.len(),
        forall|k: int| 0 <= k <= digit_run(s) ==> #[trigger] t[k] == s[k],
    ensures
        digit_run(t) == digit_run(s),
    decreases s.len(),
{
    if digit_run(s) > 0 {
        assert forall|k: int| 0 <= k <= digit_run(s.drop_first()) implies #[trigger] t.drop_first()[k]
            == s.drop_first()[k] by {
            assert(t[k + 1] == s[k + 1]);
        }
        lemma_digit_run_same(s.drop_first(), t.drop_first());
    } else {
        assert(t[0] == s[0]);
    }
}

pub proof fn lemma_ws_run_le(s: Seq<char>)
    ensures
        ws_run(s) <= s.len(),
    decreases s.len(),
{
    if s.len() > 0 {
        lemma_ws_run_le(s.drop_first());
    }
}

/// No line feed in `s`.
pub open spec fn no_nl(s: Seq<char>) -> bool {
    forall|i: int| 0 <= i < s.len() ==> #[trigger] s[i] != '\n'
}

fn has_no_nl(s: &Vec<char>, from: usize) -> (r: bool)
    requires
        from <= s@.len(),
    ensures
        r == no_nl(s@.skip(from as int)),
{
    let mut i: usize = from;
    while i < s.len()
        invariant
            from <= i <= s@.len(),
            forall|k: int| from <= k < i ==> s@[k] != '\n',
        decreases s@.len() - i,
    {
        if s[i] == '\n' {
            assert(s@.skip(from as int)[i - from] == '\n');
            return false;
        }
        i += 1;
    }
    assert forall|k: int| 0 <= k < s@.skip(from as int).len() implies #[trigger] s@.skip(
        from as int,
    )[k] != '\n' by {
        assert(s@[from + k] != '\n');
    }
    true
}

/// End of the run that starts at `i`: whitespace (`kind` 0), tag characters
/// (1) or digits (2).
pub(crate) fn run_end(s: &Vec<char>, i: usize, kind: u8) -> (j: usize)
    requires
        i <= s@.len(),
        kind <= 2,
    ensures
        kind == 0 ==> j == i + ws_run(s@.skip(i as int)),
        kind == 1 ==> j == i + tag_run(s@.skip(i as int)),
        kind == 2 ==> j == i + digit_run(s@.skip(i as int)),
        kind == 2 ==> forall|k: int| i <= k < j ==> is_digit(#[trigger] s@[k]),
        i <= j <= s@.len(),
{
    let mut j: usize = i;
    while j < s.len() && in_run(s[j], kind)
        invariant
            i <= j <= s@.len(),
            kind <= 2,
            kind == 0 ==> forall|k: int| i <= k < j ==> is_ws(#[trigger] s@[k]),
            kind == 1 ==> forall|k: int| i <= k < j ==> is_tag_char(#[trigger] s@[k]),
            kind == 2 ==> forall|k: int| i <= k < j ==> is_digit(#[trigger] s@[k]),
        decreases s@.len() - j,
    {
        j += 1;
    }
    let ghost t = s@.skip(i as int);
    proof {
        if kind == 0 {
            assert forall|k: int| 0 <= k < j - i implies is_ws(#[trigger] t[k]) by {
                assert(t[k] == s@[i + k]);
            }
            lemma_ws_run_at(t, j - i);
        } else if kind == 1 {
            assert forall|k: int| 0 <= k < j - i implies is_tag_char(#[trigger] t[k]) by {
                assert(t[k] == s@[i + k]);
            }
            lemma_tag_run_at(t, j - i);
        } else {
            assert forall|k: int| 0 <= k < j - i implies is_digit(#[trigger] t[k]) by {
                assert(t[k] == s@[i + k]);
            }
            lemma_digit_run_at(t, j - i);
        }
    }
    j
}

fn in_run(c: char, kind: u8) -> (r: bool)
    ensures
        kind == 0 ==> r == is_ws(c),
        kind == 1 ==> r == is_tag_char(c),
        kind == 2 ==> r == is_digit(c),
{
    if kind == 0 {
        is_whitespace(c)
    } else if kind == 1 {
        is_tag_c(c)
    } else {
        is_digit_c(c)
    }
}

fn is_tag_c(c: char) -> (r: bool)
    ensures
        r == is_tag_char(c),
{
    ('a' <= c && c <= 'z') || ('0' <= c && c <= '9')
}

fn is_digit_c(c: char) -> (r: bool)
    ensures
        r == is_digit(c),
{
    '0' <= c && c <= '9'
}


// ---------------------------------------------------------------- grammar

/// A section header `### <date>`: the date is the rest of the line, trimmed.
pub open spec fn header_spec(l: Seq<char>) -> Option<Seq<char>> {
    if l.len() > 4 && l[0] == '#' && l[1] == '#' && l[2] == '#' && l[3] == ' ' && no_nl(
        l.skip(4),
    ) {
        Some(trim(l.skip(4)))
    } else {
        None
    }
}

/// The parts of a task line.
pub struct TaskParts {
    pub indent: Seq<char>,
    pub done: bool,
    pub tag: Seq<char>,
    pub number: u64,
    pub title: Seq<char>,
}

/// A task line `<indent>- [ ] <tag>-<number> <title>` (or `[x]`): the indent
/// is the leading whitespace, the tag a lowercase letter and then lowercase
/// letters or digits, the number ASCII digits whose value fits in 64 bits, the
/// title non-empty.
pub open spec fn task_spec(l: Seq<char>) -> Option<TaskParts> {
    let a = ws_run(l) as int;
    let r = l.skip(a);
    let b = 6 + tag_run(r.skip(6)) as int;
    let e = b + 1 + digit_run(r.skip(b + 1)) as int;
    if r.len() > 6 && r[0] == '-' && r[1] == ' ' && r[2] == '[' && (r[3] == ' ' || r[3] == 'x')
        && r[4] == ']' && r[5] == ' ' && 'a' <= r[6] && r[6] <= 'z' && b < r.len() && r[b] == '-'
        && e > b + 1 && e + 1 < r.len() && r[e] == ' ' && no_nl(r.skip(e + 1)) && dec_value(
        r.subrange(b + 1, e),
    ) <= u64::MAX {
        Some(
            TaskParts {
                indent: l.take(a),
                done: r[3] == 'x',
                tag: r.subrange(6, b),
                number: dec_value(r.subrange(b + 1, e)) as u64,
                title: r.skip(e + 1),
            },
        )
    } else {
        None
    }
}

/// A note-shaped line `<indent>- <text>`: a non-empty indent of whitespace
/// and a non-empty text; gives the indent and the text.
pub open spec fn note_spec(l: Seq<char>) -> Option<(Seq<char>, Seq<char>)> {
    let a = ws_run(l) as int;
    let r = l.skip(a);
    if a > 0 && r.len() > 2 && r[0] == '-' && r[1] == ' ' && no_nl(r.skip(2)) {
        Some((l.take(a), r.skip(2)))
    } else {
        None
    }
}

pub fn header_of(l: &Vec<char>) -> (r: Option<Vec<char>>)
    ensures
        match r {
            Some(d) => header_spec(l@) == Some(d@),
            None => header_spec(l@) is None,
        },
{
    if l.len() > 4 && l[0] == '#' && l[1] == '#' && l[2] == '#' && l[3] == ' ' && has_no_nl(l, 4) {
        let rest = sub_vec(l, 4, l.len());
        assert(rest@ =~= l@.skip(4));
        Some(trim_chars(&rest))
    } else {
        None
    }
}

#[verifier::rlimit(40)]
pub fn task_of(l: &Vec<char>) -> (r: Option<(Vec<char>, bool, Vec<char>, u64, Vec<char>)>)
    ensures
        match r {
            Some(x) => task_spec(l@) == Some(
                TaskParts { indent: x.0@, done: x.1, tag: x.2@, number: x.3, title: x.4@ },
            ),
            None => task_spec(l@) is None,
        },
{
    let n = l.len();
    let a = run_end(l, 0, 0);
    assert(l@.skip(0) =~= l@);
    let ghost r = l@.skip(a as int);
    if !(n - a > 6 && l[a] == '-' && l[a + 1] == ' ' && l[a + 2] == '[' && (l[a + 3] == ' ' || l[
        a + 3] == 'x') && l[a + 4] == ']' && l[a + 5] == ' ' && 'a' <= l[a + 6] && l[a + 6]
        <= 'z') {
        return None;
    }
    let b = run_end(l, a + 6, 1);
    assert(r.skip(6) =~= l@.skip(a + 6));
    if !(b < n && l[b] == '-') {
        return None;
    }
    let e = run_end(l, b + 1, 2);
    assert(r.skip(b - a + 1) =~= l@.skip(b + 1));
    if !(e > b + 1 && n - e > 1 && l[e] == ' ') {
        return None;
    }
    assert(r.skip(e - a + 1) =~= l@.skip(e + 1));
    if !has_no_nl(l, e + 1) {
        return None;
    }
    let digits = sub_vec(l, b + 1, e);
    assert(r.subrange(b - a + 1, e - a) =~= digits@);
    proof {
        assert forall|i: int| 0 <= i < digits@.len() implies is_digit(#[trigger] digits@[i]) by {
            assert(digits@[i] == l@[b + 1 + i]);
        }
    }
    match parse_u64(&digits) {
        None => None,
        Some(number) => {
            let indent = sub_vec(l, 0, a);
            let tag = sub_vec(l, a + 6, b);
            let title = sub_vec(l, e + 1, n);
            assert(indent@ =~= l@.take(a as int));
            assert(tag@ =~= r.subrange(6, b - a));
            assert(title@ =~= r.skip(e - a + 1));
            Some((indent, l[a + 3] == 'x', tag, number, title))
        },
    }
}

pub fn note_of(l: &Vec<char>) -> (r: Option<(Vec<char>, Vec<char>)>)
    ensures
        match r {
            Some(x) => note_spec(l@) == Some((x.0@, x.1@)),
            None => note_spec(l@) is None,
        },
{
    let n = l.len();
    let a = run_end(l, 0, 0);
    assert(l@.skip(0) =~= l@);
    let ghost r = l@.skip(a as int);
    if a > 0 && n - a > 2 && l[a] == '-' && l[a + 1] == ' ' && has_no_nl(l, a + 2) {
        assert(r.skip(2) =~= l@.skip(a + 2));
        let indent = sub_vec(l, 0, a);
        let text = sub_vec(l, a + 2, n);
        assert(indent@ =~= l@.take(a as int));
        assert(text@ =~= r.skip(2));
        Some((indent, text))
    } else {
        proof {
            if n - a > 2 {
                assert(r.skip(2) =~= l@.skip(a + 2));
            }
        }
        None
    }
}

/// The date of a section header line, or `None` when the line is no header.
pub fn is_section_header(line: &str) -> (r: Option<String>)
    ensures
        match r {
            Some(d) => header_spec(line@) == Some(d@),
            None => header_spec(line@) is None,
        },
{
    let l = chars_of(line);
    match header_of(&l) {
        Some(d) => Some(string_of(d.as_slice())),
        None => None,
    }
}

/// The indent, done flag, tag, number and title of a task line, or `None`.
pub fn parse_task_line(line: &str) -> (r: Option<(String, bool, String, u64, String)>)
    ensures
        match r {
            Some(x) => task_spec(line@) == Some(
                TaskParts { indent: x.0@, done: x.1, tag: x.2@, number: x.3, title: x.4@ },
            ),
            None => task_spec(line@) is None,
        },
{
    let l = chars_of(line);
    match task_of(&l) {
        Some(x) => Some(
            (
                string_of(x.0.as_slice()),
                x.1,
                string_of(x.2.as_slice()),
                x.3,
                string_of(x.4.as_slice()),
            ),
        ),
        None => None,
    }
}

/// The indent and text of a note-shaped line, or `None`.
pub fn is_note_line(line: &str) -> (r: Option<(String, String)>)
    ensures
        match r {
            Some(x) => note_spec(line@) == Some((x.0@, x.1@)),
            None => note_spec(line@) is None,
        },
{
    let l = chars_of(line);
    match note_of(&l) {
        Some(x) => Some((string_of(x.0.as_slice()), string_of(x.1.as_slice()))),
        None => None,
    }
}


// ---------------------------------------------------------------- data

/// A note under a task: its line in the whole document and its text.
pub struct Note {
    pub line_number: usize,
    pub text: String,
}

pub struct NoteView {
    pub line_number: nat,
    pub text: Seq<char>,
}

impl View for Note {
    type V = NoteView;

    open spec fn view(&self) -> NoteView {
        NoteView { line_number: self.line_number as nat, text: self.text@ }
    }
}

impl Clone for Note {
    fn clone(&self) -> (r: Note)
        ensures
            r@ == self@,
    {
        Note { line_number: self.line_number, text: self.text.clone() }
    }
}

/// A task line with the notes nested under it.
pub struct Task {
    pub line_number: usize,
    pub indent: String,
    pub done: bool,
    pub tag: String,
    pub number: u64,
    pub title: String,
    pub notes: Vec<Note>,
    pub date: String,
}

pub struct TaskView {
    pub line_number: nat,
    pub indent: Seq<char>,
    pub done: bool,
    pub tag: Seq<char>,
    pub number: u64,
    pub title: Seq<char>,
    pub notes: Seq<NoteView>,
    pub date: Seq<char>,
}

pub open spec fn notes_view(v: Seq<Note>) -> Seq<NoteView> {
    v.map_values(|n: Note| n@)
}

impl View for Task {
    type V = TaskView;

    open spec fn view(&self) -> TaskView {
        TaskView {
            line_number: self.line_number as nat,
            indent: self.indent@,
            done: self.done,
            tag: self.tag@,
            number: self.number,
            title: self.title@,
            notes: notes_view(self.notes@),
            date: self.date@,
        }
    }
}

impl Clone for Task {
    fn clone(&self) -> (r: Task)
        ensures
            r@ == self@,
    {
        let mut notes: Vec<Note> = Vec::new();
        let mut i: usize = 0;
        while i < self.notes.len()
            invariant
                i <= self.notes@.len(),
                notes_view(notes@) == notes_view(self.notes@).take(i as int),
            decreases self.notes@.len() - i,
        {
            let n = self.notes[i].clone();
            assert(n@ == self.notes@[i as int]@);
            assert(notes_view(notes@.push(n)) =~= notes_view(notes@).push(n@));
            assert(notes_view(self.notes@).take(i + 1) =~= notes_view(self.notes@).take(
                i as int,
            ).push(self.notes@[i as int]@));
            notes.push(n);
            i += 1;
        }
        assert(notes_view(self.notes@).take(i as int) =~= notes_view(self.notes@));
        Task {
            line_number: self.line_number,
            indent: self.indent.clone(),
            done: self.done,
            tag: self.tag.clone(),
            number: self.number,
            title: self.title.clone(),
            notes,
            date: self.date.clone(),
        }
    }
}

/// The tasks under one date header, in order.
pub struct Section {
    pub tasks: Vec<Task>,
}

pub open spec fn tasks_view(v: Seq<Task>) -> Seq<TaskView> {
    v.map_values(|t: Task| t@)
}

impl View for Section {
    type V = Seq<TaskView>;

    open spec fn view(&self) -> Seq<TaskView> {
        tasks_view(self.tasks@)
    }
}

pub open spec fn sections_view(v: Seq<Section>) -> Seq<Seq<TaskView>> {
    v.map_values(|s: Section| s@)
}

/// The last line of a task: its last note's, or its own when it has none.
pub open spec fn last_line_of(t: TaskView) -> nat {
    if t.notes.len() == 0 {
        t.line_number
    } else {
        t.notes.last().line_number
    }
}

/// The task with one more note.
pub open spec fn with_note(v: TaskView, n: NoteView) -> TaskView {
    TaskView { notes: v.notes.push(n), ..v }
}

// ---------------------------------------------------------------- scanning

/// Bytes that a character takes in UTF-8.
pub open spec fn char_width(c: char) -> nat {
    if (c as u32) < 0x80 {
        1
    } else if (c as u32) < 0x800 {
        2
    } else if (c as u32) < 0x10000 {
        3
    } else {
        4
    }
}

/// Bytes that a string takes in UTF-8: how deep an indent is.
pub open spec fn width(s: Seq<char>) -> nat
    decreases s.len(),
{
    if s.len() == 0 {
        0
    } else {
        width(s.drop_last()) + char_width(s.last())
    }
}

fn width_of(s: &Vec<char>) -> (r: u128)
    ensures
        r == width(s@),
{
    let mut w: u128 = 0;
    let mut i: usize = 0;
    assert(s@.take(0) =~= Seq::<char>::empty());
    while i < s.len()
        invariant
            i <= s@.len(),
            w == width(s@.take(i as int)),
            w <= 4 * i,
        decreases s@.len() - i,
    {
        let u = s[i] as u32;
        let c: u128 = if u < 0x80 {
            1
        } else if u < 0x800 {
            2
        } else if u < 0x10000 {
            3
        } else {
            4
        };
        assert(s@.take(i + 1).drop_last() =~= s@.take(i as int));
        w = w + c;
        i += 1;
    }
    assert(s@.take(i as int) =~= s@);
    w
}

/// What the scanner holds between two lines: the sections so far, the task
/// still open (its notes may go on), and the date of the latest header.
pub struct ScanState {
    pub sections: Seq<Seq<TaskView>>,
    pub open: Option<TaskView>,
    pub date: Seq<char>,
}

/// Closes the open task: it joins the latest section, if there is one.
pub open spec fn flush(st: ScanState) -> ScanState {
    match st.open {
        Some(t) => ScanState {
            sections: if st.sections.len() > 0 {
                st.sections.update(st.sections.len() - 1, st.sections.last().push(t))
            } else {
                st.sections
            },
            open: None,
            date: st.date,
        },
        None => st,
    }
}

/// One line, at position `at` of the document, classified by the first rule
/// that applies: header, task, note deeper than the open task, blank; any
/// other line closes the open task.
pub open spec fn step(st: ScanState, l: Seq<char>, at: nat) -> ScanState {
    match header_spec(l) {
        Some(d) => ScanState { sections: flush(st).sections.push(seq![]), open: None, date: d },
        None => match task_spec(l) {
            Some(p) => ScanState {
                sections: flush(st).sections,
                open: Some(
                    TaskView {
                        line_number: at,
                        indent: p.indent,
                        done: p.done,
                        tag: p.tag,
                        number: p.number,
                        title: p.title,
                        notes: seq![],
                        date: st.date,
                    },
                ),
                date: st.date,
            },
            None => match note_spec(l) {
                Some(n) => match st.open {
                    Some(t) => if width(n.0) > width(t.indent) {
                        ScanState {
                            open: Some(
                                TaskView {
                                    notes: t.notes.push(NoteView { line_number: at, text: n.1 }),
                                    ..t
                                },
                            ),
                            ..st
                        }
                    } else {
                        flush(st)
                    },
                    None => st,
                },
                None => if all_ws(l) {
                    st
                } else {
                    flush(st)
                },
            },
        },
    }
}

pub open spec fn empty_state() -> ScanState {
    ScanState { sections: seq![], open: None, date: seq![] }
}

/// The state after the lines `ls`, the first of which is line `offset`.
pub open spec fn scan(ls: Seq<Seq<char>>, offset: nat) -> ScanState
    decreases ls.len(),
{
    if ls.len() == 0 {
        empty_state()
    } else {
        step(scan(ls.drop_last(), offset), ls.last(), (offset + ls.len() - 1) as nat)
    }
}

/// The sections of the lines `ls`, the first of which is line `offset`.
pub open spec fn parse_lines(ls: Seq<Seq<char>>, offset: nat) -> Seq<Seq<TaskView>> {
    flush(scan(ls, offset)).sections
}

/// First line of the scan window of a document of `n` lines.
pub open spec fn window_start(n: nat, window: nat) -> nat {
    if n > window {
        (n - window) as nat
    } else {
        0
    }
}

/// The sections found in the last `window` lines of a document.
pub open spec fn parse_spec(content: Seq<char>, window: nat) -> Seq<Seq<TaskView>> {
    let ls = lines_of(content);
    let s = window_start(ls.len(), window);
    parse_lines(ls.skip(s as int), s)
}

pub open spec fn open_view(c: Option<Task>) -> Option<TaskView> {
    match c {
        Some(t) => Some(t@),
        None => None,
    }
}

pub open spec fn state_of(sections: Seq<Section>, current: Option<Task>, date: Seq<char>) -> ScanState {
    ScanState { sections: sections_view(sections), open: open_view(current), date }
}

fn flush_open(sections: &mut Vec<Section>, current: &mut Option<Task>)
    ensures
        sections_view(final(sections)@) == flush(state_of(old(sections)@, *old(current), seq![])).sections,
        *final(current) is None,
{
    match current.take() {
        Some(task) => {
            let n = sections.len();
            if n > 0 {
                let ghost before = sections_view(sections@);
                let mut last = sections.pop().unwrap();
                assert(sections_view(sections@) =~= before.drop_last());
                let ghost tv = task@;
                last.tasks.push(task);
                assert(last@ =~= before.last().push(tv));
                sections.push(last);
                assert(sections_view(sections@) =~= before.update(n - 1, before.last().push(tv)));
            }
        },
        None => {},
    }
}

/// Parses the last `scan_window` lines of a log into its sections; line
/// numbers count from the start of the whole document.
pub fn parse_log(content: &str, scan_window: usize) -> (r: Vec<Section>)
    ensures
        sections_view(r@) == parse_spec(content@, scan_window as nat),
{
    let chars = chars_of(content);
    let all = split_lines(&chars);
    let total = all.len();
    let start = if total > scan_window {
        total - scan_window
    } else {
        0
    };
    let ghost ls = views(all@).skip(start as int);
    let mut sections: Vec<Section> = Vec::new();
    let mut current: Option<Task> = None;
    let mut cur_width: u128 = 0;
    let mut date: Vec<char> = Vec::new();
    let mut i: usize = start;
    assert(ls.take(0) =~= Seq::<Seq<char>>::empty());
    assert(sections_view(sections@) =~= Seq::<Seq<TaskView>>::empty());
    assert(date@ =~= Seq::<char>::empty());
    assert(state_of(sections@, current, date@) == empty_state());
    while i < total
        invariant
            start <= i <= total == all@.len(),
            start == window_start(total as nat, scan_window as nat),
            ls == views(all@).skip(start as int),
            state_of(sections@, current, date@) == scan(ls.take(i - start), start as nat),
            current matches Some(t) ==> cur_width == width(t@.indent),
        decreases total - i,
    {
        let line = &all[i];
        let ghost st = state_of(sections@, current, date@);
        assert(ls.take(i - start + 1).drop_last() =~= ls.take(i - start));
        assert(ls.take(i - start + 1).last() == line@);
        match header_of(line) {
            Some(d) => {
                flush_open(&mut sections, &mut current);
                let ghost fl = sections_view(sections@);
                let fresh = Section { tasks: Vec::new() };
                assert(fresh@ =~= Seq::<TaskView>::empty());
                sections.push(fresh);
                assert(sections_view(sections@) =~= fl.push(seq![]));
                date = d;
            },
            None => match task_of(line) {
                Some(p) => {
                    flush_open(&mut sections, &mut current);
                    cur_width = width_of(&p.0);
                    let t = Task {
                        line_number: i,
                        indent: string_of(p.0.as_slice()),
                        done: p.1,
                        tag: string_of(p.2.as_slice()),
                        number: p.3,
                        title: string_of(p.4.as_slice()),
                        notes: Vec::new(),
                        date: string_of(date.as_slice()),
                    };
                    assert(notes_view(t.notes@) =~= Seq::<NoteView>::empty());
                    current = Some(t);
                },
                None => match note_of(line) {
                    Some(n) => {
                        if current.is_some() {
                            let w = width_of(&n.0);
                            if w > cur_width {
                                let mut t = current.take().unwrap();
                                let ghost tv = t@;
                                let note = Note { line_number: i, text: string_of(n.1.as_slice()) };
                                t.notes.push(note);
                                assert(notes_view(t.notes@) =~= tv.notes.push(
                                    NoteView { line_number: i as nat, text: n.1@ },
                                ));
                                current = Some(t);
                            } else {
                                flush_open(&mut sections, &mut current);
                            }
                        }
                    },
                    None => {
                        if !is_blank(line) {
                            flush_open(&mut sections, &mut current);
                        }
                    },
                },
            },
        }
        i += 1;
    }
    assert(ls.take(i - start) =~= ls);
    assert(ls =~= lines_of(content@).skip(start as int));
    flush_open(&mut sections, &mut current);
    sections
}


// ---------------------------------------------------------------- lookup

/// The id `tag-number` of a task.
pub open spec fn id_of(tag: Seq<char>, number: u64) -> Seq<char> {
    tag + seq!['-'] + dec_str(number as nat)
}

impl Task {
    /// The task's id, `tag-number`.
    pub fn id(&self) -> (r: String)
        ensures
            r@ == id_of(self.tag@, self.number),
    {
        let mut v = chars_of(self.tag.as_str());
        v.push('-');
        let d = u64_to_dec(self.number);
        push_all(&mut v, &d);
        string_of(v.as_slice())
    }
}

/// All tasks of the sections, in order.
pub open spec fn flat(secs: Seq<Seq<TaskView>>) -> Seq<TaskView>
    decreases secs.len(),
{
    if secs.len() == 0 {
        seq![]
    } else {
        flat(secs.drop_last()) + secs.last()
    }
}

pub open spec fn has_id(id: Seq<char>) -> spec_fn(TaskView) -> bool {
    |t: TaskView| id_of(t.tag, t.number) == id
}

/// The tasks of the sections whose id is `id`.
pub open spec fn tasks_with_id(secs: Seq<Seq<TaskView>>, id: Seq<char>) -> Seq<TaskView> {
    flat(secs).filter(has_id(id))
}

pub proof fn lemma_flat_step(secs: Seq<Seq<TaskView>>, si: int, ti: int)
    requires
        0 <= si < secs.len(),
        0 <= ti < secs[si].len(),
    ensures
        flat(secs.take(si)) + secs[si].take(ti + 1) == (flat(secs.take(si)) + secs[si].take(
            ti,
        )).push(secs[si][ti]),
{
    assert(flat(secs.take(si)) + secs[si].take(ti + 1) =~= (flat(secs.take(si)) + secs[si].take(
        ti,
    )).push(secs[si][ti]));
}

pub proof fn lemma_flat_next(secs: Seq<Seq<TaskView>>, si: int)
    requires
        0 <= si < secs.len(),
    ensures
        flat(secs.take(si)) + secs[si].take(secs[si].len() as int) == flat(secs.take(si + 1)),
{
    assert(secs.take(si + 1).drop_last() =~= secs.take(si));
    assert(secs[si].take(secs[si].len() as int) =~= secs[si]);
}

/// The one task whose id is `id` among the sections; an error when there is
/// none or more than one.
pub fn find_task<'a>(sections: &'a [Section], id: &str) -> (r: Result<&'a Task, TlError>)
    ensures
        ({
            let m = tasks_with_id(sections_view(sections@), id@);
            match r {
                Ok(t) => m.len() == 1 && t@ == m[0],
                Err(e) => {
                    &&& m.len() != 1
                    &&& m.len() == 0 ==> (e is TaskNotFound && e->TaskNotFound_0@ == id@)
                    &&& m.len() > 1 ==> (e is DuplicateId && e->DuplicateId_0@ == id@)
                },
            }
        }),
{
    let ghost secs = sections_view(sections@);
    let ghost pred = has_id(id@);
    let want = String::from_str(id);
    let mut count: usize = 0;
    let mut first_s: usize = 0;
    let mut first_t: usize = 0;
    let mut si: usize = 0;
    assert(secs.take(0) =~= Seq::<Seq<TaskView>>::empty());
    assert(Seq::<TaskView>::empty().filter(pred) =~= Seq::<TaskView>::empty()) by {
        reveal(Seq::filter);
    }
    while si < sections.len()
        invariant
            si <= sections@.len() == secs.len(),
            secs == sections_view(sections@),
            pred == has_id(id@),
            want@ == id@,
            count <= 2,
            count < 2 ==> count == flat(secs.take(si as int)).filter(pred).len(),
            count == 2 ==> flat(secs.take(si as int)).filter(pred).len() >= 2,
            count > 0 ==> first_s < si && first_t < secs[first_s as int].len() && flat(
                secs.take(si as int),
            ).filter(pred)[0] == secs[first_s as int][first_t as int],
        decreases sections@.len() - si,
    {
        let tasks = &sections[si].tasks;
        let ghost base = flat(secs.take(si as int));
        assert(secs[si as int] == tasks_view(tasks@));
        let mut ti: usize = 0;
        assert(secs[si as int].take(0) =~= Seq::<TaskView>::empty());
        assert(base + secs[si as int].take(0) =~= base);
        while ti < tasks.len()
            invariant
                si < sections@.len() == secs.len(),
                secs == sections_view(sections@),
                pred == has_id(id@),
                want@ == id@,
                tasks == &sections@[si as int].tasks,
                secs[si as int] == tasks_view(tasks@),
                base == flat(secs.take(si as int)),
                ti <= tasks@.len(),
                count <= 2,
                count < 2 ==> count == (base + secs[si as int].take(ti as int)).filter(pred).len(),
                count == 2 ==> (base + secs[si as int].take(ti as int)).filter(pred).len() >= 2,
                count > 0 ==> ((first_s < si && first_t < secs[first_s as int].len()) || (first_s
                    == si && first_t < ti)) && (base + secs[si as int].take(ti as int)).filter(
                    pred,
                )[0] == secs[first_s as int][first_t as int],
            decreases tasks@.len() - ti,
        {
            let ghost before = base + secs[si as int].take(ti as int);
            proof {
                lemma_flat_step(secs, si as int, ti as int);
                before.lemma_filter_push(secs[si as int][ti as int], pred);
            }
            let tid = tasks[ti].id();
            assert(secs[si as int][ti as int] == tasks@[ti as int]@);
            assert(pred(secs[si as int][ti as int]) == (tid@ == id@));
            proof {
                if count > 0 {
                    assert(before.filter(pred).len() >= 1);
                    assert(before.filter(pred).push(secs[si as int][ti as int])[0] == before.filter(
                        pred,
                    )[0]);
                }
            }
            if tid == want {
                if count == 0 {
                    first_s = si;
                    first_t = ti;
                    assert(before.filter(pred).push(secs[si as int][ti as int])[0] == secs[si as int][ti as int]);
                }
                if count < 2 {
                    count += 1;
                }
            }
            ti += 1;
        }
        proof {
            lemma_flat_next(secs, si as int);
        }
        si += 1;
    }
    assert(secs.take(si as int) =~= secs);
    if count == 0 {
        Err(TlError::TaskNotFound(want))
    } else if count == 1 {
        Ok(&sections[first_s].tasks[first_t])
    } else {
        Err(TlError::DuplicateId(want))
    }
}


// ---------------------------------------------------------------- sections

/// Position and date of the last header among the lines.
pub open spec fn last_header(ls: Seq<Seq<char>>) -> Option<(nat, Seq<char>)>
    decreases ls.len(),
{
    if ls.len() == 0 {
        None
    } else {
        match header_spec(ls.last()) {
            Some(d) => Some(((ls.len() - 1) as nat, d)),
            None => last_header(ls.drop_last()),
        }
    }
}

/// Position of the first header at or after `from`, or the number of lines.
pub open spec fn next_header(ls: Seq<Seq<char>>, from: nat) -> nat
    decreases ls.len() - from,
{
    if from >= ls.len() {
        ls.len()
    } else if header_spec(ls[from as int]) is Some {
        from
    } else {
        next_header(ls, from + 1)
    }
}

/// Position of the last header whose date is `d`.
pub open spec fn last_header_dated(ls: Seq<Seq<char>>, d: Seq<char>) -> Option<nat>
    decreases ls.len(),
{
    if ls.len() == 0 {
        None
    } else if header_spec(ls.last()) == Some(d) {
        Some((ls.len() - 1) as nat)
    } else {
        last_header_dated(ls.drop_last(), d)
    }
}

/// The text of the last section dated `d`, header included, up to the next
/// header or the end; over the whole document.
pub open spec fn section_text(content: Seq<char>, d: Seq<char>) -> Option<Seq<char>> {
    let ls = lines_of(content);
    match last_header_dated(ls, d) {
        Some(s) => Some(join_lines(ls.subrange(s as int, next_header(ls, s + 1) as int))),
        None => None,
    }
}

pub fn last_header_of(ls: &Vec<Vec<char>>) -> (r: Option<(usize, Vec<char>)>)
    ensures
        match r {
            Some(x) => last_header(views(ls@)) == Some((x.0 as nat, x.1@)),
            None => last_header(views(ls@)) is None,
        },
        r matches Some(x) ==> x.0 < ls@.len(),
{
    let ghost vs = views(ls@);
    let mut found: Option<(usize, Vec<char>)> = None;
    let mut i: usize = 0;
    assert(vs.take(0) =~= Seq::<Seq<char>>::empty());
    while i < ls.len()
        invariant
            i <= ls@.len() == vs.len(),
            vs == views(ls@),
            match found {
                Some(x) => last_header(vs.take(i as int)) == Some((x.0 as nat, x.1@)) && x.0 < i,
                None => last_header(vs.take(i as int)) is None,
            },
        decreases ls@.len() - i,
    {
        assert(vs.take(i + 1).drop_last() =~= vs.take(i as int));
        match header_of(&ls[i]) {
            Some(d) => {
                found = Some((i, d));
            },
            None => {},
        }
        i += 1;
    }
    assert(vs.take(i as int) =~= vs);
    found
}

pub fn next_header_of(ls: &Vec<Vec<char>>, from: usize) -> (r: usize)
    ensures
        r == next_header(views(ls@), from as nat),
{
    let ghost vs = views(ls@);
    if from >= ls.len() {
        return ls.len();
    }
    let mut j: usize = from;
    while j < ls.len()
        invariant
            from <= j <= ls@.len() == vs.len(),
            vs == views(ls@),
            next_header(vs, from as nat) == next_header(vs, j as nat),
        decreases ls@.len() - j,
    {
        if header_of(&ls[j]).is_some() {
            return j;
        }
        j += 1;
    }
    j
}

/// Position and date of the last section header of the document.
pub fn find_last_section(content: &str) -> (r: Option<(usize, String)>)
    ensures
        match r {
            Some(x) => last_header(lines_of(content@)) == Some((x.0 as nat, x.1@)),
            None => last_header(lines_of(content@)) is None,
        },
{
    let ls = split_lines(&chars_of(content));
    match last_header_of(&ls) {
        Some(x) => Some((x.0, string_of(x.1.as_slice()))),
        None => None,
    }
}

/// Where the section whose header is line `section_line` ends: the next
/// header after it, or the number of lines.
pub fn find_section_end(content: &str, section_line: usize) -> (r: usize)
    ensures
        r == next_header(lines_of(content@), section_line as nat + 1),
{
    let ls = split_lines(&chars_of(content));
    if section_line >= ls.len() {
        return ls.len();
    }
    next_header_of(&ls, section_line + 1)
}

/// The text of the last section dated `date`.
pub fn section_text_for_date(content: &str, date: &str) -> (r: Option<String>)
    ensures
        match r {
            Some(t) => section_text(content@, date@) == Some(t@),
            None => section_text(content@, date@) is None,
        },
{
    let ls = split_lines(&chars_of(content));
    let ghost vs = views(ls@);
    let want = chars_of(date);
    let mut start: Option<usize> = None;
    let mut i: usize = 0;
    assert(vs.take(0) =~= Seq::<Seq<char>>::empty());
    while i < ls.len()
        invariant
            i <= ls@.len() == vs.len(),
            vs == views(ls@),
            want@ == date@,
            match start {
                Some(s) => last_header_dated(vs.take(i as int), date@) == Some(s as nat) && s < i,
                None => last_header_dated(vs.take(i as int), date@) is None,
            },
        decreases ls@.len() - i,
    {
        assert(vs.take(i + 1).drop_last() =~= vs.take(i as int));
        match header_of(&ls[i]) {
            Some(d) => {
                if chars_eq(&d, &want) {
                    start = Some(i);
                }
            },
            None => {},
        }
        i += 1;
    }
    assert(vs.take(i as int) =~= vs);
    match start {
        Some(s) => {
            let end = next_header_of(&ls, s + 1);
            proof {
                lemma_next_header_bounds(vs, (s + 1) as nat);
            }
            let text = join_range(&ls, s, end);
            Some(string_of(text.as_slice()))
        },
        None => None,
    }
}

pub proof fn lemma_next_header_bounds(ls: Seq<Seq<char>>, from: nat)
    requires
        from <= ls.len(),
    ensures
        from <= next_header(ls, from) <= ls.len(),
    decreases ls.len() - from,
{
    if from < ls.len() && header_spec(ls[from as int]) is None {
        lemma_next_header_bounds(ls, from + 1);
    }
}

/// A date as `today_str` writes it: digits and `/`, and a sign before a year
/// outside 0..=9999.
pub open spec fn is_date_char(c: char) -> bool {
    is_digit(c) || c == '/' || c == '+' || c == '-'
}

/// Relies on chrono's `Local::now` and `format("%d/%m/%Y")`: today's local
/// date, day and month as two digits, then the year.
#[verifier::external_body]
pub fn today_str() -> (r: String)
    ensures
        r@.len() > 0,
        forall|i: int| 0 <= i < r@.len() ==> is_date_char(#[trigger] r@[i]),
{
    chrono::Local::now().format("%d/%m/%Y").to_string()
}

pub open spec fn opt_view(o: Option<String>) -> Option<Seq<char>> {
    match o {
        Some(s) => Some(s@),
        None => None,
    }
}

/// The text of today's section, if the log has one.
pub fn get_today_section_text(content: &str) -> (r: Option<String>)
    ensures
        exists|d: Seq<char>|
            d.len() > 0 && (forall|i: int| 0 <= i < d.len() ==> is_date_char(#[trigger] d[i]))
                && opt_view(r) == section_text(content@, d),
{
    let today = today_str();
    let r = section_text_for_date(content, today.as_str());
    assert(opt_view(r) == section_text(content@, today@));
    r
}


// ---------------------------------------------------------------- search

/// What `str::to_lowercase` makes of a string.
pub uninterp spec fn lower_of(s: Seq<char>) -> Seq<char>;

/// Relies on `str::to_lowercase`: the result depends on the characters alone.
#[verifier::external_body]
fn to_lower(s: &str) -> (r: String)
    ensures
        r@ == lower_of(s@),
        s@.len() == 0 ==> r@.len() == 0,
{
    s.to_lowercase()
}

/// The texts a query is matched against, case-folded: title, each note's
/// text, tag and id.
pub open spec fn fold_note() -> spec_fn(NoteView) -> Seq<char> {
    |n: NoteView| lower_of(n.text)
}

pub open spec fn folded_fields(t: TaskView) -> Seq<Seq<char>> {
    seq![lower_of(t.title)] + t.notes.map_values(fold_note()) + seq![
        lower_of(t.tag),
        lower_of(id_of(t.tag, t.number)),
    ]
}

/// Some field holds `needle`.
pub open spec fn some_contains(fields: Seq<Seq<char>>, needle: Seq<char>) -> bool {
    exists|i: int| 0 <= i < fields.len() && contains(#[trigger] fields[i], needle)
}

pub open spec fn matches_query(q: Seq<char>) -> spec_fn(TaskView) -> bool {
    |t: TaskView| some_contains(folded_fields(t), q)
}

/// The tasks of the sections, in order, whose folded title, note text, tag or
/// id holds the folded query.
pub open spec fn search_spec(secs: Seq<Seq<TaskView>>, query: Seq<char>) -> Seq<TaskView> {
    flat(secs).filter(matches_query(lower_of(query)))
}

pub open spec fn strings_view(v: Seq<String>) -> Seq<Seq<char>> {
    v.map_values(|s: String| s@)
}

/// Whether one of the (already folded) fields holds the (already folded) needle.
pub fn any_contains(fields: &Vec<String>, needle: &str) -> (r: bool)
    ensures
        r == some_contains(strings_view(fields@), needle@),
{
    let nd = chars_of(needle);
    let mut i: usize = 0;
    while i < fields.len()
        invariant
            i <= fields@.len(),
            nd@ == needle@,
            forall|k: int| 0 <= k < i ==> !contains(#[trigger] fields@[k]@, needle@),
        decreases fields@.len() - i,
    {
        let f = chars_of(fields[i].as_str());
        if contains_chars(&f, &nd) {
            assert(strings_view(fields@)[i as int] == fields@[i as int]@);
            return true;
        }
        i += 1;
    }
    assert forall|k: int| 0 <= k < strings_view(fields@).len() implies !contains(
        #[trigger] strings_view(fields@)[k],
        needle@,
    ) by {
        assert(strings_view(fields@)[k] == fields@[k]@);
    }
    false
}

/// The folded fields of a task.
fn fold_fields(t: &Task) -> (r: Vec<String>)
    ensures
        strings_view(r@) == folded_fields(t@),
{
    let mut out: Vec<String> = Vec::new();
    out.push(to_lower(t.title.as_str()));
    let ghost nv = t@.notes;
    let mut i: usize = 0;
    while i < t.notes.len()
        invariant
            i <= t.notes@.len() == nv.len(),
            nv == notes_view(t.notes@),
            strings_view(out@) == seq![lower_of(t.title@)] + nv.take(i as int).map_values(fold_note()),
        decreases t.notes@.len() - i,
    {
        let f = to_lower(t.notes[i].text.as_str());
        assert(nv[i as int] == t.notes@[i as int]@);
        assert(strings_view(out@.push(f)) =~= strings_view(out@).push(f@));
        assert(nv.take(i + 1).map_values(fold_note()) =~= nv.take(i as int).map_values(
            fold_note(),
        ).push(lower_of(nv[i as int].text)));
        assert(strings_view(out@.push(f)) =~= seq![lower_of(t.title@)] + nv.take(i + 1).map_values(
            fold_note(),
        ));
        out.push(f);
        i += 1;
    }
    assert(nv.take(i as int) =~= nv);
    out.push(to_lower(t.tag.as_str()));
    let id = t.id();
    out.push(to_lower(id.as_str()));
    assert(strings_view(out@) =~= folded_fields(t@));
    out
}

/// The tasks whose title, note text, tag or id holds `query`, ignoring case,
/// in the order of the log.
pub fn search_tasks(sections: &[Section], query: &str) -> (r: Vec<Task>)
    ensures
        tasks_view(r@) == search_spec(sections_view(sections@), query@),
        query@.len() == 0 ==> tasks_view(r@) == flat(sections_view(sections@)),
{
    let ghost secs = sections_view(sections@);
    let ql = to_lower(query);
    let ghost pred = matches_query(lower_of(query@));
    let mut results: Vec<Task> = Vec::new();
    let mut si: usize = 0;
    assert(secs.take(0) =~= Seq::<Seq<TaskView>>::empty());
    assert(Seq::<TaskView>::empty().filter(pred) =~= Seq::<TaskView>::empty()) by {
        reveal(Seq::filter);
    }
    assert(tasks_view(results@) =~= Seq::<TaskView>::empty());
    while si < sections.len()
        invariant
            si <= sections@.len() == secs.len(),
            secs == sections_view(sections@),
            pred == matches_query(lower_of(query@)),
            ql@ == lower_of(query@),
            tasks_view(results@) == flat(secs.take(si as int)).filter(pred),
        decreases sections@.len() - si,
    {
        let tasks = &sections[si].tasks;
        let ghost base = flat(secs.take(si as int));
        assert(secs[si as int] == tasks_view(tasks@));
        let mut ti: usize = 0;
        assert(secs[si as int].take(0) =~= Seq::<TaskView>::empty());
        assert(base + secs[si as int].take(0) =~= base);
        while ti < tasks.len()
            invariant
                si < sections@.len() == secs.len(),
                secs == sections_view(sections@),
                pred == matches_query(lower_of(query@)),
                ql@ == lower_of(query@),
                tasks == &sections@[si as int].tasks,
                secs[si as int] == tasks_view(tasks@),
                base == flat(secs.take(si as int)),
                ti <= tasks@.len(),
                tasks_view(results@) == (base + secs[si as int].take(ti as int)).filter(pred),
            decreases tasks@.len() - ti,
        {
            let ghost before = base + secs[si as int].take(ti as int);
            proof {
                lemma_flat_step(secs, si as int, ti as int);
                before.lemma_filter_push(secs[si as int][ti as int], pred);
            }
            let task = &tasks[ti];
            assert(secs[si as int][ti as int] == task@);
            let fields = fold_fields(task);
            if any_contains(&fields, ql.as_str()) {
                let c = task.clone();
                assert(tasks_view(results@.push(c)) =~= tasks_view(results@).push(c@));
                results.push(c);
            }
            ti += 1;
        }
        proof {
            lemma_flat_next(secs, si as int);
        }
        si += 1;
    }
    assert(secs.take(si as int) =~= secs);
    proof {
        if query@.len() == 0 {
            let f = flat(secs);
            assert forall|k: int| 0 <= k < f.len() implies pred(#[trigger] f[k]) by {
                let ff = folded_fields(f[k]);
                let q = lower_of(query@);
                assert(q.len() == 0);
                assert(ff[0].subrange(0, 0 + q.len() as int) =~= q);
                assert(contains(ff[0], q));
            }
            lemma_filter_all(f, pred);
        }
    }
    results
}

/// Keeping the elements that all pass keeps them all.
proof fn lemma_filter_all(ts: Seq<TaskView>, pred: spec_fn(TaskView) -> bool)
    requires
        forall|k: int| 0 <= k < ts.len() ==> pred(#[trigger] ts[k]),
    ensures
        ts.filter(pred) == ts,
    decreases ts.len(),
{
    reveal(Seq::filter);
    if ts.len() > 0 {
        assert forall|k: int| 0 <= k < ts.drop_last().len() implies pred(
            #[trigger] ts.drop_last()[k],
        ) by {
            assert(ts.drop_last()[k] == ts[k]);
        }
        lemma_filter_all(ts.drop_last(), pred);
        assert(pred(ts[ts.len() - 1]));
        assert(ts.drop_last().push(ts.last()) =~= ts);
    } else {
        assert(ts.filter(pred) =~= ts);
    }
}


/// A search returns exactly the tasks, in log order, whose case-folded title,
/// note text, tag or id holds the case-folded query: each result matches,
/// and each matching task is among the results.
pub proof fn lemma_search_matches(secs: Seq<Seq<TaskView>>, query: Seq<char>)
    ensures
        forall|i: int|
            0 <= i < search_spec(secs, query).len() ==> some_contains(
                folded_fields(#[trigger] search_spec(secs, query)[i]),
                lower_of(query),
            ),
        forall|k: int|
            0 <= k < flat(secs).len() && some_contains(
                folded_fields(#[trigger] flat(secs)[k]),
                lower_of(query),
            ) ==> search_spec(secs, query).contains(flat(secs)[k]),
{
    let pred = matches_query(lower_of(query));
    assert forall|i: int| 0 <= i < search_spec(secs, query).len() implies some_contains(
        folded_fields(#[trigger] search_spec(secs, query)[i]),
        lower_of(query),
    ) by {
        flat(secs).lemma_filter_pred(pred, i);
    }
    assert forall|k: int|
        0 <= k < flat(secs).len() && some_contains(
            folded_fields(#[trigger] flat(secs)[k]),
            lower_of(query),
        ) implies search_spec(secs, query).contains(flat(secs)[k]) by {
        flat(secs).lemma_filter_contains(pred, k);
    }
}


} // verus!
