//! Reading a task set from comma-separated text.
//!
//! The first line names the columns; every later line describes one task,
//! its fields in the order of the columns. Times are decimal numbers of time
//! units and are kept as whole ticks. A tick is as fine as the finest time of
//! the file is written: in a file with `2.5` and `0.125` it is a thousandth.

use vstd::prelude::*;
use crate::error::AnalysisError;
use crate::priority::{
    deadline_monotonic_ordering, is_permutation, monotonic_assignment, assigned_through,
    in_policy_order, with_priority, Policy,
};
use crate::response::{check_distinct_priorities, distinct_priorities};
use crate::task::{get_resources, Task};
use crate::text::{
    count_decimals, decimals, find, lemma_position_bounds, number, position, read_number, read_ticks,
    ticks, trim, trim_bounds,
};

verus! {

/// A column of a task file.
#[derive(Clone, Copy, Debug, PartialEq, Eq, Structural)]
pub enum Column {
    /// `N`: the task's name.
    Name,
    /// `T`: its period.
    Period,
    /// `D`: its deadline; may be left blank.
    Deadline,
    /// `C`: its computation time.
    ComputationTime,
    /// `P`: its priority; may be left blank.
    Priority,
    /// `CS`: its critical sections; may be left blank.
    CriticalSections,
}

/// The column that the heading `s` names.
pub open spec fn column_named(s: Seq<char>) -> Option<Column> {
    if s.len() == 1 && s[0] == 'N' {
        Some(Column::Name)
    } else if s.len() == 1 && s[0] == 'T' {
        Some(Column::Period)
    } else if s.len() == 1 && s[0] == 'D' {
        Some(Column::Deadline)
    } else if s.len() == 1 && s[0] == 'C' {
        Some(Column::ComputationTime)
    } else if s.len() == 1 && s[0] == 'P' {
        Some(Column::Priority)
    } else if s.len() == 2 && s[0] == 'C' && s[1] == 'S' {
        Some(Column::CriticalSections)
    } else {
        None
    }
}

/// `rest` behind `done`, where there is a `rest`.
pub open spec fn followed_by<A>(done: Seq<A>, rest: Option<Seq<A>>) -> Option<Seq<A>> {
    match rest {
        Some(more) => Some(done + more),
        None => None,
    }
}

/// The columns that the title line `s` names: its headings, separated by
/// commas, blanks around them ignored. `None` where a heading names no column.
pub open spec fn header(s: Seq<char>) -> Option<Seq<Column>>
    decreases s.len(),
{
    let n = position(s, ',');
    match column_named(trim(s.subrange(0, n))) {
        None => None,
        Some(column) => if n >= s.len() {
            Some(seq![column])
        } else {
            proof {
                lemma_position_bounds(s, ',');
            }
            followed_by(seq![column], header(s.subrange(n + 1, s.len() as int)))
        },
    }
}

/// What has been read of one line so far.
pub struct Draft {
    pub name: Seq<char>,
    pub period: u64,
    pub deadline: u64,
    pub computation: u64,
    pub priority: u32,
    pub sections: bool,
}

/// What one line says of its task.
pub struct Record {
    pub name: Seq<char>,
    pub period: u64,
    pub deadline: u64,
    pub computation: u64,
    pub priority: u32,
    pub sections: bool,
}

/// Nothing read yet: no name, no times, no priority.
pub open spec fn empty_draft() -> Draft {
    Draft { name: Seq::empty(), period: 0, deadline: 0, computation: 0, priority: 0, sections: false }
}

/// `draft` after the field `field` of column `column`, blanks around the
/// field removed, times read to `places` decimal places. `None` where the
/// field cannot be read. A blank deadline or priority leaves the draft as it
/// is.
pub open spec fn read_field(draft: Draft, column: Column, field: Seq<char>, places: nat) -> Option<
    Draft,
> {
    match column {
        Column::Name => Some(Draft { name: field, ..draft }),
        Column::Period => match ticks(field, places) {
            Some(t) => Some(Draft { period: t, ..draft }),
            None => None,
        },
        Column::Deadline => if field.len() == 0 {
            Some(draft)
        } else {
            match ticks(field, places) {
                Some(d) => Some(Draft { deadline: d, ..draft }),
                None => None,
            }
        },
        Column::ComputationTime => match ticks(field, places) {
            Some(c) => Some(Draft { computation: c, ..draft }),
            None => None,
        },
        Column::Priority => if field.len() == 0 {
            Some(draft)
        } else {
            match number(field, u32::MAX as u64) {
                Some(p) => Some(Draft { priority: p as u32, ..draft }),
                None => None,
            }
        },
        Column::CriticalSections => Some(Draft { sections: field.len() > 0, ..draft }),
    }
}

/// `draft` after the fields of the line `s`, one for each of `columns`.
/// `None` where a field cannot be read or the line has too few fields; fields
/// beyond the last column are ignored.
pub open spec fn read_fields(draft: Draft, columns: Seq<Column>, s: Seq<char>, places: nat) -> Option<
    Draft,
>
    decreases columns.len(),
{
    if columns.len() == 0 {
        Some(draft)
    } else {
        let n = position(s, ',');
        match read_field(draft, columns[0], trim(s.subrange(0, n)), places) {
            None => None,
            Some(next) => if columns.len() == 1 {
                Some(next)
            } else if n >= s.len() {
                None
            } else {
                read_fields(next, columns.drop_first(), s.subrange(n + 1, s.len() as int), places)
            },
        }
    }
}

/// The record of a finished draft. A task needs a period and a computation
/// time, both positive. Its deadline is its period where deadlines are
/// implicit or none was given.
pub open spec fn finished(draft: Draft, implicit: bool) -> Option<Record> {
    if draft.period > 0 && draft.computation > 0 {
        Some(
            Record {
                name: draft.name,
                period: draft.period,
                deadline: if implicit || draft.deadline == 0 {
                    draft.period
                } else {
                    draft.deadline
                },
                computation: draft.computation,
                priority: draft.priority,
                sections: draft.sections,
            },
        )
    } else {
        None
    }
}

/// The record of the line `s` under `columns`.
pub open spec fn row(columns: Seq<Column>, s: Seq<char>, implicit: bool, places: nat) -> Option<
    Record,
> {
    match read_fields(empty_draft(), columns, s, places) {
        Some(draft) => finished(draft, implicit),
        None => None,
    }
}

/// The records of the lines of `s`, a line ending at a line feed or at the
/// end of `s`. `None` where a line has no record.
pub open spec fn rows(columns: Seq<Column>, s: Seq<char>, implicit: bool, places: nat) -> Option<
    Seq<Record>,
>
    decreases s.len(),
{
    if s.len() == 0 {
        Some(Seq::empty())
    } else {
        let n = position(s, '\n');
        match row(columns, s.subrange(0, n), implicit, places) {
            None => None,
            Some(record) => if n >= s.len() {
                Some(seq![record])
            } else {
                proof {
                    lemma_position_bounds(s, '\n');
                }
                followed_by(
                    seq![record],
                    rows(columns, s.subrange(n + 1, s.len() as int), implicit, places),
                )
            },
        }
    }
}

/// The larger of two counts.
pub open spec fn larger(a: nat, b: nat) -> nat {
    if a >= b {
        a
    } else {
        b
    }
}

/// The decimal places that the field `field` of column `column` asks for:
/// those it is written with if it is a time, and none otherwise.
pub open spec fn field_places(column: Column, field: Seq<char>) -> nat {
    match column {
        Column::Period | Column::Deadline | Column::ComputationTime => decimals(field),
        _ => 0,
    }
}

/// The most decimal places that a time of the line `s` is written with.
pub open spec fn line_places(columns: Seq<Column>, s: Seq<char>) -> nat
    decreases columns.len(),
{
    if columns.len() == 0 {
        0
    } else {
        let n = position(s, ',');
        let here = field_places(columns[0], trim(s.subrange(0, n)));
        if columns.len() == 1 || n >= s.len() {
            here
        } else {
            larger(here, line_places(columns.drop_first(), s.subrange(n + 1, s.len() as int)))
        }
    }
}

/// The most decimal places that a time of the lines of `s` is written with.
pub open spec fn lines_places(columns: Seq<Column>, s: Seq<char>) -> nat
    decreases s.len(),
{
    if s.len() == 0 {
        0
    } else {
        let n = position(s, '\n');
        let here = line_places(columns, s.subrange(0, n));
        if n >= s.len() {
            here
        } else {
            proof {
                lemma_position_bounds(s, '\n');
            }
            larger(here, lines_places(columns, s.subrange(n + 1, s.len() as int)))
        }
    }
}

/// The resolution of a file: the most decimal places that any of its times
/// is written with. One unit of time is ten to that power in ticks.
pub open spec fn places_of(text: Seq<char>) -> nat {
    let n = position(text, '\n');
    match header(text.subrange(0, n)) {
        None => 0,
        Some(columns) => if n >= text.len() {
            0
        } else {
            lines_places(columns, text.subrange(n + 1, text.len() as int))
        },
    }
}

/// The records of a whole file: the title line, then one line for each task,
/// every time read at the resolution of the file.
pub open spec fn records(text: Seq<char>, implicit: bool) -> Option<Seq<Record>> {
    let n = position(text, '\n');
    match header(text.subrange(0, n)) {
        None => None,
        Some(columns) => if n >= text.len() {
            Some(Seq::empty())
        } else {
            rows(columns, text.subrange(n + 1, text.len() as int), implicit, places_of(text))
        },
    }
}

/// `task` is the task that `record` describes.
pub open spec fn reads(task: Task, record: Record) -> bool {
    &&& task.name@ == record.name
    &&& task.T == record.period
    &&& task.D == record.deadline
    &&& task.C == record.computation
    &&& task.P == record.priority
    &&& match task.critical_sections {
        Some(sections) => record.sections && sections@.len() == 0,
        None => !record.sections,
    }
}

/// `tasks` are the tasks that `records` describe, in the same order.
pub open spec fn reads_all(tasks: Seq<Task>, records: Seq<Record>) -> bool {
    &&& tasks.len() == records.len()
    &&& forall|i: int| 0 <= i < tasks.len() ==> reads(#[trigger] tasks[i], records[i])
}

/// The characters of `text`, one by one.
fn characters(text: &str) -> (chars: Vec<char>)
    ensures
        chars@ == text@,
{
    let mut chars: Vec<char> = Vec::new();
    for c in it: text.chars()
        invariant
            chars@ == it.seq().take(it.index()),
            it.seq() == text@,
    {
        chars.push(c);
    }
    chars
}

fn column_of(chars: &Vec<char>, from: usize, to: usize) -> (column: Option<Column>)
    requires
        from <= to <= chars@.len(),
    ensures
        column == column_named(chars@.subrange(from as int, to as int)),
{
    let ghost s = chars@.subrange(from as int, to as int);
    if to - from == 1 {
        let c = chars[from];
        assert(s[0] == c);
        if c == 'N' {
            Some(Column::Name)
        } else if c == 'T' {
            Some(Column::Period)
        } else if c == 'D' {
            Some(Column::Deadline)
        } else if c == 'C' {
            Some(Column::ComputationTime)
        } else if c == 'P' {
            Some(Column::Priority)
        } else {
            None
        }
    } else if to - from == 2 {
        assert(s[0] == chars@[from as int] && s[1] == chars@[from + 1]);
        if chars[from] == 'C' && chars[from + 1] == 'S' {
            Some(Column::CriticalSections)
        } else {
            None
        }
    } else {
        None
    }
}

fn read_header(chars: &Vec<char>, from: usize, to: usize) -> (columns: Option<Vec<Column>>)
    requires
        from <= to <= chars@.len(),
    ensures
        match columns {
            Some(found) => header(chars@.subrange(from as int, to as int)) == Some(found@),
            None => header(chars@.subrange(from as int, to as int)) is None,
        },
{
    let ghost line = chars@.subrange(from as int, to as int);
    let mut columns: Vec<Column> = Vec::new();
    let mut at: usize = from;
    proof {
        assert(Seq::<Column>::empty() + header(line)->Some_0 =~= header(line)->Some_0);
    }
    loop
        invariant
            from <= at <= to <= chars@.len(),
            line == chars@.subrange(from as int, to as int),
            header(line) == followed_by(columns@, header(chars@.subrange(at as int, to as int))),
        decreases to - at,
    {
        let ghost rest = chars@.subrange(at as int, to as int);
        let end = find(chars, at, to, ',');
        let (a, b) = trim_bounds(chars, at, end);
        proof {
            assert(rest.subrange(0, end - at) =~= chars@.subrange(at as int, end as int));
            if end < to {
                assert(rest.subrange(end - at + 1, rest.len() as int) =~= chars@.subrange(
                    end + 1,
                    to as int,
                ));
            }
        }
        match column_of(chars, a, b) {
            None => {
                return None;
            },
            Some(column) => {
                let ghost before = columns@;
                columns.push(column);
                if end == to {
                    proof {
                        assert(before + seq![column] =~= columns@);
                    }
                    return Some(columns);
                }
                proof {
                    let tail = header(chars@.subrange(end + 1, to as int));
                    if tail is Some {
                        assert(before + (seq![column] + tail->Some_0) =~= columns@ + tail->Some_0);
                    }
                }
                at = end + 1;
            },
        }
    }
}

/// The columns that the title line `line` names, in their order.
///
/// The headings are `N`, `T`, `D`, `C`, `P` and `CS`, separated by commas;
/// blanks around a heading are ignored. A line with any other heading is
/// rejected as `MalformedInput`.
pub fn set_column_order(line: String) -> (res: Result<Vec<Column>, AnalysisError>)
    ensures
        match res {
            Ok(columns) => header(line@) == Some(columns@),
            Err(e) => header(line@) is None && e == AnalysisError::MalformedInput,
        },
{
    let chars = characters(line.as_str());
    proof {
        assert(chars@.subrange(0, chars@.len() as int) =~= line@);
    }
    match read_header(&chars, 0, chars.len()) {
        Some(columns) => Ok(columns),
        None => Err(AnalysisError::MalformedInput),
    }
}

/// A draft whose texts are still places in the file.
struct Reading {
    name: (usize, usize),
    period: u64,
    deadline: u64,
    computation: u64,
    priority: u32,
    sections: Option<(usize, usize)>,
}

impl Reading {
    spec fn within(self, chars: Seq<char>) -> bool {
        &&& self.name.0 <= self.name.1 <= chars.len()
        &&& self.sections matches Some(place) ==> place.0 < place.1 <= chars.len()
    }

    spec fn draft(self, chars: Seq<char>) -> Draft {
        Draft {
            name: chars.subrange(self.name.0 as int, self.name.1 as int),
            period: self.period,
            deadline: self.deadline,
            computation: self.computation,
            priority: self.priority,
            sections: self.sections is Some,
        }
    }
}

fn apply_field(
    chars: &Vec<char>,
    reading: Reading,
    column: Column,
    from: usize,
    to: usize,
    places: usize,
) -> (next: Option<Reading>)
    requires
        from <= to <= chars@.len(),
        reading.within(chars@),
    ensures
        match next {
            Some(r) => r.within(chars@) && read_field(
                reading.draft(chars@),
                column,
                chars@.subrange(from as int, to as int),
                places as nat,
            ) == Some(r.draft(chars@)),
            None => read_field(
                reading.draft(chars@),
                column,
                chars@.subrange(from as int, to as int),
                places as nat,
            ) is None,
        },
{
    match column {
        Column::Name => Some(Reading { name: (from, to), ..reading }),
        Column::Period => match read_ticks(chars, from, to, places) {
            Some(t) => Some(Reading { period: t, ..reading }),
            None => None,
        },
        Column::Deadline => if from == to {
            Some(reading)
        } else {
            match read_ticks(chars, from, to, places) {
                Some(d) => Some(Reading { deadline: d, ..reading }),
                None => None,
            }
        },
        Column::ComputationTime => match read_ticks(chars, from, to, places) {
            Some(c) => Some(Reading { computation: c, ..reading }),
            None => None,
        },
        Column::Priority => if from == to {
            Some(reading)
        } else {
            match read_number(chars, from, to, u32::MAX as u64) {
                Some(p) => Some(Reading { priority: p as u32, ..reading }),
                None => None,
            }
        },
        Column::CriticalSections => if from == to {
            Some(Reading { sections: None, ..reading })
        } else {
            Some(Reading { sections: Some((from, to)), ..reading })
        },
    }
}

fn read_row(chars: &Vec<char>, columns: &Vec<Column>, from: usize, to: usize, places: usize) -> (row:
    Option<Reading>)
    requires
        from <= to <= chars@.len(),
    ensures
        match row {
            Some(r) => r.within(chars@) && read_fields(
                empty_draft(),
                columns@,
                chars@.subrange(from as int, to as int),
                places as nat,
            ) == Some(r.draft(chars@)),
            None => read_fields(
                empty_draft(),
                columns@,
                chars@.subrange(from as int, to as int),
                places as nat,
            ) is None,
        },
{
    let ghost line = chars@.subrange(from as int, to as int);
    let mut reading = Reading {
        name: (0, 0),
        period: 0,
        deadline: 0,
        computation: 0,
        priority: 0,
        sections: None,
    };
    proof {
        assert(reading.draft(chars@).name =~= empty_draft().name);
        assert(columns@.subrange(0, columns@.len() as int) =~= columns@);
    }
    let n = columns.len();
    if n == 0 {
        return Some(reading);
    }
    let mut at: usize = from;
    let mut k: usize = 0;
    loop
        invariant
            from <= at <= to <= chars@.len(),
            k < n == columns@.len(),
            reading.within(chars@),
            line == chars@.subrange(from as int, to as int),
            read_fields(empty_draft(), columns@, line, places as nat) == read_fields(
                reading.draft(chars@),
                columns@.subrange(k as int, n as int),
                chars@.subrange(at as int, to as int),
                places as nat,
            ),
        decreases n - k,
    {
        let ghost rest = chars@.subrange(at as int, to as int);
        let ghost left = columns@.subrange(k as int, n as int);
        let end = find(chars, at, to, ',');
        let (a, b) = trim_bounds(chars, at, end);
        proof {
            assert(rest.subrange(0, end - at) =~= chars@.subrange(at as int, end as int));
            assert(left[0] == columns@[k as int]);
            assert(left.drop_first() =~= columns@.subrange(k + 1, n as int));
            if end < to {
                assert(rest.subrange(end - at + 1, rest.len() as int) =~= chars@.subrange(
                    end + 1,
                    to as int,
                ));
            }
        }
        match apply_field(chars, reading, columns[k], a, b, places) {
            None => {
                return None;
            },
            Some(next) => {
                if k + 1 == n {
                    return Some(next);
                }
                if end == to {
                    return None;
                }
                reading = next;
                at = end + 1;
                k += 1;
            },
        }
    }
}

fn count_field(chars: &Vec<char>, column: Column, from: usize, to: usize) -> (places: usize)
    requires
        from <= to <= chars@.len(),
    ensures
        places == field_places(column, chars@.subrange(from as int, to as int)),
{
    match column {
        Column::Period | Column::Deadline | Column::ComputationTime => count_decimals(
            chars,
            from,
            to,
        ),
        _ => 0,
    }
}

fn count_line(chars: &Vec<char>, columns: &Vec<Column>, from: usize, to: usize) -> (places: usize)
    requires
        from <= to <= chars@.len(),
    ensures
        places == line_places(columns@, chars@.subrange(from as int, to as int)),
{
    let ghost line = chars@.subrange(from as int, to as int);
    let n = columns.len();
    if n == 0 {
        return 0;
    }
    proof {
        assert(columns@.subrange(0, n as int) =~= columns@);
    }
    let mut most: usize = 0;
    let mut at: usize = from;
    let mut k: usize = 0;
    loop
        invariant
            from <= at <= to <= chars@.len(),
            k < n == columns@.len(),
            line == chars@.subrange(from as int, to as int),
            line_places(columns@, line) == larger(
                most as nat,
                line_places(columns@.subrange(k as int, n as int), chars@.subrange(at as int, to as int)),
            ),
        decreases n - k,
    {
        let ghost rest = chars@.subrange(at as int, to as int);
        let ghost left = columns@.subrange(k as int, n as int);
        let end = find(chars, at, to, ',');
        let (a, b) = trim_bounds(chars, at, end);
        proof {
            assert(rest.subrange(0, end - at) =~= chars@.subrange(at as int, end as int));
            assert(left[0] == columns@[k as int]);
            assert(left.drop_first() =~= columns@.subrange(k + 1, n as int));
            if end < to {
                assert(rest.subrange(end - at + 1, rest.len() as int) =~= chars@.subrange(
                    end + 1,
                    to as int,
                ));
            }
        }
        let here = count_field(chars, columns[k], a, b);
        if here > most {
            most = here;
        }
        if k + 1 == n || end == to {
            return most;
        }
        at = end + 1;
        k += 1;
    }
}

fn count_lines(chars: &Vec<char>, columns: &Vec<Column>, from: usize) -> (places: usize)
    requires
        from <= chars@.len(),
    ensures
        places == lines_places(columns@, chars@.subrange(from as int, chars@.len() as int)),
{
    let len = chars.len();
    let ghost all = chars@.subrange(from as int, len as int);
    let mut most: usize = 0;
    let mut at: usize = from;
    while at < len
        invariant
            from <= at <= len == chars@.len(),
            all == chars@.subrange(from as int, len as int),
            lines_places(columns@, all) == larger(
                most as nat,
                lines_places(columns@, chars@.subrange(at as int, len as int)),
            ),
        decreases len - at,
    {
        let ghost rest = chars@.subrange(at as int, len as int);
        let end = find(chars, at, len, '\n');
        proof {
            assert(rest.subrange(0, end - at) =~= chars@.subrange(at as int, end as int));
            if end < len {
                assert(rest.subrange(end - at + 1, rest.len() as int) =~= chars@.subrange(
                    end + 1,
                    len as int,
                ));
            } else {
                assert(chars@.subrange(len as int, len as int).len() == 0);
            }
        }
        let here = count_line(chars, columns, at, end);
        if here > most {
            most = here;
        }
        at = if end < len {
            end + 1
        } else {
            len
        };
    }
    most
}

/// The resolution of `chars` as a whole file.
fn count_places(chars: &Vec<char>) -> (places: usize)
    ensures
        places == places_of(chars@),
{
    let len = chars.len();
    proof {
        assert(chars@.subrange(0, len as int) =~= chars@);
    }
    let end = find(chars, 0, len, '\n');
    match read_header(chars, 0, end) {
        Some(columns) => if end < len {
            count_lines(chars, &columns, end + 1)
        } else {
            0
        },
        None => 0,
    }
}

/// The resolution of a task file: the most decimal places that any of its
/// times is written with. The times of the tasks that `get_inp` reads from
/// `text` are in ticks of which ten to that power make one unit.
pub fn resolution(text: &str) -> (places: usize)
    ensures
        places == places_of(text@),
{
    let chars = characters(text);
    count_places(&chars)
}

/// The part `chars[from..to]` of `text`. `plain` says that `text` is known to
/// be ASCII, where the part can be cut out without walking the text.
fn part<'a>(text: &'a str, plain: bool, from: usize, to: usize) -> (piece: &'a str)
    requires
        from <= to <= text@.len(),
        plain ==> text.is_ascii(),
    ensures
        piece@ == text@.subrange(from as int, to as int),
{
    if plain {
        text.substring_ascii(from, to)
    } else {
        text.substring_char(from, to)
    }
}

fn finish(text: &str, plain: bool, chars: &Vec<char>, reading: Reading, implicit: bool) -> (task:
    Option<Task>)
    requires
        chars@ == text@,
        plain ==> text.is_ascii(),
        reading.within(chars@),
    ensures
        match task {
            Some(t) => finished(reading.draft(chars@), implicit) matches Some(record) && reads(
                t,
                record,
            ),
            None => finished(reading.draft(chars@), implicit) is None,
        },
{
    if reading.period == 0 || reading.computation == 0 {
        return None;
    }
    let deadline = if implicit || reading.deadline == 0 {
        reading.period
    } else {
        reading.deadline
    };
    let critical_sections = match reading.sections {
        Some(place) => Some(get_resources(part(text, plain, place.0, place.1))),
        None => None,
    };
    Some(
        Task {
            name: part(text, plain, reading.name.0, reading.name.1).to_owned(),
            T: reading.period,
            D: deadline,
            C: reading.computation,
            P: reading.priority,
            critical_sections,
        },
    )
}

fn read_rows(
    text: &str,
    chars: &Vec<char>,
    columns: &Vec<Column>,
    from: usize,
    implicit: bool,
    places: usize,
) -> (res: Option<Vec<Task>>)
    requires
        chars@ == text@,
        from <= chars@.len(),
    ensures
        match rows(
            columns@,
            chars@.subrange(from as int, chars@.len() as int),
            implicit,
            places as nat,
        ) {
            Some(found) => res matches Some(tasks) && reads_all(tasks@, found),
            None => res is None,
        },
{
    let len = chars.len();
    let plain = text.is_ascii();
    let ghost all = chars@.subrange(from as int, len as int);
    let ghost mut done: Seq<Record> = Seq::empty();
    let mut tasks: Vec<Task> = Vec::new();
    let mut at: usize = from;
    proof {
        let whole = rows(columns@, all, implicit, places as nat);
        if whole is Some {
            assert(done + whole->Some_0 =~= whole->Some_0);
        }
    }
    while at < len
        invariant
            from <= at <= len == chars@.len(),
            chars@ == text@,
            plain ==> text.is_ascii(),
            all == chars@.subrange(from as int, len as int),
            rows(columns@, all, implicit, places as nat) == followed_by(
                done,
                rows(columns@, chars@.subrange(at as int, len as int), implicit, places as nat),
            ),
            reads_all(tasks@, done),
        decreases len - at,
    {
        let ghost rest = chars@.subrange(at as int, len as int);
        let end = find(chars, at, len, '\n');
        proof {
            assert(rest.subrange(0, end - at) =~= chars@.subrange(at as int, end as int));
            if end < len {
                assert(rest.subrange(end - at + 1, rest.len() as int) =~= chars@.subrange(
                    end + 1,
                    len as int,
                ));
            }
        }
        let reading = match read_row(chars, columns, at, end, places) {
            Some(reading) => reading,
            None => {
                return None;
            },
        };
        let task = match finish(text, plain, chars, reading, implicit) {
            Some(task) => task,
            None => {
                return None;
            },
        };
        proof {
            let record = row(
                columns@,
                chars@.subrange(at as int, end as int),
                implicit,
                places as nat,
            )->Some_0;
            let before = done;
            done = done.push(record);
            if end < len {
                let tail = rows(columns@, chars@.subrange(end + 1, len as int), implicit, places as nat);
                if tail is Some {
                    assert(before + (seq![record] + tail->Some_0) =~= done + tail->Some_0);
                }
            } else {
                assert(before + seq![record] =~= done + Seq::<Record>::empty());
                assert(chars@.subrange(len as int, len as int).len() == 0);
            }
        }
        tasks.push(task);
        at = if end < len {
            end + 1
        } else {
            len
        };
    }
    proof {
        assert(done + Seq::<Record>::empty() =~= done);
    }
    Some(tasks)
}

proof fn lemma_rows_positive(columns: Seq<Column>, s: Seq<char>, implicit: bool, places: nat, i: int)
    requires
        rows(columns, s, implicit, places) matches Some(found) && 0 <= i < found.len(),
    ensures
        ({
            let record = rows(columns, s, implicit, places)->Some_0[i];
            record.period > 0 && record.deadline > 0 && record.computation > 0
        }),
    decreases s.len(),
{
    let n = position(s, '\n');
    if i > 0 {
        lemma_position_bounds(s, '\n');
        lemma_rows_positive(columns, s.subrange(n + 1, s.len() as int), implicit, places, i - 1);
    }
}

/// Every record has a positive period, deadline and computation time.
pub proof fn lemma_records_positive(text: Seq<char>, implicit: bool, i: int)
    requires
        records(text, implicit) matches Some(found) && 0 <= i < found.len(),
    ensures
        ({
            let record = records(text, implicit)->Some_0[i];
            record.period > 0 && record.deadline > 0 && record.computation > 0
        }),
{
    let n = position(text, '\n');
    let columns = header(text.subrange(0, n))->Some_0;
    lemma_rows_positive(
        columns,
        text.subrange(n + 1, text.len() as int),
        implicit,
        places_of(text),
        i,
    );
}

/// No two records carry the same name.
pub open spec fn distinct_names(records: Seq<Record>) -> bool {
    forall|i: int, j: int|
        0 <= i < j < records.len() ==> (#[trigger] records[i]).name != (#[trigger] records[j]).name
}

/// Some record carries the priority zero: priorities are still to be assigned.
pub open spec fn unassigned(records: Seq<Record>) -> bool {
    exists|i: int| 0 <= i < records.len() && (#[trigger] records[i]).priority == 0
}

/// No two records carry the same priority.
pub open spec fn distinct_given_priorities(records: Seq<Record>) -> bool {
    forall|i: int, j: int|
        0 <= i < j < records.len() ==> (#[trigger] records[i]).priority
            != (#[trigger] records[j]).priority
}

/// Read through `perm`, the records come by ascending deadline, and in their
/// own order where the deadlines are equal.
pub open spec fn in_deadline_order(records: Seq<Record>, perm: Seq<int>) -> bool {
    forall|i: int, j: int|
        0 <= i < j < perm.len() ==> {
            let a = #[trigger] perm[i];
            let b = #[trigger] perm[j];
            records[a].deadline < records[b].deadline || (records[a].deadline
                == records[b].deadline && a < b)
        }
}

/// `tasks` are the tasks of `records` rearranged by `perm`, the task at place
/// `i` carrying the priority `N - i` in place of the one that was read.
pub open spec fn ranked_through(records: Seq<Record>, tasks: Seq<Task>, perm: Seq<int>) -> bool {
    &&& tasks.len() == records.len()
    &&& forall|i: int|
        0 <= i < tasks.len() ==> reads(
            #[trigger] tasks[i],
            Record { priority: (tasks.len() - i) as u32, ..records[perm[i]] },
        )
}

/// `tasks` are the tasks of `records` after deadline-monotonic assignment.
pub open spec fn ranked(records: Seq<Record>, tasks: Seq<Task>) -> bool {
    exists|perm: Seq<int>|
        {
            &&& is_permutation(perm, records.len() as int)
            &&& in_deadline_order(records, perm)
            &&& #[trigger] ranked_through(records, tasks, perm)
        }
}

/// What reading `text` comes to.
///
/// The text is rejected as `MalformedInput` where a line cannot be read, two
/// tasks have the same name, or there are more tasks than priorities. Where
/// some task has no priority yet, all get theirs by deadline-monotonic
/// assignment. Where all have one, they keep it, unless two are the same:
/// that is a `PriorityCollision`.
pub open spec fn ingestion(text: Seq<char>, implicit: bool, res: Result<Vec<Task>, AnalysisError>) -> bool {
    match records(text, implicit) {
        None => res matches Err(e) && e == AnalysisError::MalformedInput,
        Some(found) => if found.len() > u32::MAX || !distinct_names(found) {
            res matches Err(e) && e == AnalysisError::MalformedInput
        } else if unassigned(found) {
            res matches Ok(tasks) && ranked(found, tasks@)
        } else if !distinct_given_priorities(found) {
            res matches Err(e) && e == AnalysisError::PriorityCollision
        } else {
            res matches Ok(tasks) && reads_all(tasks@, found)
        },
    }
}

/// A set as the analyses expect it: names and priorities are distinct, and
/// every period, deadline and computation time is positive.
pub open spec fn consistent(tasks: Seq<Task>) -> bool {
    &&& distinct_priorities(tasks)
    &&& forall|i: int, j: int|
        0 <= i < j < tasks.len() ==> (#[trigger] tasks[i]).name@ != (#[trigger] tasks[j]).name@
    &&& forall|i: int|
        0 <= i < tasks.len() ==> (#[trigger] tasks[i]).T > 0 && tasks[i].D > 0 && tasks[i].C > 0
}

fn check_distinct_names(tasks: &Vec<Task>) -> (ok: bool)
    ensures
        ok == forall|i: int, j: int|
            0 <= i < j < tasks@.len() ==> (#[trigger] tasks@[i]).name@ != (#[trigger] tasks@[j]).name@,
{
    let n = tasks.len();
    let mut j: usize = 0;
    while j < n
        invariant
            j <= n == tasks@.len(),
            forall|a: int, b: int|
                0 <= a < b < j ==> (#[trigger] tasks@[a]).name@ != (#[trigger] tasks@[b]).name@,
        decreases n - j,
    {
        let mut i: usize = 0;
        while i < j
            invariant
                i <= j < n == tasks@.len(),
                forall|a: int| 0 <= a < i ==> (#[trigger] tasks@[a]).name@ != tasks@[j as int].name@,
            decreases j - i,
        {
            if tasks[i] == tasks[j] {
                return false;
            }
            i += 1;
        }
        j += 1;
    }
    true
}

fn any_unassigned(tasks: &Vec<Task>) -> (found: bool)
    ensures
        found == exists|i: int| 0 <= i < tasks@.len() && (#[trigger] tasks@[i]).P == 0,
{
    let mut i: usize = 0;
    while i < tasks.len()
        invariant
            i <= tasks.len(),
            forall|k: int| 0 <= k < i ==> (#[trigger] tasks@[k]).P != 0,
        decreases tasks.len() - i,
    {
        if tasks[i].P == 0 {
            return true;
        }
        i += 1;
    }
    false
}

/// Reads a task set from the text of a task file.
///
/// The first line names the columns (see `set_column_order`); each later
/// line holds one task, its fields separated by commas in the order of the
/// columns, blanks around a field ignored. A task needs a positive period and
/// a positive computation time. Its deadline is its period where `implicit`
/// is set or the deadline is blank or zero. Times are decimal numbers of
/// units and are kept as whole ticks, as fine as the finest time of the file
/// is written (see `resolution`). A set in which some task has no priority
/// gets all its priorities by deadline-monotonic assignment, and then stands
/// in priority order.
pub fn get_inp(text: &str, implicit: bool) -> (res: Result<Vec<Task>, AnalysisError>)
    ensures
        ingestion(text@, implicit, res),
        res matches Ok(tasks) ==> consistent(tasks@),
{
    let chars = characters(text);
    let len = chars.len();
    proof {
        assert(chars@.subrange(0, len as int) =~= text@);
    }
    let end = find(&chars, 0, len, '\n');
    let columns = match read_header(&chars, 0, end) {
        Some(columns) => columns,
        None => {
            return Err(AnalysisError::MalformedInput);
        },
    };
    let places = count_places(&chars);
    let read = if end < len {
        read_rows(text, &chars, &columns, end + 1, implicit, places)
    } else {
        Some(Vec::new())
    };
    let mut tasks = match read {
        Some(tasks) => tasks,
        None => {
            return Err(AnalysisError::MalformedInput);
        },
    };
    let ghost found = records(text@, implicit)->Some_0;
    let ghost parsed = tasks@;
    assert(reads_all(parsed, found));
    let names_differ = check_distinct_names(&tasks);
    proof {
        if names_differ {
            assert forall|i: int, j: int| 0 <= i < j < found.len() implies (#[trigger] found[i]).name
                != (#[trigger] found[j]).name by {
                assert(reads(parsed[i], found[i]) && reads(parsed[j], found[j]));
            }
        } else {
            let (i, j) = choose|i: int, j: int|
                0 <= i < j < parsed.len() && (#[trigger] parsed[i]).name@ == (
                #[trigger] parsed[j]).name@;
            assert(reads(parsed[i], found[i]) && reads(parsed[j], found[j]));
        }
    }
    if tasks.len() > u32::MAX as usize || !names_differ {
        return Err(AnalysisError::MalformedInput);
    }
    if any_unassigned(&tasks) {
        proof {
            let i = choose|i: int| 0 <= i < parsed.len() && (#[trigger] parsed[i]).P == 0;
            assert(reads(parsed[i], found[i]));
        }
        deadline_monotonic_ordering(&mut tasks);
        proof {
            let after = tasks@;
            let n = after.len() as int;
            let perm = choose|perm: Seq<int>|
                {
                    &&& is_permutation(perm, parsed.len() as int)
                    &&& in_policy_order(parsed, perm, Policy::DeadlineMonotonic)
                    &&& #[trigger] assigned_through(parsed, after, perm)
                };
            assert forall|i: int, j: int| 0 <= i < j < perm.len() implies ({
                let a = #[trigger] perm[i];
                let b = #[trigger] perm[j];
                found[a].deadline < found[b].deadline || (found[a].deadline == found[b].deadline
                    && a < b)
            }) by {
                assert(reads(parsed[perm[i]], found[perm[i]]));
                assert(reads(parsed[perm[j]], found[perm[j]]));
            }
            assert forall|i: int| 0 <= i < n implies reads(
                #[trigger] after[i],
                Record { priority: (n - i) as u32, ..found[perm[i]] },
            ) by {
                assert(after[i] == with_priority(parsed[perm[i]], n - i));
                assert(reads(parsed[perm[i]], found[perm[i]]));
            }
            assert(ranked_through(found, after, perm));
            assert forall|i: int, j: int| 0 <= i < j < n implies (#[trigger] after[i]).name@ != (
            #[trigger] after[j]).name@ by {
                assert(after[i] == with_priority(parsed[perm[i]], n - i));
                assert(after[j] == with_priority(parsed[perm[j]], n - j));
                let a = perm[i];
                let b = perm[j];
                if a < b {
                    assert(parsed[a].name@ != parsed[b].name@);
                } else {
                    assert(parsed[b].name@ != parsed[a].name@);
                }
            }
            assert forall|i: int| 0 <= i < n implies (#[trigger] after[i]).T > 0 && after[i].D > 0
                && after[i].C > 0 by {
                assert(after[i] == with_priority(parsed[perm[i]], n - i));
                assert(reads(parsed[perm[i]], found[perm[i]]));
                lemma_records_positive(text@, implicit, perm[i]);
            }
        }
        return Ok(tasks);
    }
    proof {
        assert forall|i: int| 0 <= i < found.len() implies (#[trigger] found[i]).priority != 0 by {
            assert(reads(parsed[i], found[i]));
        }
    }
    let priorities_differ = check_distinct_priorities(&tasks);
    proof {
        if priorities_differ {
            assert forall|i: int, j: int| 0 <= i < j < found.len() implies (
            #[trigger] found[i]).priority != (#[trigger] found[j]).priority by {
                assert(reads(parsed[i], found[i]) && reads(parsed[j], found[j]));
            }
            assert forall|i: int| 0 <= i < parsed.len() implies (#[trigger] parsed[i]).T > 0
                && parsed[i].D > 0 && parsed[i].C > 0 by {
                assert(reads(parsed[i], found[i]));
                lemma_records_positive(text@, implicit, i);
            }
        } else {
            let (i, j) = choose|i: int, j: int|
                0 <= i < j < parsed.len() && (#[trigger] parsed[i]).P == (#[trigger] parsed[j]).P;
            assert(reads(parsed[i], found[i]) && reads(parsed[j], found[j]));
        }
    }
    if !priorities_differ {
        return Err(AnalysisError::PriorityCollision);
    }
    Ok(tasks)
}

} // verus!
