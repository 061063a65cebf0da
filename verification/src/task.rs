//! One task: a line of the list, read into its fields and written back.
//!
//! A line starts with the completion mark `x `, and after it up to two dates,
//! the day of completion and the day of creation, each followed by a space; or
//! it starts with a priority, a capital letter in round brackets followed by
//! a space. What follows is the subject. A start that is none of these is
//! part of the subject, so every text is a line.
//!
//! The contexts and projects of a task are the tags of its subject, in the
//! order in which they stand there, and each as often as it stands there. They
//! are read again whenever the subject is set.
//!
//! The line of a finished task shows the completion mark and the dates, and no
//! priority; the line of a pending task shows the priority, and no dates. A
//! task keeps what its line does not show.
//!
//! A line is written through the `Display` of `todo_txt::task::Simple`. It is
//! read here: reading takes every text, fails on none, and gives the same
//! task on every day, and the task it gives is the one that the written line
//! gives again.

use crate::date::{date_at, lemma_date_at, read_date, Date};
use crate::text::{chars_of, clone_strings, strings_view, text_of};
use crate::words::{collect_tags, tags_of};
use vstd::prelude::*;
use vstd::string::StringExecFns;

verus! {

/// The priority of a task that has none. The priorities `A` to `Z` are the
/// numbers 0 to 25.
pub const NO_PRIORITY: u8 = 26;

/// The first character of a context tag.
pub const CONTEXT_MARKER: char = '@';

/// The first character of a project tag.
pub const PROJECT_MARKER: char = '+';

/// A task as a mathematical value.
pub struct TaskView {
    pub id: nat,
    pub subject: Seq<char>,
    pub finished: bool,
    pub priority: nat,
    pub completed_on: Option<Date>,
    pub created_on: Option<Date>,
    pub contexts: Seq<Seq<char>>,
    pub projects: Seq<Seq<char>>,
}

/// The line starts with the completion mark.
pub open spec fn has_done_mark(line: Seq<char>) -> bool {
    line.len() >= 2 && line[0] == 'x' && line[1] == ' '
}

/// A date and the space that ends it stand at index `i` of the line.
pub open spec fn dated_at(line: Seq<char>, i: int) -> bool {
    date_at(line, i) is Some && i + 10 < line.len() && line[i + 10] == ' '
}

/// `c` is one of the capital letters `A` to `Z`.
pub open spec fn is_priority_letter(c: char) -> bool {
    65 <= c as u32 <= 90
}

/// The line starts with a priority.
pub open spec fn has_priority_mark(line: Seq<char>) -> bool {
    line.len() >= 4 && line[0] == '(' && is_priority_letter(line[1]) && line[2] == ')' && line[3]
        == ' '
}

/// The letter of the priority `priority`.
pub open spec fn priority_letter(priority: nat) -> char {
    (65 + priority) as char
}

/// The task with the given fields and subject, the tags read from the
/// subject, and the identifier 0.
pub open spec fn task_of(
    finished: bool,
    priority: nat,
    completed_on: Option<Date>,
    created_on: Option<Date>,
    subject: Seq<char>,
) -> TaskView {
    TaskView {
        id: 0,
        subject,
        finished,
        priority,
        completed_on,
        created_on,
        contexts: tags_of(subject, CONTEXT_MARKER),
        projects: tags_of(subject, PROJECT_MARKER),
    }
}

/// The task that the line `line` writes, with the identifier 0.
pub open spec fn parse_line(line: Seq<char>) -> TaskView {
    if has_done_mark(line) {
        if dated_at(line, 2) {
            if dated_at(line, 13) {
                task_of(
                    true,
                    NO_PRIORITY as nat,
                    date_at(line, 2),
                    date_at(line, 13),
                    line.skip(24),
                )
            } else {
                task_of(true, NO_PRIORITY as nat, date_at(line, 2), None, line.skip(13))
            }
        } else {
            task_of(true, NO_PRIORITY as nat, None, None, line.skip(2))
        }
    } else if has_priority_mark(line) {
        task_of(false, (line[1] as u32 - 65) as nat, None, None, line.skip(4))
    } else {
        task_of(false, NO_PRIORITY as nat, None, None, line)
    }
}

/// A date as a line shows it: its text and a space; nothing where there is no
/// date.
pub open spec fn date_field(date: Option<Date>) -> Seq<char> {
    match date {
        Some(d) => d.text().push(' '),
        None => Seq::empty(),
    }
}

/// The completion mark as a line shows it.
pub open spec fn done_field(finished: bool) -> Seq<char> {
    if finished {
        seq!['x', ' ']
    } else {
        Seq::empty()
    }
}

/// A priority as a line shows it.
pub open spec fn priority_field(priority: nat) -> Seq<char> {
    if priority < NO_PRIORITY {
        seq!['(', priority_letter(priority), ')', ' ']
    } else {
        Seq::empty()
    }
}

/// The line that shows all of the given fields: the completion mark, the
/// priority, the day of completion, the day of creation and the subject.
pub open spec fn line_text(
    finished: bool,
    priority: nat,
    completed_on: Option<Date>,
    created_on: Option<Date>,
    subject: Seq<char>,
) -> Seq<char> {
    done_field(finished) + priority_field(priority) + date_field(completed_on) + date_field(
        created_on,
    ) + subject
}

impl TaskView {
    /// The fields are consistent: the priority is one of `A` to `Z` or none,
    /// the dates are days of the calendar, and the contexts and projects are
    /// the tags of the subject.
    pub open spec fn well_formed(self) -> bool {
        &&& self.priority <= NO_PRIORITY
        &&& self.completed_on matches Some(d) ==> d.is_valid()
        &&& self.created_on matches Some(d) ==> d.is_valid()
        &&& self.contexts == tags_of(self.subject, CONTEXT_MARKER)
        &&& self.projects == tags_of(self.subject, PROJECT_MARKER)
    }

    /// The line of the task.
    pub open spec fn text(self) -> Seq<char> {
        if self.finished {
            line_text(true, NO_PRIORITY as nat, self.completed_on, self.created_on, self.subject)
        } else {
            line_text(false, self.priority, None, None, self.subject)
        }
    }

    /// The task with another identifier.
    pub open spec fn with_id(self, id: nat) -> TaskView {
        TaskView { id, ..self }
    }

    /// The task, finished or pending.
    pub open spec fn with_finished(self, finished: bool) -> TaskView {
        TaskView { finished, ..self }
    }

    /// The task with another priority. A number above 25 stands for none.
    pub open spec fn with_priority(self, priority: nat) -> TaskView {
        TaskView {
            priority: if priority < NO_PRIORITY {
                priority
            } else {
                NO_PRIORITY as nat
            },
            ..self
        }
    }

    /// The task with another subject, and the tags of that subject.
    pub open spec fn with_subject(self, subject: Seq<char>) -> TaskView {
        TaskView {
            subject,
            contexts: tags_of(subject, CONTEXT_MARKER),
            projects: tags_of(subject, PROJECT_MARKER),
            ..self
        }
    }
}

/// The task that a line writes is well formed.
pub proof fn lemma_parse_well_formed(line: Seq<char>)
    ensures
        parse_line(line).well_formed(),
        parse_line(line).id == 0,
        parse_line(line).finished ==> parse_line(line).priority == NO_PRIORITY,
        !parse_line(line).finished ==> parse_line(line).completed_on is None && parse_line(
            line,
        ).created_on is None,
{
    if has_done_mark(line) {
        if dated_at(line, 2) {
            lemma_date_at(line, 2);
            if dated_at(line, 13) {
                lemma_date_at(line, 13);
            }
        }
    }
}

/// Reading a line and writing the task gives the line back, character for
/// character. So the task of the written line is the task that was read: the
/// same state of completion, priority, contexts and projects.
pub proof fn law_round_trip(line: Seq<char>)
    ensures
        parse_line(line).text() == line,
        parse_line(parse_line(line).text()) == parse_line(line),
{
    let task = parse_line(line);
    if has_done_mark(line) {
        if dated_at(line, 2) {
            lemma_date_at(line, 2);
            let first = line.subrange(2, 12).push(' ');
            if dated_at(line, 13) {
                lemma_date_at(line, 13);
                let second = line.subrange(13, 23).push(' ');
                assert(task.text() =~= seq!['x', ' '] + Seq::<char>::empty() + first + second
                    + line.skip(24));
                assert(seq!['x', ' '] + Seq::<char>::empty() + first + second + line.skip(24)
                    =~= line);
            } else {
                assert(task.text() =~= seq!['x', ' '] + Seq::<char>::empty() + first + Seq::<
                    char,
                >::empty() + line.skip(13));
                assert(seq!['x', ' '] + Seq::<char>::empty() + first + Seq::<char>::empty()
                    + line.skip(13) =~= line);
            }
        } else {
            assert(task.text() =~= line);
        }
    } else if has_priority_mark(line) {
        vstd::utf8::char_u32_cast(line[1], line[1] as u32);
        assert(priority_letter((line[1] as u32 - 65) as nat) == line[1]);
        assert(task.text() =~= line);
    } else {
        assert(task.text() =~= line);
    }
}

/// Finishing a task twice leaves it as finishing it once does, and so for
/// setting it pending; neither touches the priority or the tags.
pub proof fn law_completion_is_idempotent(task: TaskView, finished: bool)
    ensures
        task.with_finished(finished).with_finished(finished) == task.with_finished(finished),
        task.with_finished(finished).finished == finished,
        task.with_finished(finished).priority == task.priority,
        task.with_finished(finished).contexts == task.contexts,
        task.with_finished(finished).projects == task.projects,
{
}

/// One task of a list.
#[derive(Debug)]
pub struct TodoItem {
    id: usize,
    subject: String,
    finished: bool,
    priority: u8,
    completed_on: Option<Date>,
    created_on: Option<Date>,
    contexts: Vec<String>,
    projects: Vec<String>,
}

impl View for TodoItem {
    type V = TaskView;

    closed spec fn view(&self) -> TaskView {
        TaskView {
            id: self.id as nat,
            subject: self.subject@,
            finished: self.finished,
            priority: self.priority as nat,
            completed_on: self.completed_on,
            created_on: self.created_on,
            contexts: strings_view(self.contexts@),
            projects: strings_view(self.projects@),
        }
    }
}

/// Writes a line through the `Display` of `todo_txt::task::Simple`, for a task
/// with the given fields, no other dates, and no tag beside its subject.
///
/// The contract states what that `Display` writes for such a task: `x ` where
/// it is finished; the priority's letter in round brackets and a space where
/// it has one; each date that is there as four, two and two digits and a
/// space, the day of completion first; then the subject as it is.
#[verifier::external_body]
fn format_line(
    finished: bool,
    priority: u8,
    completed_on: Option<Date>,
    created_on: Option<Date>,
    subject: &str,
) -> (line: String)
    requires
        priority <= NO_PRIORITY,
        completed_on matches Some(d) ==> d.is_valid(),
        created_on matches Some(d) ==> d.is_valid(),
    ensures
        line@ == line_text(finished, priority as nat, completed_on, created_on, subject@),
{
    let task = todo_txt::task::Simple {
        subject: subject.to_string(),
        priority: todo_txt::Priority::from(priority),
        finished,
        finish_date: completed_on.and_then(
            |d| todo_txt::Date::from_ymd_opt(d.year.into(), d.month.into(), d.day.into()),
        ),
        create_date: created_on.and_then(
            |d| todo_txt::Date::from_ymd_opt(d.year.into(), d.month.into(), d.day.into()),
        ),
        ..Default::default()
    };
    task.to_string()
}

/// The date and the space that ends it at index `i` of the line.
fn read_dated(line: &Vec<char>, i: usize) -> (date: Option<Date>)
    ensures
        date is Some <==> dated_at(line@, i as int),
        date is Some ==> date == date_at(line@, i as int),
{
    let date = read_date(line, i);
    if date.is_some() {
        proof {
            lemma_date_at(line@, i as int);
        }
        if line.len() > 10 && i < line.len() - 10 && line[i + 10] == ' ' {
            date
        } else {
            None
        }
    } else {
        None
    }
}

/// The characters of `s` from `from` on.
fn chars_from(s: &Vec<char>, from: usize) -> (rest: Vec<char>)
    requires
        from <= s.len(),
    ensures
        rest@ == s@.skip(from as int),
{
    let mut rest: Vec<char> = Vec::new();
    let mut i: usize = from;
    while i < s.len()
        invariant
            from <= i <= s.len(),
            rest@ == s@.subrange(from as int, i as int),
        decreases s.len() - i,
    {
        rest.push(s[i]);
        proof {
            assert(s@.subrange(from as int, i as int).push(s@[i as int]) =~= s@.subrange(
                from as int,
                i + 1,
            ));
        }
        i += 1;
    }
    rest
}

impl Clone for TodoItem {
    fn clone(&self) -> (copy: TodoItem)
        ensures
            copy@ == self@,
    {
        proof {
            use_type_invariant(self);
        }
        TodoItem {
            id: self.id,
            subject: self.subject.clone(),
            finished: self.finished,
            priority: self.priority,
            completed_on: self.completed_on,
            created_on: self.created_on,
            contexts: clone_strings(&self.contexts),
            projects: clone_strings(&self.projects),
        }
    }
}

impl TodoItem {
    #[verifier::type_invariant]
    spec fn consistent(self) -> bool {
        self@.well_formed()
    }

    /// Reads a task from the characters of its line, and gives it the
    /// identifier `id`.
    pub fn parse(line: &Vec<char>, id: usize) -> (item: TodoItem)
        ensures
            item@ == parse_line(line@).with_id(id as nat),
            item@.well_formed(),
    {
        let n = line.len();
        let mut finished = false;
        let mut priority: u8 = NO_PRIORITY;
        let mut completed_on: Option<Date> = None;
        let mut created_on: Option<Date> = None;
        let mut start: usize = 0;
        if n >= 2 && line[0] == 'x' && line[1] == ' ' {
            finished = true;
            start = 2;
            completed_on = read_dated(line, 2);
            if completed_on.is_some() {
                start = 13;
                created_on = read_dated(line, 13);
                if created_on.is_some() {
                    start = 24;
                }
            }
        } else if n >= 4 && line[0] == '(' && line[2] == ')' && line[3] == ' ' {
            let letter: u32 = line[1] as u32;
            if 65 <= letter && letter <= 90 {
                priority = (letter - 65) as u8;
                start = 4;
            }
        }
        let rest = chars_from(line, start);
        let subject = text_of(&rest);
        let contexts = collect_tags(&rest, CONTEXT_MARKER);
        let projects = collect_tags(&rest, PROJECT_MARKER);
        proof {
            lemma_parse_well_formed(line@);
            assert(line@.skip(0) =~= line@);
        }
        TodoItem { id, subject, finished, priority, completed_on, created_on, contexts, projects }
    }

    /// Reads a task from its line. The task has the identifier 0 until a list
    /// gives it one.
    pub fn new(subject: &str) -> (item: TodoItem)
        ensures
            item@ == parse_line(subject@),
            item@.well_formed(),
    {
        let line = chars_of(subject);
        TodoItem::parse(&line, 0)
    }

    /// The identifier that the task's list gave it.
    pub fn id(&self) -> (id: usize)
        ensures
            id == self@.id,
    {
        self.id
    }

    /// The subject: the line without completion mark, dates and priority.
    pub fn subject(&self) -> (subject: &str)
        ensures
            subject@ == self@.subject,
    {
        self.subject.as_str()
    }

    /// Sets the subject, and reads the contexts and projects from it.
    pub fn set_subject(&mut self, subject: &str)
        ensures
            final(self)@ == old(self)@.with_subject(subject@),
            final(self)@.well_formed(),
    {
        proof {
            use_type_invariant(&*self);
        }
        let chars = chars_of(subject);
        let contexts = collect_tags(&chars, CONTEXT_MARKER);
        let projects = collect_tags(&chars, PROJECT_MARKER);
        let text = String::from_str(subject);
        *self = TodoItem {
            id: self.id,
            subject: text,
            finished: self.finished,
            priority: self.priority,
            completed_on: self.completed_on,
            created_on: self.created_on,
            contexts,
            projects,
        };
    }

    /// Tells whether the task is finished.
    pub fn finished(&self) -> (finished: bool)
        ensures
            finished == self@.finished,
    {
        self.finished
    }

    /// Marks the task as finished. Nothing else changes.
    pub fn complete(&mut self)
        ensures
            final(self)@ == old(self)@.with_finished(true),
            final(self)@.well_formed(),
    {
        proof {
            use_type_invariant(&*self);
        }
        self.finished = true;
    }

    /// Marks the task as pending. Nothing else changes.
    pub fn uncomplete(&mut self)
        ensures
            final(self)@ == old(self)@.with_finished(false),
            final(self)@.well_formed(),
    {
        proof {
            use_type_invariant(&*self);
        }
        self.finished = false;
    }

    /// The priority: 0 to 25 for `A` to `Z`, or `NO_PRIORITY`.
    pub fn priority(&self) -> (priority: u8)
        ensures
            priority == self@.priority,
            priority <= NO_PRIORITY,
    {
        proof {
            use_type_invariant(self);
        }
        self.priority
    }

    /// Sets the priority. A number above 25 takes the priority away.
    pub fn set_priority(&mut self, priority: u8)
        ensures
            final(self)@ == old(self)@.with_priority(priority as nat),
            final(self)@.well_formed(),
    {
        proof {
            use_type_invariant(&*self);
        }
        self.priority = if priority < NO_PRIORITY {
            priority
        } else {
            NO_PRIORITY
        };
    }

    /// The day on which the task was finished, where its line said so.
    pub fn completed_on(&self) -> (date: Option<Date>)
        ensures
            date == self@.completed_on,
            date matches Some(d) ==> d.is_valid(),
    {
        proof {
            use_type_invariant(self);
        }
        self.completed_on
    }

    /// The day on which the task was written down, where its line said so.
    pub fn created_on(&self) -> (date: Option<Date>)
        ensures
            date == self@.created_on,
            date matches Some(d) ==> d.is_valid(),
    {
        proof {
            use_type_invariant(self);
        }
        self.created_on
    }

    /// The context tags of the subject, in the order in which they stand
    /// there.
    pub fn contexts(&self) -> (contexts: &[String])
        ensures
            strings_view(contexts@) == self@.contexts,
            self@.contexts == tags_of(self@.subject, CONTEXT_MARKER),
    {
        proof {
            use_type_invariant(self);
        }
        self.contexts.as_slice()
    }

    /// The project tags of the subject, in the order in which they stand
    /// there.
    pub fn projects(&self) -> (projects: &[String])
        ensures
            strings_view(projects@) == self@.projects,
            self@.projects == tags_of(self@.subject, PROJECT_MARKER),
    {
        proof {
            use_type_invariant(self);
        }
        self.projects.as_slice()
    }

    /// The line of the task.
    pub fn raw(&self) -> (line: String)
        ensures
            line@ == self@.text(),
    {
        proof {
            use_type_invariant(self);
        }
        if self.finished {
            format_line(
                true,
                NO_PRIORITY,
                self.completed_on,
                self.created_on,
                self.subject.as_str(),
            )
        } else {
            format_line(false, self.priority, None, None, self.subject.as_str())
        }
    }
}

} // verus!
