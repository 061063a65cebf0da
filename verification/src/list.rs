//! The list of tasks: the tasks in the order of the file, each with an
//! identifier that the list gave it and that no other task of the list has
//! or will have.
//!
//! A task is found by its identifier: the first task of the list that has it.
//! In a well-formed list the identifiers ascend, so no two tasks share one.
//! Every operation keeps a well-formed list well formed. A caller that writes
//! through `get_mut` keeps it so by leaving the identifier as it is.

use crate::error::ErrorKind;
use crate::task::{parse_line, TaskView, TodoItem};
use crate::text::chars_of;
use crate::words::{lemma_line_end, lemma_task_lines_len, task_lines, task_lines_from, trimmed};
use vstd::prelude::*;
use vstd::string::StringExecFns;

verus! {

/// A list of tasks as a mathematical value.
pub struct ListView {
    /// The tasks, in the order of the list.
    pub items: Seq<TaskView>,
    /// The identifier that the next new task gets.
    pub next_id: nat,
    /// The place that the list is saved to, where it is bound to one.
    pub path: Option<Seq<char>>,
}

/// The views of a sequence of tasks.
pub open spec fn items_view(items: Seq<TodoItem>) -> Seq<TaskView> {
    Seq::new(items.len(), |i: int| items[i]@)
}

/// The views of a sequence of borrowed tasks.
pub open spec fn refs_view(items: Seq<&TodoItem>) -> Seq<TaskView> {
    Seq::new(items.len(), |i: int| items[i]@)
}

/// Some task of `items` has the identifier `id`.
pub open spec fn contains_id(items: Seq<TaskView>, id: nat) -> bool {
    exists|i: int| 0 <= i < items.len() && (#[trigger] items[i]).id == id
}

/// The task at index `i` is the first of `items` with the identifier `id`.
pub open spec fn is_position(items: Seq<TaskView>, id: nat, i: int) -> bool {
    &&& 0 <= i < items.len()
    &&& items[i].id == id
    &&& forall|j: int| 0 <= j < i ==> (#[trigger] items[j]).id != id
}

/// The index of the first task of `items` with the identifier `id`, where
/// there is one.
pub open spec fn position(items: Seq<TaskView>, id: nat) -> int {
    choose|i: int| is_position(items, id, i)
}

/// The index of the first task with an identifier is the position of that
/// identifier.
pub proof fn lemma_position(items: Seq<TaskView>, id: nat, i: int)
    requires
        is_position(items, id, i),
    ensures
        contains_id(items, id),
        position(items, id) == i,
{
    let p = position(items, id);
    assert(is_position(items, id, p));
    if p < i {
        assert(items[p].id != id);
    } else if i < p {
        assert(items[i].id != id);
    }
}

/// An identifier that some task has, has a position.
pub proof fn lemma_position_exists(items: Seq<TaskView>, id: nat)
    requires
        contains_id(items, id),
    ensures
        is_position(items, id, position(items, id)),
{
    let w = choose|i: int| 0 <= i < items.len() && (#[trigger] items[i]).id == id;
    lemma_first_before(items, id, w);
}

/// Where the task at `w` has the identifier `id`, some task at `w` or before
/// it is the first that has it.
proof fn lemma_first_before(items: Seq<TaskView>, id: nat, w: int)
    requires
        0 <= w < items.len(),
        items[w].id == id,
    ensures
        exists|i: int| is_position(items, id, i),
        is_position(items, id, position(items, id)),
    decreases w,
{
    if exists|j: int| 0 <= j < w && (#[trigger] items[j]).id == id {
        let j = choose|j: int| 0 <= j < w && (#[trigger] items[j]).id == id;
        lemma_first_before(items, id, j);
    } else {
        assert(is_position(items, id, w));
    }
}

/// A well-formed list stays well formed when a well-formed task takes the
/// place of the task that has its identifier.
pub proof fn lemma_replace_keeps_well_formed(list: ListView, at: int, task: TaskView)
    requires
        0 <= at < list.items.len(),
        task.id == list.items[at].id,
        list.well_formed() ==> task.well_formed(),
    ensures
        list.well_formed() ==> (ListView {
            items: list.items.update(at, task),
            ..list
        }).well_formed(),
{
    let after = ListView { items: list.items.update(at, task), ..list };
    if list.well_formed() {
        assert forall|i: int, j: int| 0 <= i < j < after.items.len() implies (
        #[trigger] after.items[i]).id < (#[trigger] after.items[j]).id by {
            assert(after.items[i].id == list.items[i].id);
            assert(after.items[j].id == list.items[j].id);
        }
        assert forall|i: int| 0 <= i < after.items.len() implies (#[trigger] after.items[i]).id
            < after.next_id by {
            assert(after.items[i].id == list.items[i].id);
        }
        assert forall|i: int| 0 <= i < after.items.len() implies (
        #[trigger] after.items[i]).well_formed() by {
            if i != at {
                assert(after.items[i] == list.items[i]);
            }
        }
    }
}

/// The tasks that are finished, where `finished` is true; else those that are
/// pending.
pub open spec fn in_state(finished: bool) -> spec_fn(TaskView) -> bool {
    |t: TaskView| t.finished == finished
}

/// The lines `lines` joined, with a line feed between each two neighbours.
pub open spec fn join_lines(lines: Seq<Seq<char>>) -> Seq<char>
    decreases lines.len(),
{
    if lines.len() == 0 {
        Seq::empty()
    } else if lines.len() == 1 {
        lines[0]
    } else {
        join_lines(lines.drop_last()) + seq!['\n'] + lines.last()
    }
}

/// The tasks that the lines write, with the identifiers 1, 2 and so on in the
/// order of the lines.
pub open spec fn numbered(lines: Seq<Seq<char>>) -> Seq<TaskView> {
    Seq::new(lines.len(), |i: int| parse_line(lines[i]).with_id((i + 1) as nat))
}

impl ListView {
    /// The list without a task, bound to no place.
    pub open spec fn empty() -> ListView {
        ListView { items: Seq::empty(), next_id: 1, path: None }
    }

    /// The list that the file `content` holds: one task for each line that is
    /// not blank, in the order of the file.
    pub open spec fn load(content: Seq<char>) -> ListView {
        ListView {
            items: numbered(task_lines(content)),
            next_id: task_lines(content).len() + 1,
            path: None,
        }
    }

    /// The identifiers ascend and are below the next one to be given, and
    /// each task is well formed.
    pub open spec fn well_formed(self) -> bool {
        &&& self.next_id >= 1
        &&& forall|i: int, j: int|
            0 <= i < j < self.items.len() ==> (#[trigger] self.items[i]).id < (
            #[trigger] self.items[j]).id
        &&& forall|i: int|
            0 <= i < self.items.len() ==> (#[trigger] self.items[i]).id < self.next_id
        &&& forall|i: int| 0 <= i < self.items.len() ==> (#[trigger] self.items[i]).well_formed()
    }

    /// The list with the task of the line `line` at its end, under the next
    /// identifier.
    pub open spec fn add(self, line: Seq<char>) -> ListView {
        ListView {
            items: self.items.push(parse_line(line).with_id(self.next_id)),
            next_id: self.next_id + 1,
            ..self
        }
    }

    /// The list without the task `id`; the list itself where no task has that
    /// identifier.
    pub open spec fn remove(self, id: nat) -> ListView {
        if contains_id(self.items, id) {
            ListView { items: self.items.remove(position(self.items, id)), ..self }
        } else {
            self
        }
    }

    /// The list with the task `id` finished or pending; the list itself where
    /// no task has that identifier.
    pub open spec fn set_finished(self, id: nat, finished: bool) -> ListView {
        if contains_id(self.items, id) {
            let at = position(self.items, id);
            ListView { items: self.items.update(at, self.items[at].with_finished(finished)), ..self }
        } else {
            self
        }
    }

    /// The list bound to the place `path`.
    pub open spec fn bound_to(self, path: Seq<char>) -> ListView {
        ListView { path: Some(path), ..self }
    }

    /// The lines of the tasks, in the order of the list.
    pub open spec fn lines(self) -> Seq<Seq<char>> {
        Seq::new(self.items.len(), |i: int| self.items[i].text())
    }

    /// The file of the list: the lines of its tasks with a line feed between
    /// each two neighbours.
    pub open spec fn text(self) -> Seq<char> {
        join_lines(self.lines())
    }
}

/// What is to be written to save a list: the whole file, and its place.
#[derive(Debug)]
pub struct WriteRequest {
    /// The place to write to.
    pub location: String,
    /// The file, which takes the place of what was there.
    pub content: String,
}

/// An ordered list of tasks.
#[derive(Debug)]
pub struct TodoList {
    items: Vec<TodoItem>,
    path: Option<String>,
    next_id: usize,
}

impl View for TodoList {
    type V = ListView;

    closed spec fn view(&self) -> ListView {
        ListView {
            items: items_view(self.items@),
            next_id: self.next_id as nat,
            path: match self.path {
                Some(p) => Some(p@),
                None => None,
            },
        }
    }
}

impl Clone for TodoList {
    fn clone(&self) -> (copy: TodoList)
        ensures
            copy@ == self@,
    {
        let mut items: Vec<TodoItem> = Vec::new();
        let mut i: usize = 0;
        while i < self.items.len()
            invariant
                i <= self.items.len(),
                items_view(items@) =~= items_view(self.items@).take(i as int),
            decreases self.items.len() - i,
        {
            let item = self.items[i].clone();
            proof {
                assert(items_view(items@.push(item)) =~= items_view(items@).push(item@));
            }
            items.push(item);
            i += 1;
        }
        let path = match &self.path {
            Some(p) => Some(p.clone()),
            None => None,
        };
        let copy = TodoList { items, path, next_id: self.next_id };
        proof {
            assert(items_view(self.items@).take(i as int) =~= items_view(self.items@));
            assert(copy@.items =~= self@.items);
        }
        copy
    }
}

impl Default for TodoList {
    fn default() -> (list: TodoList)
        ensures
            list@ == ListView::empty(),
    {
        TodoList::new()
    }
}

impl TodoList {
    /// The list without a task, bound to no place. The first task that is
    /// added gets the identifier 1.
    pub fn new() -> (list: TodoList)
        ensures
            list@ == ListView::empty(),
            list@.well_formed(),
    {
        let list = TodoList { items: Vec::new(), path: None, next_id: 1 };
        proof {
            assert(list@.items =~= Seq::<TaskView>::empty());
        }
        list
    }

    /// Reads a list from the text of its file: one task for each line that is
    /// not blank, without the white space around the line, in the order of
    /// the file and with the identifiers 1, 2 and so on. The list is bound to
    /// no place.
    pub fn load(content: &str) -> (list: TodoList)
        ensures
            list@ == ListView::load(content@),
            list@.well_formed(),
            list@.next_id < usize::MAX,
    {
        let text = chars_of(content);
        let n = text.len();
        let mut items: Vec<TodoItem> = Vec::new();
        let mut from: usize = 0;
        let mut done = false;
        proof {
            lemma_task_lines_len(text@, 0);
            assert(numbered(Seq::<Seq<char>>::empty()) =~= items_view(items@));
            assert(Seq::<Seq<char>>::empty() + task_lines_from(text@, 0) =~= task_lines(text@));
        }
        let ghost mut seen: Seq<Seq<char>> = Seq::empty();
        while !done
            invariant
                n == text.len(),
                from <= n,
                items_view(items@) == numbered(seen),
                items.len() == seen.len(),
                !done ==> task_lines(text@) == seen + task_lines_from(text@, from as int),
                done ==> task_lines(text@) == seen,
                2 * task_lines(text@).len() <= n + 1,
            decreases n - from + (if done { 0int } else { 1int }),
        {
            let mut end: usize = from;
            while end < n && text[end] != '\n'
                invariant
                    n == text.len(),
                    from <= end <= n,
                    forall|j: int| from <= j < end ==> text@[j] != '\n',
                decreases n - end,
            {
                end += 1;
            }
            proof {
                lemma_line_end(text@, from as int, end as int);
            }
            let line = trimmed(&text, from, end);
            let ghost before = seen;
            if line.len() > 0 {
                proof {
                    seen = seen.push(line@);
                    assert(seen.len() <= task_lines(text@).len()) by {
                        if end < n {
                            assert(task_lines(text@) =~= seen + task_lines_from(
                                text@,
                                end + 1,
                            ));
                        } else {
                            assert(task_lines(text@) =~= seen);
                        }
                    }
                }
                let item = TodoItem::parse(&line, items.len() + 1);
                proof {
                    assert(seen[before.len() as int] == line@);
                    assert forall|k: int| 0 <= k < before.len() implies numbered(seen)[k]
                        == numbered(before)[k] by {
                        assert(seen[k] == before[k]);
                    }
                    assert(items_view(items@.push(item)) =~= numbered(seen));
                }
                items.push(item);
            }
            proof {
                let first = if line@.len() > 0 {
                    seq![line@]
                } else {
                    Seq::<Seq<char>>::empty()
                };
                assert(seen =~= before + first);
                if end < n {
                    assert(before + (first + task_lines_from(text@, end + 1)) =~= seen
                        + task_lines_from(text@, end + 1));
                } else {
                    assert(before + first =~= seen);
                }
            }
            if end < n {
                from = end + 1;
            } else {
                done = true;
            }
        }
        let next_id = items.len() + 1;
        let list = TodoList { items, path: None, next_id };
        proof {
            let lines = task_lines(text@);
            assert forall|i: int| 0 <= i < lines.len() implies (#[trigger] numbered(
                lines,
            )[i]).well_formed() by {
                crate::task::lemma_parse_well_formed(lines[i]);
            }
        }
        list
    }

    /// The list of the file at the place `path`, whose text is `content`:
    /// the list that `load` reads from the text, bound to the place.
    pub fn from_file(path: &str, content: &str) -> (list: TodoList)
        ensures
            list@ == ListView::load(content@).bound_to(path@),
            list@.well_formed(),
            list@.next_id < usize::MAX,
    {
        let mut list = TodoList::load(content);
        list.set_path(path);
        list
    }

    /// The number of tasks.
    pub fn len(&self) -> (n: usize)
        ensures
            n == self@.items.len(),
    {
        self.items.len()
    }

    /// Tells whether the list has no task.
    pub fn is_empty(&self) -> (empty: bool)
        ensures
            empty == (self@.items.len() == 0),
    {
        self.items.len() == 0
    }

    /// The identifier that the next new task gets.
    pub fn next_id(&self) -> (id: usize)
        ensures
            id == self@.next_id,
    {
        self.next_id
    }

    /// Binds the list to the place `path`.
    pub fn set_path(&mut self, path: &str)
        ensures
            final(self)@ == old(self)@.bound_to(path@),
    {
        self.path = Some(String::from_str(path));
    }

    /// The place that the list is bound to, where it is bound to one.
    pub fn path(&self) -> (path: Option<&str>)
        ensures
            match path {
                Some(p) => self@.path == Some(p@),
                None => self@.path is None,
            },
    {
        match &self.path {
            Some(p) => Some(p.as_str()),
            None => None,
        }
    }

    /// The tasks, in the order of the list.
    pub fn items(&self) -> (items: &[TodoItem])
        ensures
            items_view(items@) == self@.items,
    {
        self.items.as_slice()
    }

    /// The index of the first task with the identifier `id`.
    fn find(&self, id: usize) -> (at: Option<usize>)
        ensures
            match at {
                Some(i) => is_position(self@.items, id as nat, i as int) && i < self.items.len(),
                None => !contains_id(self@.items, id as nat),
            },
    {
        let mut i: usize = 0;
        while i < self.items.len()
            invariant
                i <= self.items.len(),
                forall|j: int| 0 <= j < i ==> (#[trigger] self@.items[j]).id != id as nat,
            decreases self.items.len() - i,
        {
            if self.items[i].id() == id {
                return Some(i);
            }
            i += 1;
        }
        None
    }

    /// Adds the task of the line `subject` at the end of the list, under the
    /// next identifier, and returns that identifier.
    pub fn add(&mut self, subject: &str) -> (id: usize)
        requires
            old(self)@.next_id < usize::MAX,
        ensures
            id == old(self)@.next_id,
            final(self)@ == old(self)@.add(subject@),
            old(self)@.well_formed() ==> final(self)@.well_formed(),
    {
        let line = chars_of(subject);
        let id = self.next_id;
        let item = TodoItem::parse(&line, id);
        proof {
            assert(items_view(self.items@.push(item)) =~= items_view(self.items@).push(item@));
        }
        self.items.push(item);
        self.next_id = id + 1;
        id
    }

    /// Takes the task `id` out of the list and returns it. The other tasks
    /// keep their order. Where no task has that identifier, the list stays as
    /// it is.
    pub fn remove(&mut self, id: usize) -> (removed: Option<TodoItem>)
        ensures
            final(self)@ == old(self)@.remove(id as nat),
            match removed {
                Some(item) => contains_id(old(self)@.items, id as nat) && item@ == old(
                    self,
                )@.items[position(old(self)@.items, id as nat)],
                None => !contains_id(old(self)@.items, id as nat),
            },
            old(self)@.well_formed() ==> final(self)@.well_formed(),
    {
        match self.find(id) {
            Some(at) => {
                proof {
                    lemma_position(self@.items, id as nat, at as int);
                    assert(items_view(self.items@.remove(at as int)) =~= items_view(
                        self.items@,
                    ).remove(at as int));
                }
                let item = self.items.remove(at);
                Some(item)
            },
            None => None,
        }
    }

    /// The task `id`.
    pub fn get(&self, id: usize) -> (found: Option<&TodoItem>)
        ensures
            match found {
                Some(item) => contains_id(self@.items, id as nat) && item@ == self@.items[position(
                    self@.items,
                    id as nat,
                )],
                None => !contains_id(self@.items, id as nat),
            },
    {
        match self.find(id) {
            Some(at) => {
                proof {
                    lemma_position(self@.items, id as nat, at as int);
                }
                Some(&self.items[at])
            },
            None => None,
        }
    }

    /// The task `id`, to be changed in place. What the caller leaves there
    /// stands in the list where the task stood.
    pub fn get_mut(&mut self, id: usize) -> (found: Option<&mut TodoItem>)
        ensures
            match found {
                Some(item) => {
                    let at = position(old(self)@.items, id as nat);
                    &&& contains_id(old(self)@.items, id as nat)
                    &&& item@ == old(self)@.items[at]
                    &&& final(self)@ == ListView {
                        items: old(self)@.items.update(at, final(item)@),
                        ..old(self)@
                    }
                },
                None => !contains_id(old(self)@.items, id as nat) && final(self)@ == old(self)@,
            },
    {
        match self.find(id) {
            Some(at) => {
                proof {
                    lemma_position(self@.items, id as nat, at as int);
                    assert forall|item: TodoItem|
                        items_view(self.items@.update(at as int, item)) == #[trigger] items_view(
                            self.items@,
                        ).update(at as int, item@) by {
                        assert(items_view(self.items@.update(at as int, item)) =~= items_view(
                            self.items@,
                        ).update(at as int, item@));
                    }
                }
                Some(&mut self.items[at])
            },
            None => None,
        }
    }

    /// Marks the task `id` as finished, and tells whether there is such a
    /// task. Where there is none, the list stays as it is.
    pub fn complete(&mut self, id: usize) -> (found: bool)
        ensures
            found == contains_id(old(self)@.items, id as nat),
            final(self)@ == old(self)@.set_finished(id as nat, true),
            old(self)@.well_formed() ==> final(self)@.well_formed(),
    {
        let found = match self.get_mut(id) {
            Some(item) => {
                item.complete();
                true
            },
            None => false,
        };
        proof {
            if found {
                lemma_position_exists(old(self)@.items, id as nat);
                lemma_replace_keeps_well_formed(
                    old(self)@,
                    position(old(self)@.items, id as nat),
                    old(self)@.items[position(old(self)@.items, id as nat)].with_finished(true),
                );
            }
        }
        found
    }

    /// Marks the task `id` as pending, and tells whether there is such a
    /// task. Where there is none, the list stays as it is.
    pub fn uncomplete(&mut self, id: usize) -> (found: bool)
        ensures
            found == contains_id(old(self)@.items, id as nat),
            final(self)@ == old(self)@.set_finished(id as nat, false),
            old(self)@.well_formed() ==> final(self)@.well_formed(),
    {
        let found = match self.get_mut(id) {
            Some(item) => {
                item.uncomplete();
                true
            },
            None => false,
        };
        proof {
            if found {
                lemma_position_exists(old(self)@.items, id as nat);
                lemma_replace_keeps_well_formed(
                    old(self)@,
                    position(old(self)@.items, id as nat),
                    old(self)@.items[position(old(self)@.items, id as nat)].with_finished(false),
                );
            }
        }
        found
    }

    /// The tasks that are finished, or those that are pending, in the order
    /// of the list.
    fn select(&self, finished: bool) -> (chosen: Vec<&TodoItem>)
        ensures
            refs_view(chosen@) == self@.items.filter(in_state(finished)),
    {
        let ghost wanted = in_state(finished);
        let mut chosen: Vec<&TodoItem> = Vec::new();
        let mut i: usize = 0;
        while i < self.items.len()
            invariant
                i <= self.items.len(),
                wanted == in_state(finished),
                refs_view(chosen@) =~= self@.items.take(i as int).filter(wanted),
            decreases self.items.len() - i,
        {
            let item = &self.items[i];
            proof {
                let upto = self@.items.take(i + 1);
                assert(upto =~= self@.items.take(i as int).push(item@));
                self@.items.take(i as int).lemma_filter_push(item@, wanted);
            }
            if item.finished() == finished {
                proof {
                    assert(refs_view(chosen@.push(item)) =~= refs_view(chosen@).push(item@));
                }
                chosen.push(item);
            }
            i += 1;
        }
        proof {
            assert(self@.items.take(i as int) =~= self@.items);
        }
        chosen
    }

    /// The tasks that are not finished, in the order of the list.
    pub fn pending(&self) -> (tasks: Vec<&TodoItem>)
        ensures
            refs_view(tasks@) == self@.items.filter(in_state(false)),
    {
        self.select(false)
    }

    /// The tasks that are finished, in the order of the list.
    pub fn done(&self) -> (tasks: Vec<&TodoItem>)
        ensures
            refs_view(tasks@) == self@.items.filter(in_state(true)),
    {
        self.select(true)
    }

    /// The file of the list: the line of each task, with a line feed between
    /// each two neighbours. The list without a task has the empty file.
    pub fn render(&self) -> (content: String)
        ensures
            content@ == self@.text(),
    {
        let mut content = String::new();
        let mut i: usize = 0;
        proof {
            assert(self@.lines().take(0) =~= Seq::<Seq<char>>::empty());
        }
        while i < self.items.len()
            invariant
                i <= self.items.len(),
                content@ == join_lines(self@.lines().take(i as int)),
            decreases self.items.len() - i,
        {
            let line = self.items[i].raw();
            proof {
                let upto = self@.lines().take(i + 1);
                assert(upto.drop_last() =~= self@.lines().take(i as int));
                assert(upto.last() == line@);
                reveal_strlit("\n");
                assert("\n"@ =~= seq!['\n']);
                if i == 0 {
                    assert(Seq::<char>::empty() + line@ =~= line@);
                }
            }
            if i > 0 {
                content.append("\n");
            }
            content.append(line.as_str());
            i += 1;
        }
        proof {
            assert(self@.lines().take(i as int) =~= self@.lines());
        }
        content
    }

    /// What is to be written to save the list at the place it is bound to.
    /// A list that is bound to no place cannot be saved.
    pub fn save(&self) -> (request: Result<WriteRequest, ErrorKind>)
        ensures
            match request {
                Ok(write) => self@.path == Some(write.location@) && write.content@
                    == self@.text(),
                Err(e) => self@.path is None && e == ErrorKind::NotBound,
            },
    {
        match &self.path {
            Some(p) => Ok(WriteRequest { location: p.clone(), content: self.render() }),
            None => Err(ErrorKind::NotBound),
        }
    }

    /// What is to be written to save the list at the place `location`. The
    /// place that the list is bound to stays as it is.
    pub fn save_to(&self, location: &str) -> (write: WriteRequest)
        ensures
            write.location@ == location@,
            write.content@ == self@.text(),
    {
        WriteRequest { location: String::from_str(location), content: self.render() }
    }
}

} // verus!
