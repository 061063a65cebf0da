//! The operations that the list offers to the outside, each from the text of
//! the file as it is to the text of the file as it is to be, and the tasks to
//! show. Reading the file before and writing it after is the caller's part.

use crate::error::ErrorKind;
use crate::list::{contains_id, position, ListView, TodoList};
use crate::snapshot::{all_shown, responses_view, to_response, TodoResponse};
use vstd::prelude::*;

verus! {

/// What an operation that changes the list leaves: the file to write, and
/// the tasks to show.
#[derive(Debug)]
pub struct Outcome {
    /// The text of the file after the operation.
    pub content: String,
    /// All tasks after the operation, in the order of the list.
    pub todos: Vec<TodoResponse>,
}

/// `outcome` is what the list `list` leaves.
pub open spec fn is_outcome_of(outcome: Outcome, list: ListView) -> bool {
    &&& outcome.content@ == list.text()
    &&& responses_view(outcome.todos@) == all_shown(list.items)
}

/// The list with the task `id` finished where it was pending, and pending
/// where it was finished.
pub open spec fn toggled(list: ListView, id: nat) -> ListView {
    list.set_finished(id, !list.items[position(list.items, id)].finished)
}

/// What the list leaves.
fn outcome_of(list: &TodoList) -> (outcome: Outcome)
    ensures
        is_outcome_of(outcome, list@),
{
    Outcome { content: list.render(), todos: to_response(list) }
}

/// All tasks of the file `content`, in the order of the file.
pub fn get_todos(content: &str) -> (todos: Vec<TodoResponse>)
    ensures
        responses_view(todos@) == all_shown(ListView::load(content@).items),
{
    let list = TodoList::load(content);
    to_response(&list)
}

/// Adds the task of the line `text` at the end of the file `content`.
pub fn add_todo(content: &str, text: &str) -> (outcome: Outcome)
    ensures
        is_outcome_of(outcome, ListView::load(content@).add(text@)),
{
    let mut list = TodoList::load(content);
    list.add(text);
    outcome_of(&list)
}

/// Finishes the task `id` of the file `content` where it is pending, and sets
/// it pending where it is finished. Where no task has that identifier,
/// nothing is to be written.
pub fn toggle_todo(content: &str, id: usize) -> (result: Result<Outcome, ErrorKind>)
    ensures
        match result {
            Ok(outcome) => contains_id(ListView::load(content@).items, id as nat)
                && is_outcome_of(outcome, toggled(ListView::load(content@), id as nat)),
            Err(e) => !contains_id(ListView::load(content@).items, id as nat) && e
                == ErrorKind::NotFound,
        },
{
    let mut list = TodoList::load(content);
    let finished = match list.get(id) {
        Some(item) => item.finished(),
        None => {
            return Err(ErrorKind::NotFound);
        },
    };
    if finished {
        list.uncomplete(id);
    } else {
        list.complete(id);
    }
    Ok(outcome_of(&list))
}

/// Takes the task `id` out of the file `content`. Where no task has that
/// identifier, nothing is to be written.
pub fn delete_todo(content: &str, id: usize) -> (result: Result<Outcome, ErrorKind>)
    ensures
        match result {
            Ok(outcome) => contains_id(ListView::load(content@).items, id as nat)
                && is_outcome_of(outcome, ListView::load(content@).remove(id as nat)),
            Err(e) => !contains_id(ListView::load(content@).items, id as nat) && e
                == ErrorKind::NotFound,
        },
{
    let mut list = TodoList::load(content);
    match list.remove(id) {
        Some(_) => Ok(outcome_of(&list)),
        None => Err(ErrorKind::NotFound),
    }
}

} // verus!
