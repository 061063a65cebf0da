//! What a list shows to the outside: for each task its identifier, subject,
//! state of completion, priority, contexts and projects.

use crate::list::{items_view, TodoList};
use crate::task::TaskView;
use crate::text::{clone_strings, strings_view};
use vstd::prelude::*;
use vstd::string::StringExecFns;

verus! {

/// One task as the list shows it to the outside.
#[derive(Debug, PartialEq, Eq)]
pub struct TodoResponse {
    pub id: usize,
    pub subject: String,
    pub finished: bool,
    pub priority: u8,
    pub contexts: Vec<String>,
    pub projects: Vec<String>,
}

/// A shown task as a mathematical value.
pub struct ResponseView {
    pub id: nat,
    pub subject: Seq<char>,
    pub finished: bool,
    pub priority: nat,
    pub contexts: Seq<Seq<char>>,
    pub projects: Seq<Seq<char>>,
}

impl View for TodoResponse {
    type V = ResponseView;

    open spec fn view(&self) -> ResponseView {
        ResponseView {
            id: self.id as nat,
            subject: self.subject@,
            finished: self.finished,
            priority: self.priority as nat,
            contexts: strings_view(self.contexts@),
            projects: strings_view(self.projects@),
        }
    }
}

impl Clone for TodoResponse {
    fn clone(&self) -> (copy: TodoResponse)
        ensures
            copy@ == self@,
    {
        TodoResponse {
            id: self.id,
            subject: self.subject.clone(),
            finished: self.finished,
            priority: self.priority,
            contexts: clone_strings(&self.contexts),
            projects: clone_strings(&self.projects),
        }
    }
}

/// The views of a sequence of shown tasks.
pub open spec fn responses_view(responses: Seq<TodoResponse>) -> Seq<ResponseView> {
    Seq::new(responses.len(), |i: int| responses[i]@)
}

/// What the task `task` shows.
pub open spec fn shown(task: TaskView) -> ResponseView {
    ResponseView {
        id: task.id,
        subject: task.subject,
        finished: task.finished,
        priority: task.priority,
        contexts: task.contexts,
        projects: task.projects,
    }
}

/// What the tasks `items` show, in their order.
pub open spec fn all_shown(items: Seq<TaskView>) -> Seq<ResponseView> {
    Seq::new(items.len(), |i: int| shown(items[i]))
}

/// All tasks of the list as it shows them, in the order of the list.
pub fn to_response(list: &TodoList) -> (responses: Vec<TodoResponse>)
    ensures
        responses_view(responses@) == all_shown(list@.items),
{
    let items = list.items();
    let mut responses: Vec<TodoResponse> = Vec::new();
    let mut i: usize = 0;
    while i < items.len()
        invariant
            i <= items.len(),
            items_view(items@) == list@.items,
            responses_view(responses@) =~= all_shown(list@.items).take(i as int),
        decreases items.len() - i,
    {
        let item = &items[i];
        let response = TodoResponse {
            id: item.id(),
            subject: String::from_str(item.subject()),
            finished: item.finished(),
            priority: item.priority(),
            contexts: strings_of(item.contexts()),
            projects: strings_of(item.projects()),
        };
        proof {
            assert(items_view(items@)[i as int] == item@);
            assert(response@ == shown(list@.items[i as int]));
            assert(responses_view(responses@.push(response)) =~= responses_view(responses@).push(
                response@,
            ));
        }
        responses.push(response);
        i += 1;
    }
    responses
}

/// A copy of the texts of a slice.
fn strings_of(texts: &[String]) -> (copy: Vec<String>)
    ensures
        strings_view(copy@) == strings_view(texts@),
{
    let mut copy: Vec<String> = Vec::new();
    let mut i: usize = 0;
    while i < texts.len()
        invariant
            i <= texts.len(),
            strings_view(copy@) =~= strings_view(texts@).take(i as int),
        decreases texts.len() - i,
    {
        let text = texts[i].clone();
        proof {
            assert(strings_view(copy@.push(text)) =~= strings_view(copy@).push(text@));
        }
        copy.push(text);
        i += 1;
    }
    copy
}

} // verus!
