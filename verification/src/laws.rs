//! What holds of a list of tasks over any run of operations on it.

use crate::list::{
    contains_id, is_position, lemma_position, lemma_position_exists,
    lemma_replace_keeps_well_formed, position, ListView,
};
use crate::task::{lemma_parse_well_formed, parse_line, TaskView};
use vstd::prelude::*;

verus! {

/// One operation that changes a list.
pub enum Operation {
    /// Add the task of a line.
    Add { line: Seq<char> },
    /// Take the task with an identifier out.
    Remove { id: nat },
    /// Mark the task with an identifier as finished.
    Complete { id: nat },
    /// Mark the task with an identifier as pending.
    Uncomplete { id: nat },
}

/// The list after the operation `op`.
pub open spec fn apply(list: ListView, op: Operation) -> ListView {
    match op {
        Operation::Add { line } => list.add(line),
        Operation::Remove { id } => list.remove(id),
        Operation::Complete { id } => list.set_finished(id, true),
        Operation::Uncomplete { id } => list.set_finished(id, false),
    }
}

/// The list after the operations `ops`, one after the other.
pub open spec fn run(list: ListView, ops: Seq<Operation>) -> ListView
    decreases ops.len(),
{
    if ops.len() == 0 {
        list
    } else {
        apply(run(list, ops.drop_last()), ops.last())
    }
}

/// The task of `items` that has the identifier `id`.
pub open spec fn task_with(items: Seq<TaskView>, id: nat) -> TaskView {
    items[position(items, id)]
}

/// In a well-formed list the task at an index is the one found by its
/// identifier.
pub proof fn lemma_found_at(list: ListView, i: int)
    requires
        list.well_formed(),
        0 <= i < list.items.len(),
    ensures
        contains_id(list.items, list.items[i].id),
        position(list.items, list.items[i].id) == i,
{
    assert forall|j: int| 0 <= j < i implies (#[trigger] list.items[j]).id != list.items[i].id by {
        assert(list.items[j].id < list.items[i].id);
    }
    lemma_position(list.items, list.items[i].id, i);
}

/// Every operation keeps a well-formed list well formed, and gives no
/// identifier back: the next identifier never falls.
pub proof fn lemma_apply(list: ListView, op: Operation)
    requires
        list.well_formed(),
    ensures
        apply(list, op).well_formed(),
        apply(list, op).next_id >= list.next_id,
        apply(list, op).path == list.path,
{
    let after = apply(list, op);
    match op {
        Operation::Add { line } => {
            lemma_parse_well_formed(line);
        },
        Operation::Remove { id } => {
            if contains_id(list.items, id) {
                lemma_position_exists(list.items, id);
                let at = position(list.items, id);
                assert forall|i: int, j: int| 0 <= i < j < after.items.len() implies (
                #[trigger] after.items[i]).id < (#[trigger] after.items[j]).id by {
                    let a = if i < at {
                        i
                    } else {
                        i + 1
                    };
                    let b = if j < at {
                        j
                    } else {
                        j + 1
                    };
                    assert(after.items[i] == list.items[a]);
                    assert(after.items[j] == list.items[b]);
                }
                assert forall|i: int| 0 <= i < after.items.len() implies (
                #[trigger] after.items[i]).id < after.next_id && after.items[i].well_formed() by {
                    let a = if i < at {
                        i
                    } else {
                        i + 1
                    };
                    assert(after.items[i] == list.items[a]);
                }
            }
        },
        Operation::Complete { id } => {
            if contains_id(list.items, id) {
                lemma_position_exists(list.items, id);
                let at = position(list.items, id);
                lemma_replace_keeps_well_formed(list, at, list.items[at].with_finished(true));
            }
        },
        Operation::Uncomplete { id } => {
            if contains_id(list.items, id) {
                lemma_position_exists(list.items, id);
                let at = position(list.items, id);
                lemma_replace_keeps_well_formed(list, at, list.items[at].with_finished(false));
            }
        },
    }
}

/// A run of operations keeps a well-formed list well formed, and the next
/// identifier never falls.
pub proof fn lemma_run(list: ListView, ops: Seq<Operation>)
    requires
        list.well_formed(),
    ensures
        run(list, ops).well_formed(),
        run(list, ops).next_id >= list.next_id,
    decreases ops.len(),
{
    if ops.len() > 0 {
        lemma_run(list, ops.drop_last());
        lemma_apply(run(list, ops.drop_last()), ops.last());
    }
}

/// The next identifier after more operations is no less than after fewer.
pub proof fn lemma_next_id_grows(list: ListView, ops: Seq<Operation>, i: int, j: int)
    requires
        list.well_formed(),
        0 <= i <= j <= ops.len(),
    ensures
        run(list, ops.take(i)).next_id <= run(list, ops.take(j)).next_id,
        run(list, ops.take(i)).well_formed(),
    decreases j - i,
{
    lemma_run(list, ops.take(i));
    if i < j {
        lemma_next_id_grows(list, ops, i, j - 1);
        lemma_run(list, ops.take(j - 1));
        assert(ops.take(j).drop_last() =~= ops.take(j - 1));
        lemma_apply(run(list, ops.take(j - 1)), ops[j - 1]);
    }
}

/// The identifier that the operation at index `i` gives, where it adds a
/// task: the next identifier of the list as the operations before it left it.
pub open spec fn identifier_given(list: ListView, ops: Seq<Operation>, i: int) -> nat {
    run(list, ops.take(i)).next_id
}

/// Identifiers ascend: of two additions in a run of operations on a
/// well-formed list, the later one gives the greater identifier. And no
/// identifier comes back: the one that an addition gives is that of no task
/// of the list at any time before, whether the task is still there or was
/// taken out.
pub proof fn law_identifiers_ascend(list: ListView, ops: Seq<Operation>, i: int, j: int)
    requires
        list.well_formed(),
        0 <= i < j < ops.len(),
        ops[i] is Add,
        ops[j] is Add,
    ensures
        identifier_given(list, ops, i) < identifier_given(list, ops, j),
        forall|k: int|
            0 <= k <= j ==> !contains_id(
                #[trigger] run(list, ops.take(k)).items,
                identifier_given(list, ops, j),
            ),
{
    lemma_next_id_grows(list, ops, i + 1, j);
    lemma_run(list, ops.take(i));
    assert(ops.take(i + 1).drop_last() =~= ops.take(i));
    assert(run(list, ops.take(i + 1)).next_id == run(list, ops.take(i)).next_id + 1);
    assert forall|k: int| 0 <= k <= j implies !contains_id(
        #[trigger] run(list, ops.take(k)).items,
        identifier_given(list, ops, j),
    ) by {
        lemma_next_id_grows(list, ops, k, j);
    }
}

/// Two tasks are the same but for being finished or pending.
pub open spec fn same_record(a: TaskView, b: TaskView) -> bool {
    a.with_finished(false) == b.with_finished(false)
}

/// An operation that does not take the task `id` out leaves it in the list,
/// the same record under the same identifier.
pub proof fn lemma_record_stays(list: ListView, op: Operation, id: nat)
    requires
        list.well_formed(),
        contains_id(list.items, id),
        op != (Operation::Remove { id }),
    ensures
        contains_id(apply(list, op).items, id),
        same_record(task_with(apply(list, op).items, id), task_with(list.items, id)),
        task_with(apply(list, op).items, id).id == id,
{
    let after = apply(list, op);
    lemma_apply(list, op);
    lemma_position_exists(list.items, id);
    let at = position(list.items, id);
    match op {
        Operation::Add { line } => {
            assert(after.items[at] == list.items[at]);
            lemma_found_at(after, at);
        },
        Operation::Remove { id: other } => {
            if contains_id(list.items, other) {
                lemma_position_exists(list.items, other);
                let gone = position(list.items, other);
                let now = if at < gone {
                    at
                } else {
                    at - 1
                };
                assert(after.items[now] == list.items[at]);
                lemma_found_at(after, now);
            }
        },
        Operation::Complete { id: other } => {
            if contains_id(list.items, other) {
                lemma_position_exists(list.items, other);
                assert(after.items[at].id == id);
                lemma_found_at(after, at);
            }
        },
        Operation::Uncomplete { id: other } => {
            if contains_id(list.items, other) {
                lemma_position_exists(list.items, other);
                assert(after.items[at].id == id);
                lemma_found_at(after, at);
            }
        },
    }
}

/// An identifier is stable: the task that was added under it is found under
/// it right away, and after any run of operations that does not take it out
/// it is still found under it, the same record but for being finished or
/// pending.
pub proof fn law_identifier_is_stable(list: ListView, line: Seq<char>, ops: Seq<Operation>)
    requires
        list.well_formed(),
        forall|k: int| 0 <= k < ops.len() ==> ops[k] != (Operation::Remove { id: list.next_id }),
    ensures
        contains_id(list.add(line).items, list.next_id),
        task_with(list.add(line).items, list.next_id) == parse_line(line).with_id(list.next_id),
        contains_id(run(list.add(line), ops).items, list.next_id),
        same_record(
            task_with(run(list.add(line), ops).items, list.next_id),
            parse_line(line).with_id(list.next_id),
        ),
        task_with(run(list.add(line), ops).items, list.next_id).id == list.next_id,
    decreases ops.len(),
{
    let id = list.next_id;
    let start = list.add(line);
    lemma_apply(list, Operation::Add { line });
    lemma_found_at(start, list.items.len() as int);
    if ops.len() > 0 {
        law_identifier_is_stable(list, line, ops.drop_last());
        lemma_run(start, ops.drop_last());
        lemma_record_stays(run(start, ops.drop_last()), ops.last(), id);
    }
}

/// Finishing a task of a list twice leaves the list as finishing it once
/// does, and so for setting it pending.
pub proof fn law_set_finished_twice(list: ListView, id: nat, finished: bool)
    ensures
        list.set_finished(id, finished).set_finished(id, finished) == list.set_finished(
            id,
            finished,
        ),
{
    if contains_id(list.items, id) {
        lemma_position_exists(list.items, id);
        let at = position(list.items, id);
        let once = list.set_finished(id, finished);
        assert(is_position(once.items, id, at)) by {
            assert forall|j: int| 0 <= j < at implies (#[trigger] once.items[j]).id != id by {
                assert(once.items[j] == list.items[j]);
            }
        }
        lemma_position(once.items, id, at);
        assert(once.set_finished(id, finished).items =~= once.items);
    }
}

/// An operation on an identifier that no task has leaves the list as it is.
pub proof fn law_unknown_identifier_changes_nothing(list: ListView, id: nat, finished: bool)
    requires
        !contains_id(list.items, id),
    ensures
        list.set_finished(id, finished) == list,
        list.remove(id) == list,
{
}

} // verus!
