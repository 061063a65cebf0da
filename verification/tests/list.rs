use todotxt::{ErrorKind, TodoList, NO_PRIORITY};

#[test]
fn test_add_and_get() {
    let mut list = TodoList::new();
    let id = list.add("Buy milk @shopping +errands");
    let item = list.get(id).unwrap();
    assert_eq!(item.subject(), "Buy milk @shopping +errands");
    assert!(!item.finished());
    assert!(item.contexts().contains(&"shopping".to_string()));
    assert!(item.projects().contains(&"errands".to_string()));
}

#[test]
fn test_complete_and_uncomplete() {
    let mut list = TodoList::new();
    let id = list.add("Do something");
    assert!(list.complete(id));
    assert!(list.get(id).unwrap().finished());
    assert!(list.uncomplete(id));
    assert!(!list.get(id).unwrap().finished());
}

#[test]
fn test_remove() {
    let mut list = TodoList::new();
    let id = list.add("Temporary task");
    assert_eq!(list.len(), 1);
    list.remove(id);
    assert_eq!(list.len(), 0);
}

#[test]
fn test_pending_and_done() {
    let mut list = TodoList::new();
    list.add("Task 1");
    let id2 = list.add("Task 2");
    list.add("Task 3");
    list.complete(id2);

    assert_eq!(list.pending().len(), 2);
    assert_eq!(list.done().len(), 1);
}

#[test]
fn new_list_is_empty_and_unbound() {
    let list = TodoList::new();
    assert!(list.is_empty());
    assert_eq!(list.len(), 0);
    assert_eq!(list.next_id(), 1);
    assert_eq!(list.path(), None);
    assert_eq!(list.render(), "");
    let other = TodoList::default();
    assert!(other.is_empty());
    assert_eq!(other.next_id(), 1);
}

#[test]
fn load_reads_two_tasks() {
    let list = TodoList::load("(A) Buy milk @shopping +home---errands\nx Clean desk @home");
    assert_eq!(list.len(), 2);
    let first = list.get(1).unwrap();
    assert_eq!(first.priority(), 0);
    assert_eq!(first.contexts().to_vec(), vec!["shopping".to_string()]);
    assert_eq!(first.projects().to_vec(), vec!["home---errands".to_string()]);
    assert!(!first.finished());
    let second = list.get(2).unwrap();
    assert!(second.finished());
    assert_eq!(second.contexts().to_vec(), vec!["home".to_string()]);
    assert!(second.projects().is_empty());
    assert_eq!(second.subject(), "Clean desk @home");
    assert_eq!(list.next_id(), 3);
}

#[test]
fn load_skips_blank_lines_and_trims() {
    let list = TodoList::load("\n  first task  \r\n\n\t\n(B) second\n   \nx third\n");
    assert_eq!(list.len(), 3);
    assert_eq!(list.items()[0].subject(), "first task");
    assert_eq!(list.items()[0].id(), 1);
    assert_eq!(list.items()[1].subject(), "second");
    assert_eq!(list.items()[1].priority(), 1);
    assert_eq!(list.items()[1].id(), 2);
    assert_eq!(list.items()[2].subject(), "third");
    assert!(list.items()[2].finished());
    assert_eq!(list.items()[2].id(), 3);
    assert_eq!(list.render(), "first task\n(B) second\nx third");
}

#[test]
fn from_file_binds_the_list() {
    let list = TodoList::from_file("notes/todo.txt", "a\n\n(B) b\n");
    assert_eq!(list.path(), Some("notes/todo.txt"));
    assert_eq!(list.len(), 2);
    assert_eq!(list.next_id(), 3);
    let write = list.save().unwrap();
    assert_eq!(write.location, "notes/todo.txt");
    assert_eq!(write.content, "a\n(B) b");
}

#[test]
fn load_of_nothing_is_the_empty_list() {
    assert!(TodoList::load("").is_empty());
    assert!(TodoList::load("\n\n \n").is_empty());
    assert_eq!(TodoList::load("").next_id(), 1);
}

#[test]
fn add_gives_ascending_identifiers() {
    let mut list = TodoList::new();
    assert_eq!(list.add("Call mom"), 1);
    assert_eq!(list.add("Pay rent"), 2);
    let removed = list.remove(1).unwrap();
    assert_eq!(removed.subject(), "Call mom");
    assert_eq!(removed.id(), 1);
    assert_eq!(list.len(), 1);
    assert!(list.get(1).is_none());
    assert_eq!(list.get(2).unwrap().subject(), "Pay rent");
    assert_eq!(list.add("Water plants"), 3);
    assert_eq!(list.get(3).unwrap().subject(), "Water plants");
}

#[test]
fn identifier_is_not_given_again_after_remove() {
    let mut list = TodoList::new();
    let a = list.add("a");
    let b = list.add("b");
    list.remove(b);
    list.remove(a);
    assert!(list.is_empty());
    let c = list.add("c");
    assert!(c > a && c > b);
    assert_eq!(c, 3);
}

#[test]
fn added_task_stays_under_its_identifier() {
    let mut list = TodoList::load("one\ntwo");
    let id = list.add("(C) three +p");
    list.complete(1);
    list.remove(2);
    list.add("four");
    list.uncomplete(1);
    let item = list.get(id).unwrap();
    assert_eq!(item.id(), id);
    assert_eq!(item.subject(), "three +p");
    assert_eq!(item.priority(), 2);
    assert!(!item.finished());
}

#[test]
fn complete_twice_is_complete_once() {
    let mut once = TodoList::load("(A) a\nb");
    let mut twice = TodoList::load("(A) a\nb");
    once.complete(1);
    twice.complete(1);
    twice.complete(1);
    assert_eq!(once.render(), twice.render());
    assert!(twice.get(1).unwrap().finished());
    assert_eq!(twice.get(1).unwrap().priority(), 0);
    once.uncomplete(1);
    twice.uncomplete(1);
    twice.uncomplete(1);
    assert_eq!(once.render(), twice.render());
    assert_eq!(twice.render(), "(A) a\nb");
}

#[test]
fn complete_of_unknown_identifier_changes_nothing() {
    let mut list = TodoList::load("(A) a\nx b");
    let before = list.render();
    assert!(!list.complete(7));
    assert!(!list.uncomplete(7));
    assert!(list.remove(7).is_none());
    assert!(list.get(7).is_none());
    assert!(list.get_mut(7).is_none());
    assert_eq!(list.render(), before);
    assert_eq!(list.len(), 2);
    assert_eq!(list.next_id(), 3);
}

#[test]
fn remove_keeps_the_order_of_the_others() {
    let mut list = TodoList::load("a\nb\nc\nd");
    list.remove(2);
    assert_eq!(list.render(), "a\nc\nd");
    let ids: Vec<usize> = list.items().iter().map(|i| i.id()).collect();
    assert_eq!(ids, vec![1, 3, 4]);
}

#[test]
fn get_mut_changes_the_task_in_place() {
    let mut list = TodoList::load("a\nb");
    {
        let item = list.get_mut(2).unwrap();
        item.set_priority(3);
        item.set_subject("bee @hive");
    }
    assert_eq!(list.render(), "a\n(D) bee @hive");
    assert_eq!(list.get(2).unwrap().contexts().to_vec(), vec!["hive".to_string()]);
}

#[test]
fn pending_and_done_keep_the_order() {
    let list = TodoList::load("a\nx b\nc\nx d");
    let pending: Vec<&str> = list.pending().iter().map(|i| i.subject()).collect();
    let done: Vec<&str> = list.done().iter().map(|i| i.subject()).collect();
    assert_eq!(pending, vec!["a", "c"]);
    assert_eq!(done, vec!["b", "d"]);
}

#[test]
fn save_needs_a_place() {
    let mut list = TodoList::load("a\n(B) b");
    assert_eq!(list.save().unwrap_err(), ErrorKind::NotBound);
    list.set_path("todo.txt");
    assert_eq!(list.path(), Some("todo.txt"));
    let write = list.save().unwrap();
    assert_eq!(write.location, "todo.txt");
    assert_eq!(write.content, "a\n(B) b");
}

#[test]
fn save_to_leaves_the_binding() {
    let mut list = TodoList::load("a");
    list.set_path("here.txt");
    let write = list.save_to("there.txt");
    assert_eq!(write.location, "there.txt");
    assert_eq!(write.content, "a");
    assert_eq!(list.path(), Some("here.txt"));
    let unbound = TodoList::load("x");
    assert_eq!(unbound.save_to("p").content, "x");
    assert_eq!(unbound.path(), None);
}

#[test]
fn clone_is_the_same_list() {
    let mut list = TodoList::load("(A) a @c\nx 2024-01-02 b");
    list.set_path("f");
    let copy = list.clone();
    assert_eq!(copy.render(), list.render());
    assert_eq!(copy.path(), Some("f"));
    assert_eq!(copy.next_id(), 3);
    assert_eq!(copy.get(1).unwrap().priority(), 0);
}

#[test]
fn error_messages() {
    assert_eq!(ErrorKind::NotFound.message(), "Todo not found");
    assert_eq!(ErrorKind::NotBound.message(), "no file path set");
    assert_eq!(ErrorKind::Io.message(), "Todo file could not be read or written");
}

#[test]
fn task_without_priority_reports_none() {
    let list = TodoList::load("plain");
    assert_eq!(list.get(1).unwrap().priority(), NO_PRIORITY);
}

#[test]
fn load_trims_every_white_space() {
    let list = TodoList::load("\u{3000}(A) a\u{a0}\n\u{2003}\u{2003}\nx b \u{85}");
    assert_eq!(list.len(), 2);
    assert_eq!(list.render(), "(A) a\nx b");
    assert_eq!(list.get(1).unwrap().priority(), 0);
    assert!(list.get(2).unwrap().finished());
}

#[test]
fn add_takes_the_line_as_it_is() {
    let mut list = TodoList::new();
    let id = list.add("  (A) not a priority ");
    let item = list.get(id).unwrap();
    assert_eq!(item.priority(), NO_PRIORITY);
    assert_eq!(item.subject(), "  (A) not a priority ");
    assert_eq!(list.render(), "  (A) not a priority ");
}
