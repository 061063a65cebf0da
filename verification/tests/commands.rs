use todotxt::{
    add_todo, build_project_tree, delete_todo, get_todos, priority_label, to_response, toggle_todo,
    ErrorKind, TodoList, TodoResponse,
};

fn response(
    id: usize,
    subject: &str,
    finished: bool,
    priority: u8,
    contexts: &[&str],
    projects: &[&str],
) -> TodoResponse {
    TodoResponse {
        id,
        subject: subject.to_string(),
        finished,
        priority,
        contexts: contexts.iter().map(|s| s.to_string()).collect(),
        projects: projects.iter().map(|s| s.to_string()).collect(),
    }
}

const FILE: &str = "(A) Buy milk @shopping +home---errands\nx Clean desk @home";

#[test]
fn get_todos_shows_every_task() {
    let todos = get_todos(FILE);
    assert_eq!(
        todos,
        vec![
            response(1, "Buy milk @shopping +home---errands", false, 0, &["shopping"], &["home---errands"]),
            response(2, "Clean desk @home", true, 26, &["home"], &[]),
        ]
    );
    assert!(get_todos("").is_empty());
}

#[test]
fn to_response_follows_the_list() {
    let mut list = TodoList::new();
    list.add("(C) a +p");
    list.add("b");
    list.remove(1);
    assert_eq!(to_response(&list), vec![response(2, "b", false, 26, &[], &[])]);
}

#[test]
fn add_todo_appends_a_line() {
    let outcome = add_todo(FILE, "(B) Call mom +family");
    assert_eq!(
        outcome.content,
        "(A) Buy milk @shopping +home---errands\nx Clean desk @home\n(B) Call mom +family"
    );
    assert_eq!(outcome.todos.len(), 3);
    assert_eq!(outcome.todos[2], response(3, "Call mom +family", false, 1, &[], &["family"]));
    let first = add_todo("", "only");
    assert_eq!(first.content, "only");
    assert_eq!(first.todos, vec![response(1, "only", false, 26, &[], &[])]);
}

#[test]
fn toggle_todo_flips_the_state() {
    let done = toggle_todo(FILE, 1).unwrap();
    assert_eq!(done.content, "x Buy milk @shopping +home---errands\nx Clean desk @home");
    assert!(done.todos[0].finished);
    assert_eq!(done.todos[0].priority, 0);
    let pending = toggle_todo(FILE, 2).unwrap();
    assert_eq!(pending.content, "(A) Buy milk @shopping +home---errands\nClean desk @home");
    assert!(!pending.todos[1].finished);
}

#[test]
fn toggle_todo_of_unknown_identifier_is_not_found() {
    assert_eq!(toggle_todo(FILE, 3).unwrap_err(), ErrorKind::NotFound);
    assert_eq!(toggle_todo(FILE, 0).unwrap_err(), ErrorKind::NotFound);
    assert_eq!(toggle_todo("", 1).unwrap_err(), ErrorKind::NotFound);
}

#[test]
fn delete_todo_takes_the_line_out() {
    let outcome = delete_todo(FILE, 1).unwrap();
    assert_eq!(outcome.content, "x Clean desk @home");
    assert_eq!(outcome.todos, vec![response(2, "Clean desk @home", true, 26, &["home"], &[])]);
    assert_eq!(delete_todo(FILE, 5).unwrap_err(), ErrorKind::NotFound);
}

#[test]
fn priority_label_names_the_first_three() {
    assert_eq!(priority_label(0), Some("A"));
    assert_eq!(priority_label(1), Some("B"));
    assert_eq!(priority_label(2), Some("C"));
    assert_eq!(priority_label(3), None);
    assert_eq!(priority_label(25), None);
    assert_eq!(priority_label(26), None);
    assert_eq!(priority_label(255), None);
}

#[test]
fn tree_of_the_shown_tasks() {
    let forest = build_project_tree(&get_todos(
        "a +home---errands\nb +home---bills +work\nx c +home---errands",
    ));
    assert_eq!(forest.len(), 2);
    assert_eq!(forest[0].full_path, "home");
    assert_eq!(forest[0].children[0].full_path, "home---bills");
    assert_eq!(forest[0].children[0].direct_count, 1);
    assert_eq!(forest[0].children[1].full_path, "home---errands");
    assert_eq!(forest[0].children[1].direct_count, 2);
    assert_eq!(forest[1].direct_count, 1);
}

#[test]
fn response_clone_is_equal() {
    let r = response(4, "s @c", true, 2, &["c"], &[]);
    assert_eq!(r.clone(), r);
}
