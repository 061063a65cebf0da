use todotxt::{build_project_tree, build_tree, ProjectNode, TodoResponse, PROJECT_SEPARATOR};

fn tags(v: &[&str]) -> Vec<String> {
    v.iter().map(|s| s.to_string()).collect()
}

fn node(name: &str, full_path: &str, direct_count: usize, children: Vec<ProjectNode>) -> ProjectNode {
    ProjectNode { name: name.to_string(), full_path: full_path.to_string(), direct_count, children }
}

fn total(forest: &[ProjectNode]) -> usize {
    forest.iter().map(|n| n.direct_count + total(&n.children)).sum()
}

fn todo(id: usize, projects: &[&str]) -> TodoResponse {
    TodoResponse {
        id,
        subject: String::new(),
        finished: false,
        priority: 26,
        contexts: Vec::new(),
        projects: tags(projects),
    }
}

#[test]
fn separator_is_three_hyphens() {
    assert_eq!(PROJECT_SEPARATOR, "---");
}

#[test]
fn tree_of_three_tags() {
    let forest = build_tree(&tags(&["home---errands", "home---bills", "work"]));
    let expected = vec![
        node(
            "home",
            "home",
            0,
            vec![
                node("bills", "home---bills", 1, vec![]),
                node("errands", "home---errands", 1, vec![]),
            ],
        ),
        node("work", "work", 1, vec![]),
    ];
    assert_eq!(forest, expected);
}

#[test]
fn tree_of_no_tags_is_empty() {
    assert!(build_tree(&Vec::new()).is_empty());
    assert!(build_project_tree(&[]).is_empty());
    assert!(build_project_tree(&[todo(1, &[]), todo(2, &[])]).is_empty());
}

#[test]
fn empty_tag_counts_for_nothing() {
    assert!(build_tree(&tags(&[""])).is_empty());
    let forest = build_tree(&tags(&["", "a", ""]));
    assert_eq!(forest, vec![node("a", "a", 1, vec![])]);
    assert_eq!(total(&forest), 1);
}

#[test]
fn same_tag_counts_into_the_same_node() {
    let forest = build_tree(&tags(&["a---b", "a", "a---b", "a---b---c", "a"]));
    let expected = vec![node(
        "a",
        "a",
        2,
        vec![node("b", "a---b", 2, vec![node("c", "a---b---c", 1, vec![])])],
    )];
    assert_eq!(forest, expected);
    assert_eq!(total(&forest), 5);
}

#[test]
fn empty_segments_are_kept() {
    assert_eq!(
        build_tree(&tags(&["a---"])),
        vec![node("a", "a", 0, vec![node("", "a---", 1, vec![])])]
    );
    assert_eq!(
        build_tree(&tags(&["---a"])),
        vec![node("", "", 0, vec![node("a", "---a", 1, vec![])])]
    );
    assert_eq!(
        build_tree(&tags(&["a------b"])),
        vec![node(
            "a",
            "a",
            0,
            vec![node("", "a---", 0, vec![node("b", "a------b", 1, vec![])])]
        )]
    );
    assert_eq!(
        build_tree(&tags(&["---"])),
        vec![node("", "", 0, vec![node("", "---", 1, vec![])])]
    );
}

#[test]
fn separator_is_found_from_the_left() {
    assert_eq!(
        build_tree(&tags(&["a----b"])),
        vec![node("a", "a", 0, vec![node("-b", "a----b", 1, vec![])])]
    );
    assert_eq!(build_tree(&tags(&["a--b"])), vec![node("a--b", "a--b", 1, vec![])]);
    assert_eq!(build_tree(&tags(&["a-b"])), vec![node("a-b", "a-b", 1, vec![])]);
}

#[test]
fn children_are_in_the_order_of_the_dictionary() {
    let forest = build_tree(&tags(&["b", "a", "B", "ab", "", "a1", "é", "z", "a---z", "a---b"]));
    let names: Vec<&str> = forest.iter().map(|n| n.name.as_str()).collect();
    let mut sorted: Vec<String> = names.iter().map(|s| s.to_string()).collect();
    sorted.sort();
    assert_eq!(names, vec!["B", "a", "a1", "ab", "b", "z", "é"]);
    assert_eq!(names, sorted.iter().map(|s| s.as_str()).collect::<Vec<&str>>());
    let below: Vec<&str> = forest[1].children.iter().map(|n| n.name.as_str()).collect();
    assert_eq!(below, vec!["b", "z"]);
}

#[test]
fn order_of_tags_is_immaterial() {
    let one = build_tree(&tags(&["x---y", "a", "x", "a---b---c", "x---y", "m---"]));
    let two = build_tree(&tags(&["m---", "x---y", "a---b---c", "x", "x---y", "a"]));
    let three = build_tree(&tags(&["a", "a---b---c", "m---", "x", "x---y", "x---y"]));
    assert_eq!(one, two);
    assert_eq!(one, three);
}

#[test]
fn counts_add_up_to_the_number_of_tags() {
    let all = tags(&["x---y", "a", "x", "a---b---c", "x---y", "m---", "a", "a", "---"]);
    let forest = build_tree(&all);
    assert_eq!(total(&forest), all.len());
    let with_empty = tags(&["", "p", "", "p---q"]);
    assert_eq!(total(&build_tree(&with_empty)), 2);
}

#[test]
fn tree_of_tasks_ignores_which_task_carries_a_tag() {
    let spread = [todo(1, &["home---errands"]), todo(2, &[]), todo(3, &["work", "home---bills"])];
    let gathered = [todo(9, &["work", "home---bills", "home---errands"])];
    let forest = build_project_tree(&spread);
    assert_eq!(forest, build_project_tree(&gathered));
    assert_eq!(forest, build_tree(&tags(&["home---errands", "home---bills", "work"])));
    assert_eq!(forest.len(), 2);
    assert_eq!(forest[0].name, "home");
    assert_eq!(forest[0].direct_count, 0);
    assert_eq!(forest[0].children.len(), 2);
    assert_eq!(forest[1].name, "work");
    assert_eq!(forest[1].direct_count, 1);
    assert!(forest[1].children.is_empty());
}
