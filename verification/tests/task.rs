use todotxt::{Date, TodoItem, NO_PRIORITY};

fn texts(v: &[String]) -> Vec<&str> {
    v.iter().map(|s| s.as_str()).collect()
}

#[test]
fn plain_line_is_all_subject() {
    let item = TodoItem::new("Call mom");
    assert_eq!(item.id(), 0);
    assert_eq!(item.subject(), "Call mom");
    assert!(!item.finished());
    assert_eq!(item.priority(), NO_PRIORITY);
    assert_eq!(item.completed_on(), None);
    assert_eq!(item.created_on(), None);
    assert!(item.contexts().is_empty());
    assert!(item.projects().is_empty());
    assert_eq!(item.raw(), "Call mom");
}

#[test]
fn priority_is_read_from_a_pending_line() {
    let item = TodoItem::new("(A) Buy milk @shopping +home---errands");
    assert_eq!(item.priority(), 0);
    assert_eq!(item.subject(), "Buy milk @shopping +home---errands");
    assert_eq!(texts(item.contexts()), vec!["shopping"]);
    assert_eq!(texts(item.projects()), vec!["home---errands"]);
    assert_eq!(TodoItem::new("(Z) last").priority(), 25);
    assert_eq!(TodoItem::new("(M) mid").priority(), 12);
}

#[test]
fn malformed_priority_is_part_of_the_subject() {
    for line in ["(a) low", "(A)no space", "(AB) two", "( ) none", "(1) digit", "(A", " (A) late"] {
        let item = TodoItem::new(line);
        assert_eq!(item.priority(), NO_PRIORITY);
        assert_eq!(item.subject(), line);
        assert_eq!(item.raw(), line);
    }
}

#[test]
fn priority_is_not_read_after_the_completion_mark() {
    let item = TodoItem::new("x (A) done");
    assert!(item.finished());
    assert_eq!(item.priority(), NO_PRIORITY);
    assert_eq!(item.subject(), "(A) done");
    assert_eq!(item.raw(), "x (A) done");
}

#[test]
fn completion_mark_and_dates() {
    let item = TodoItem::new("x 2024-02-29 2024-01-15 Pay rent +home");
    assert!(item.finished());
    assert_eq!(item.completed_on(), Some(Date { year: 2024, month: 2, day: 29 }));
    assert_eq!(item.created_on(), Some(Date { year: 2024, month: 1, day: 15 }));
    assert_eq!(item.subject(), "Pay rent +home");
    assert_eq!(texts(item.projects()), vec!["home"]);
    assert_eq!(item.raw(), "x 2024-02-29 2024-01-15 Pay rent +home");

    let one = TodoItem::new("x 0007-12-31 old");
    assert_eq!(one.completed_on(), Some(Date { year: 7, month: 12, day: 31 }));
    assert_eq!(one.created_on(), None);
    assert_eq!(one.subject(), "old");
    assert_eq!(one.raw(), "x 0007-12-31 old");
}

#[test]
fn a_date_that_is_no_day_is_part_of_the_subject() {
    for line in [
        "x 2023-02-29 not a leap year",
        "x 1900-02-29 no leap year either",
        "x 2024-13-01 month",
        "x 2024-00-10 month",
        "x 2024-04-31 day",
        "x 2024-01-00 day",
        "x 2024-1-01 short",
        "x 2024/01/01 slashes",
        "x 2024-01-01",
        "x 2024-01-01\tTab",
    ] {
        let item = TodoItem::new(line);
        assert!(item.finished());
        assert_eq!(item.completed_on(), None);
        assert_eq!(item.subject(), &line[2..]);
        assert_eq!(item.raw(), line);
    }
    let leap = TodoItem::new("x 2000-02-29 leap");
    assert_eq!(leap.completed_on(), Some(Date { year: 2000, month: 2, day: 29 }));
    let second_bad = TodoItem::new("x 2024-01-01 2024-02-30 rest");
    assert_eq!(second_bad.completed_on(), Some(Date { year: 2024, month: 1, day: 1 }));
    assert_eq!(second_bad.created_on(), None);
    assert_eq!(second_bad.subject(), "2024-02-30 rest");
}

#[test]
fn dates_are_not_read_from_a_pending_line() {
    let item = TodoItem::new("2024-01-01 plan");
    assert!(!item.finished());
    assert_eq!(item.created_on(), None);
    assert_eq!(item.subject(), "2024-01-01 plan");
    let with_priority = TodoItem::new("(B) 2024-01-01 plan");
    assert_eq!(with_priority.priority(), 1);
    assert_eq!(with_priority.subject(), "2024-01-01 plan");
}

#[test]
fn completion_mark_needs_its_space() {
    for line in ["x", "xylophone", "X done", " x late"] {
        let item = TodoItem::new(line);
        assert!(!item.finished());
        assert_eq!(item.subject(), line);
    }
    let bare = TodoItem::new("x ");
    assert!(bare.finished());
    assert_eq!(bare.subject(), "");
    assert_eq!(bare.raw(), "x ");
}

#[test]
fn tags_keep_order_and_duplicates() {
    let item = TodoItem::new("a @b +q @a @b +p +q");
    assert_eq!(texts(item.contexts()), vec!["b", "a", "b"]);
    assert_eq!(texts(item.projects()), vec!["q", "p", "q"]);
}

#[test]
fn tags_are_whole_tokens() {
    let item = TodoItem::new("mail bob@example.com 1+1 @home, +a+b\t@x\u{3000}+y @ + @@ ++");
    assert_eq!(texts(item.contexts()), vec!["home,", "x", "@"]);
    assert_eq!(texts(item.projects()), vec!["a+b", "y", "+"]);
    let start = TodoItem::new("+Project1");
    assert_eq!(texts(start.projects()), vec!["Project1"]);
    let unicode = TodoItem::new("écrire @café +tâche---été");
    assert_eq!(texts(unicode.contexts()), vec!["café"]);
    assert_eq!(texts(unicode.projects()), vec!["tâche---été"]);
}

#[test]
fn empty_line_is_an_empty_task() {
    let item = TodoItem::new("");
    assert_eq!(item.subject(), "");
    assert_eq!(item.raw(), "");
    assert!(item.contexts().is_empty());
}

#[test]
fn reading_and_writing_gives_the_line_back() {
    for line in [
        "(A) Buy milk @shopping +home---errands",
        "x Clean desk @home",
        "x 2024-02-29 2024-01-15 Pay rent +home",
        "x 2024-02-29 Pay rent",
        "x (A) 2024-01-01 odd",
        "(C)  two spaces",
        "  leading",
        "no markers at all",
        "(B) x not done",
        "",
    ] {
        let item = TodoItem::new(line);
        let written = item.raw();
        assert_eq!(written, line);
        let again = TodoItem::new(&written);
        assert_eq!(again.finished(), item.finished());
        assert_eq!(again.priority(), item.priority());
        assert_eq!(again.contexts(), item.contexts());
        assert_eq!(again.projects(), item.projects());
        assert_eq!(again.subject(), item.subject());
    }
}

#[test]
fn complete_and_uncomplete_only_toggle() {
    let mut item = TodoItem::new("(B) Write report @work +q3");
    item.complete();
    assert!(item.finished());
    assert_eq!(item.priority(), 1);
    assert_eq!(texts(item.contexts()), vec!["work"]);
    assert_eq!(texts(item.projects()), vec!["q3"]);
    assert_eq!(item.subject(), "Write report @work +q3");
    item.complete();
    assert!(item.finished());
    item.uncomplete();
    assert!(!item.finished());
    assert_eq!(item.priority(), 1);
    item.uncomplete();
    assert!(!item.finished());
    assert_eq!(item.raw(), "(B) Write report @work +q3");
}

#[test]
fn line_of_a_finished_task_shows_no_priority() {
    let mut item = TodoItem::new("(B) Write report");
    item.complete();
    assert_eq!(item.raw(), "x Write report");
}

#[test]
fn line_of_a_pending_task_shows_no_dates() {
    let mut item = TodoItem::new("x 2024-03-04 2024-03-01 Ship it");
    item.uncomplete();
    assert_eq!(item.raw(), "Ship it");
    assert_eq!(item.completed_on(), Some(Date { year: 2024, month: 3, day: 4 }));
    item.complete();
    assert_eq!(item.raw(), "x 2024-03-04 2024-03-01 Ship it");
}

#[test]
fn set_priority_keeps_to_the_letters() {
    let mut item = TodoItem::new("task");
    item.set_priority(0);
    assert_eq!(item.priority(), 0);
    assert_eq!(item.raw(), "(A) task");
    item.set_priority(25);
    assert_eq!(item.raw(), "(Z) task");
    item.set_priority(26);
    assert_eq!(item.priority(), NO_PRIORITY);
    assert_eq!(item.raw(), "task");
    item.set_priority(7);
    item.set_priority(200);
    assert_eq!(item.priority(), NO_PRIORITY);
    assert_eq!(item.raw(), "task");
    item.set_priority(255);
    assert_eq!(item.priority(), NO_PRIORITY);
}

#[test]
fn set_subject_reads_the_tags_again() {
    let mut item = TodoItem::new("(A) old @a +p");
    item.set_subject("new @b @c");
    assert_eq!(item.subject(), "new @b @c");
    assert_eq!(texts(item.contexts()), vec!["b", "c"]);
    assert!(item.projects().is_empty());
    assert_eq!(item.priority(), 0);
    assert_eq!(item.raw(), "(A) new @b @c");
    item.set_subject("x (B) not a prefix");
    assert!(!item.finished());
    assert_eq!(item.priority(), 0);
    assert_eq!(item.subject(), "x (B) not a prefix");
}

#[test]
fn clone_is_the_same_task() {
    let item = TodoItem::new("x 2024-01-02 done @c +p");
    let copy = item.clone();
    assert_eq!(copy.raw(), item.raw());
    assert_eq!(copy.contexts(), item.contexts());
    assert_eq!(copy.completed_on(), item.completed_on());
}

#[test]
fn date_check() {
    assert!(Date { year: 2024, month: 2, day: 29 }.check());
    assert!(!Date { year: 2023, month: 2, day: 29 }.check());
    assert!(!Date { year: 2100, month: 2, day: 29 }.check());
    assert!(Date { year: 2000, month: 2, day: 29 }.check());
    assert!(Date { year: 0, month: 1, day: 1 }.check());
    assert!(Date { year: 9999, month: 12, day: 31 }.check());
    assert!(!Date { year: 10000, month: 1, day: 1 }.check());
    assert!(!Date { year: 2024, month: 6, day: 31 }.check());
    assert!(!Date { year: 2024, month: 0, day: 1 }.check());
    assert!(!Date { year: 2024, month: 1, day: 0 }.check());
}
