use todotxt::{is_blank, pad_class, TodoItem};

#[test]
fn pad_class_follows_the_depth() {
    assert_eq!(pad_class(0), "pl-0");
    assert_eq!(pad_class(1), "pl-4");
    assert_eq!(pad_class(2), "pl-8");
    assert_eq!(pad_class(3), "pl-12");
    assert_eq!(pad_class(4), "pl-16");
    assert_eq!(pad_class(5), "pl-16");
    assert_eq!(pad_class(usize::MAX), "pl-16");
}

#[test]
fn blank_is_nothing_but_white_space() {
    assert!(is_blank(""));
    assert!(is_blank(" "));
    assert!(is_blank(" \t\r\n\u{a0}\u{2003}\u{3000}"));
    assert!(!is_blank("a"));
    assert!(!is_blank("  a  "));
    assert!(!is_blank("\n.\n"));
    assert!(!is_blank("\u{200b}"));
}

#[test]
fn years_are_written_with_four_digits() {
    for line in ["x 0000-01-01 a", "x 0001-02-03 0999-12-31 b", "x 9999-12-31 c"] {
        let item = TodoItem::new(line);
        assert!(item.completed_on().is_some());
        assert_eq!(item.raw(), line);
    }
}
