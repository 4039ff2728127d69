use lisp::display::location::{FileLocation, Location};

fn check(source: &str, idx: usize, line: usize, column: usize) {
    let loc = Location::new("path", source, idx);
    assert_eq!(loc.path, "path");
    assert_eq!(loc.line, line);
    assert_eq!(loc.column, column);
}

#[test]
fn location_test_location() {
    let loc = Location::new("path", "1 + 2", 3);
    assert_eq!(loc.path, "path");
    assert_eq!(loc.line, 1);
    assert_eq!(loc.column, 4);

    let loc = Location::new("path", "1 + 2", 0);
    assert_eq!(loc.path, "path");
    assert_eq!(loc.line, 1);
    assert_eq!(loc.column, 1);

    let loc = Location::new("path", "1 + 2", 5);
    assert_eq!(loc.path, "path");
    assert_eq!(loc.line, 1);
    assert_eq!(loc.column, 6);

    let loc = Location::new("path", "1 + 2\n3 + 4", 5);
    assert_eq!(loc.path, "path");
    assert_eq!(loc.line, 1);
    assert_eq!(loc.column, 6);

    let loc = Location::new("path", "1 + 2\n3 + 4", 6);
    assert_eq!(loc.path, "path");
    assert_eq!(loc.line, 2);
    assert_eq!(loc.column, 1);

    let loc = Location::new("path", "1 + 2\n3 + 4", 7);
    assert_eq!(loc.path, "path");
    assert_eq!(loc.line, 2);
    assert_eq!(loc.column, 2);

    let loc = Location::new("path", "1 + 2\n3 + 4", 8);
    assert_eq!(loc.path, "path");
    assert_eq!(loc.line, 2);
    assert_eq!(loc.column, 3);

    let loc = Location::new("path", "1 + 2\n3 + 4", 9);
    assert_eq!(loc.path, "path");
    assert_eq!(loc.line, 2);
    assert_eq!(loc.column, 4);

    let loc = Location::new("path", "1 + 2\n3 + 4", 10);
    assert_eq!(loc.path, "path");
    assert_eq!(loc.line, 2);
    assert_eq!(loc.column, 5);

    let loc = Location::new("path", "1 + 2\n3 + 4", 11);
    assert_eq!(loc.path, "path");
    assert_eq!(loc.line, 2);
    assert_eq!(loc.column, 6);

    let loc = Location::new("path", "1 + 2\n3 + 4", 12);
    assert_eq!(loc.path, "path");
    assert_eq!(loc.line, 2);
    assert_eq!(loc.column, 6);

    let loc = FileLocation::new("path", "1 + 2", 3);
    assert_eq!(loc.path, "path");
    assert_eq!(loc.line, 1);
    assert_eq!(loc.column, 4);

    let loc = FileLocation::new("path", "1 + 2", 0);
    assert_eq!(loc.path, "path");
    assert_eq!(loc.line, 1);
    assert_eq!(loc.column, 1);

    let loc = FileLocation::new("path", "1 + 2", 5);
    assert_eq!(loc.path, "path");
    assert_eq!(loc.line, 1);
    assert_eq!(loc.column, 6);

    let loc = FileLocation::new("path", "1 + 2\n3 + 4", 5);
    assert_eq!(loc.path, "path");
    assert_eq!(loc.line, 1);
    assert_eq!(loc.column, 6);

    let loc = FileLocation::new("path", "1 + 2\n3 + 4", 6);
    assert_eq!(loc.path, "path");
    assert_eq!(loc.line, 2);
    assert_eq!(loc.column, 1);

    let loc = FileLocation::new("path", "1 + 2\n3 + 4", 7);
    assert_eq!(loc.path, "path");
    assert_eq!(loc.line, 2);
    assert_eq!(loc.column, 2);

    let loc = FileLocation::new("path", "1 + 2\n3 + 4", 8);
    assert_eq!(loc.path, "path");
    assert_eq!(loc.line, 2);
    assert_eq!(loc.column, 3);

    let loc = FileLocation::new("path", "1 + 2\n3 + 4", 9);
    assert_eq!(loc.path, "path");
    assert_eq!(loc.line, 2);
    assert_eq!(loc.column, 4);

    let loc = FileLocation::new("path", "1 + 2\n3 + 4", 10);
    assert_eq!(loc.path, "path");
    assert_eq!(loc.line, 2);
    assert_eq!(loc.column, 5);

    let loc = FileLocation::new("path", "1 + 2\n3 + 4", 11);
    assert_eq!(loc.path, "path");
    assert_eq!(loc.line, 2);
    assert_eq!(loc.column, 6);

    let loc = FileLocation::new("path", "1 + 2\n3 + 4", 12);
    assert_eq!(loc.path, "path");
    assert_eq!(loc.line, 2);
    assert_eq!(loc.column, 6);
}

#[test]
fn test_location_display() {
    let loc = FileLocation::new("path", "1 + 2", 3);
    assert_eq!(loc.to_string(), "path:1:4");

    let loc = FileLocation::new("path", "1 + 2\n3 + 4", 6);
    assert_eq!(loc.to_string(), "path:2:1");
}

#[test]
fn scenario_resolve_second_line() {
    let loc = Location::new("path", "1 + 2\n3 + 4", 7);
    assert_eq!((loc.line, loc.column), (2, 2));
    assert_eq!(loc.to_string(), "path:2:2");
}

#[test]
fn location_test_fmt() {
    let loc = Location::new("path", "1 + 2", 3);
    assert_eq!(loc.to_string(), "path:1:4");

    let loc = Location::new("path", "1 + 2\n3 + 4", 6);
    assert_eq!(loc.to_string(), "path:2:1");

    let loc = Location::new("path/to/file", "1 + 2\n3 + 4", 7);
    assert_eq!(loc.to_string(), "path/to/file:2:2");
}

#[test]
fn location_first_character() {
    check("abc", 0, 1, 1);
}

#[test]
fn location_on_line_terminator_ends_previous_line() {
    check("ab\ncd", 2, 1, 3);
    check("ab\ncd", 3, 2, 1);
}

#[test]
fn location_past_end_repeats_last_position() {
    check("ab\ncd", 5, 2, 3);
    check("ab\ncd", 6, 2, 3);
    check("ab\ncd", usize::MAX, 2, 3);
}

#[test]
fn location_of_empty_source() {
    check("", 0, 0, 1);
    check("", 9, 0, 1);
}

#[test]
fn location_after_final_line_terminator() {
    check("ab\n", 2, 1, 3);
    check("ab\n", 3, 1, 1);
}

#[test]
fn location_inside_multibyte_character() {
    check("\u{e9}\nx", 1, 1, 2);
    check("\u{e9}\nx", 3, 2, 1);
}

#[test]
fn location_lines_never_decrease() {
    let source = "a\n\nbc\nd\n";
    let mut previous = Location::new("p", source, 0);
    for idx in 1..source.len() {
        let next = Location::new("p", source, idx);
        assert!(previous.line <= next.line);
        if previous.line == next.line {
            assert!(previous.column <= next.column);
        }
        previous = next;
    }
}

#[test]
fn location_renders_large_numbers() {
    let loc = Location { path: "f", line: 1203, column: 40 };
    assert_eq!(loc.to_string(), "f:1203:40");
}
