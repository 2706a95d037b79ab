use make_your_choice::section::{locate_section, replace_section, SECTION_MARKER};

fn block(content: &str) -> String {
    format!("{}\n{}{}\n", SECTION_MARKER, content, SECTION_MARKER)
}

#[test]
fn append_to_file_without_marker_keeps_prefix() {
    let d = "127.0.0.1 localhost\n";
    let r = replace_section(d, "0.0.0.0 a.example\n");
    assert!(r.starts_with(d));
    assert_eq!(r, format!("{}\n{}", d, block("0.0.0.0 a.example\n")));
    assert_eq!(r.matches(&block("0.0.0.0 a.example\n")).count(), 1);
}

#[test]
fn append_to_file_without_trailing_newline_adds_blank_line() {
    let r = replace_section("127.0.0.1 localhost", "x");
    assert_eq!(r, format!("127.0.0.1 localhost\n\n{}", block("x\n")));
}

#[test]
fn append_to_empty_file() {
    let r = replace_section("", "x\n");
    assert_eq!(r, format!("\n\n{}", block("x\n")));
}

#[test]
fn content_ends_with_exactly_one_line_feed() {
    let r = replace_section("a\n", "x\n\n\n");
    assert_eq!(r, format!("a\n\n{}", block("x\n")));
}

#[test]
fn replace_between_two_markers() {
    let d = format!("head\n{}tail\n", block("old\n"));
    let r = replace_section(&d, "new\n");
    assert_eq!(r, format!("head\n{}tail\n", block("new\n")));
}

#[test]
fn single_marker_owns_to_end_of_file() {
    let d = format!("head\n{}\nstale 1\nstale 2\n", SECTION_MARKER);
    assert_eq!(locate_section(&d), Some((5, d.chars().count())));
    let r = replace_section(&d, "new");
    assert_eq!(r, format!("head\n{}", block("new\n")));
}

#[test]
fn third_marker_stays_unowned() {
    let d = format!("a\n{}b\n{}\n", block("x\n"), SECTION_MARKER);
    let r = replace_section(&d, "y\n");
    assert_eq!(r, format!("a\n{}b\n{}\n", block("y\n"), SECTION_MARKER));
}

#[test]
fn locate_reports_no_section_without_marker() {
    assert_eq!(locate_section("127.0.0.1 localhost\n"), None);
    assert_eq!(locate_section(""), None);
}

#[test]
fn locate_includes_line_feed_after_closing_marker() {
    let d = format!("ab\n{}tail", block("x\n"));
    let end = 3 + block("x\n").chars().count();
    assert_eq!(locate_section(&d), Some((3, end)));
}

#[test]
fn second_write_changes_nothing() {
    for d in ["", "a", "a\n", "127.0.0.1 localhost\n::1 localhost\n"] {
        let once = replace_section(d, "0.0.0.0 h\n");
        let twice = replace_section(&once, "0.0.0.0 h\n");
        assert_eq!(once, twice);
    }
    let managed = format!("a\n{}b\n", block("old\n"));
    let once = replace_section(&managed, "new\n");
    assert_eq!(replace_section(&once, "new\n"), once);
}

#[test]
fn revert_removes_exactly_the_written_block() {
    let managed = format!("a\n{}b\n", block("old\n"));
    let written = replace_section(&managed, "new\n");
    assert_eq!(replace_section(&written, ""), "a\nb\n");
    let plain = "127.0.0.1 localhost\n";
    let written = replace_section(plain, "new\n");
    assert_eq!(replace_section(&written, ""), "127.0.0.1 localhost\n\n");
}

#[test]
fn empty_content_leaves_unmanaged_file_alone() {
    assert_eq!(replace_section("a\nb", ""), "a\nb");
}
