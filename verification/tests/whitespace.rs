use chromelight::layout::geom::WhiteSpace;
use chromelight::layout::whitespace::{process, process_normal, Processed};

/// Shorthand: process `text` in `mode` as if it were the first content of a block.
fn first(text: &str, mode: WhiteSpace) -> Processed {
    process(text, mode, true)
}

#[test]
fn normal_should_collapse_runs_of_spaces_to_one() {
    assert_eq!(first("a   b", WhiteSpace::Normal).text, "a b");
    assert_eq!(first("a\t\t b", WhiteSpace::Normal).text, "a b");
}

#[test]
fn normal_should_turn_segment_breaks_into_spaces() {
    assert_eq!(first("a\nb", WhiteSpace::Normal).text, "a b");
    assert_eq!(first("a\r\nb", WhiteSpace::Normal).text, "a b");
    assert_eq!(first("a\rb", WhiteSpace::Normal).text, "a b");
    assert_eq!(first("a\n\n\nb", WhiteSpace::Normal).text, "a b");
}

#[test]
fn normal_should_drop_a_leading_space_at_the_start_of_a_block() {
    assert_eq!(first("   hello", WhiteSpace::Normal).text, "hello");
    assert_eq!(first("\n  hello", WhiteSpace::Normal).text, "hello");
}

#[test]
fn normal_should_keep_a_leading_space_after_a_word() {
    assert_eq!(process("   hello", WhiteSpace::Normal, false).text, " hello");
}

#[test]
fn normal_should_emit_one_trailing_space_for_the_next_run_to_use() {
    let p = process("hello   ", WhiteSpace::Normal, false);
    assert_eq!(p.text, "hello ");
    assert!(p.suppress_next_space, "the next run must not add another");
}

#[test]
fn normal_should_collapse_a_space_split_across_two_runs() {
    let a = process("a ", WhiteSpace::Normal, true);
    assert_eq!(a.text, "a ");
    let b = process(" b", WhiteSpace::Normal, a.suppress_next_space);
    assert_eq!(b.text, "b", "the second run's space collapses into the first's");
}

#[test]
fn normal_should_handle_empty_and_all_space_input() {
    let empty = process("", WhiteSpace::Normal, false);
    assert_eq!(empty.text, "");
    assert!(!empty.suppress_next_space, "an empty run must not change the state it was handed");

    let empty_suppressed = process("", WhiteSpace::Normal, true);
    assert_eq!(empty_suppressed.text, "");
    assert!(empty_suppressed.suppress_next_space);

    let only_spaces = first("   \n\t ", WhiteSpace::Normal);
    assert_eq!(only_spaces.text, "");
    assert!(only_spaces.suppress_next_space);

    let between = process("   \n\t ", WhiteSpace::Normal, false);
    assert_eq!(between.text, " ");
    assert!(between.suppress_next_space);
}

#[test]
fn pre_should_preserve_every_space_and_newline() {
    let p = first("  two spaces\nand a newline", WhiteSpace::Pre);
    assert_eq!(p.text, "  two spaces\nand a newline");
    assert!(!p.suppress_next_space);
}

#[test]
fn pre_should_normalize_crlf_and_lone_cr_to_lf() {
    assert_eq!(first("a\r\nb", WhiteSpace::Pre).text, "a\nb");
    assert_eq!(first("a\rb", WhiteSpace::Pre).text, "a\nb");
    assert_eq!(first("a\r\r\nb", WhiteSpace::Pre).text, "a\n\nb");
    assert_eq!(first("a\n\rb", WhiteSpace::Pre).text, "a\n\nb");
}

#[test]
fn pre_should_pass_empty_input_through() {
    assert_eq!(first("", WhiteSpace::Pre).text, "");
}

#[test]
fn processing_should_not_panic_on_large_or_exotic_input() {
    let big = "a \t\n".repeat(50_000);
    assert!(!process(&big, WhiteSpace::Normal, false).text.is_empty());
    assert!(!process(&big, WhiteSpace::Pre, false).text.is_empty());
    let exotic = "  日本語\u{0C}\u{200B}  ";
    assert_eq!(process(exotic, WhiteSpace::Normal, true).text, "日本語 \u{200B} ");
}

#[test]
fn concatenated_runs_process_like_one_run() {
    // Scenario for the run-concatenation law: "a  " then "  b" equals "a    b".
    let whole = process("a    b", WhiteSpace::Normal, true);
    let a = process("a  ", WhiteSpace::Normal, true);
    let b = process("  b", WhiteSpace::Normal, a.suppress_next_space);
    assert_eq!(format!("{}{}", a.text, b.text), whole.text);
    assert_eq!(b.suppress_next_space, whole.suppress_next_space);
}

#[test]
fn pre_output_never_holds_a_carriage_return() {
    let p = process("\r\r\n\n\r", WhiteSpace::Pre, false);
    assert_eq!(p.text, "\n\n\n\n");
    assert!(!p.text.contains('\r'));
}

#[test]
fn normal_output_is_collapsed_and_its_flag_tracks_a_trailing_space() {
    let p = process(" \t a \r\n\n b\u{0C} ", WhiteSpace::Normal, false);
    assert_eq!(p.text, " a b ");
    assert!(p.suppress_next_space);
    let p = process("a\n", WhiteSpace::Normal, true);
    assert_eq!(p.text, "a ");
    assert!(p.suppress_next_space);
    let p = process("ab", WhiteSpace::Normal, true);
    assert!(!p.suppress_next_space);
    let p = process("  ", WhiteSpace::Normal, true);
    assert_eq!(p.text, "");
    assert!(p.suppress_next_space);
    let p = process("", WhiteSpace::Normal, false);
    assert_eq!(p.text, "");
    assert!(!p.suppress_next_space);
}

#[test]
fn normal_processing_should_be_idempotent() {
    for &(text, suppress) in &[("  a \t\n b  ", true), ("  a \t\n b  ", false), ("x\r\n\r\ny", false), ("   ", false), ("", true)] {
        let once = process(text, WhiteSpace::Normal, suppress);
        let twice = process(&once.text, WhiteSpace::Normal, suppress);
        assert_eq!(twice.text, once.text);
        assert_eq!(twice.suppress_next_space, once.suppress_next_space);
    }
}

#[test]
fn process_normal_should_be_idempotent() {
    for &(text, suppress) in &[(" a  b\t", true), (" a  b\t", false), ("\r\n", false)] {
        let once = process_normal(text, suppress);
        let twice = process_normal(&once.text, suppress);
        assert_eq!(twice.text, once.text);
        assert_eq!(twice.suppress_next_space, once.suppress_next_space);
    }
}

#[test]
fn processing_should_never_lengthen_a_run() {
    for text in ["  a \t b  ", "\r\n\r\nx", "", "a\u{0C}\u{0C}b ", "日本 語"] {
        for suppress in [true, false] {
            let n = text.chars().count();
            assert!(process(text, WhiteSpace::Normal, suppress).text.chars().count() <= n);
            assert!(process(text, WhiteSpace::Pre, suppress).text.chars().count() <= n);
        }
    }
}
