use ruclifs::cli::{StyleError, Styler};
use ruclifs::pattern::{compile_pattern, PatternError};
use ruclifs::sed::{EditError, Fault, LineSelection, StreamingEditor};

fn content() -> Vec<String> {
    vec![
        "l1 some example line,".to_string(),
        "l2 some next example line,".to_string(),
        "l3 some next next example line".to_string(),
    ]
}

fn edited(lines: &str) -> String {
    let editor = StreamingEditor::build(
        String::from("([^ ]*ex[^ ]*)"),
        String::from("other $1"),
        String::from(lines),
    )
    .ok()
    .unwrap();
    editor.edit_lines(&content()).concat()
}

fn before() -> String {
    content().iter().map(|l| format!("{}\n", l)).collect()
}

#[test]
fn all_lines() {
    let content_before = before();
    let content_after = edited("");

    let exp_content = "\
l1 some other example line,
l2 some other next other example line,
l3 some other next other next other example line
";
    assert_ne!(content_before, content_after);
    assert_eq!(exp_content, content_after);
}

#[test]
fn one_line() {
    let content_before = before();
    let content_after = edited("1");

    let exp_content = "\
l1 some other example line,
l2 some next example line,
l3 some next next example line
";
    assert_ne!(content_before, content_after);
    assert_eq!(exp_content, content_after);
}

#[test]
fn multiple_lines() {
    let content_before = before();
    let content_after = edited("1,3");

    let exp_content = "\
l1 some other example line,
l2 some next example line,
l3 some other next other next other example line
";
    assert_ne!(content_before, content_after);
    assert_eq!(exp_content, content_after);
}

#[test]
fn line_range() {
    let content_before = before();
    let content_after = edited("2-3");

    let exp_content = "\
l1 some example line,
l2 some other next other example line,
l3 some other next other next other example line
";
    assert_ne!(content_before, content_after);
    assert_eq!(exp_content, content_after);
}

#[test]
fn range_includes_both_ends() {
    let selection = StreamingEditor::parse_lines("2-3".to_string()).ok().unwrap();
    assert!(matches!(selection, LineSelection::LRange { first: 2, last: 3 }));
    assert!(!selection.contains(&1));
    assert!(selection.contains(&2));
    assert!(selection.contains(&3));
    assert!(!selection.contains(&4));
}

#[test]
fn nothing_selects_every_line() {
    let selection = StreamingEditor::parse_lines(String::new()).ok().unwrap();
    assert!(matches!(selection, LineSelection::All));
    assert!(selection.contains(&1));
    assert!(selection.contains(&usize::MAX));
}

#[test]
fn list_selects_what_it_names() {
    let selection = StreamingEditor::parse_lines("7,003,12".to_string()).ok().unwrap();
    match &selection {
        LineSelection::Numbers(list) => assert_eq!(list, &vec![7, 3, 12]),
        _ => panic!("a list was given"),
    }
    assert!(selection.contains(&3));
    assert!(selection.contains(&7));
    assert!(selection.contains(&12));
    assert!(!selection.contains(&1));
    let single = StreamingEditor::parse_lines("5".to_string()).ok().unwrap();
    assert!(single.contains(&5));
    assert!(!single.contains(&4));
}

#[test]
fn range_that_runs_backwards_selects_nothing() {
    let selection = StreamingEditor::parse_lines("3-2".to_string()).ok().unwrap();
    assert!(!selection.contains(&2));
    assert!(!selection.contains(&3));
}

fn fault_of(spec: &str) -> Fault {
    let e = StreamingEditor::parse_lines(spec.to_string()).err().unwrap();
    assert_eq!(e.input, spec);
    e.fault
}

#[test]
fn malformed_selections() {
    for spec in ["a", "1-2-3", "1;2", "1 - 2", "-1,2", "1,2-3", "２-３", " "] {
        assert!(matches!(fault_of(spec), Fault::Malformed), "{}", spec);
    }
}

#[test]
fn selections_with_a_missing_number() {
    for spec in ["-", "3-", "-3", ",", "1,", ",1", "1,,2", "1,,99999999999999999999999"] {
        assert!(matches!(fault_of(spec), Fault::MissingNumber), "{}", spec);
    }
}

#[test]
fn selections_with_a_number_too_large() {
    let beyond = format!("{}0", usize::MAX);
    for spec in [format!("1-{}", beyond), format!("{}-1", beyond), format!("1,{},2", beyond)] {
        assert!(matches!(fault_of(&spec), Fault::NumberTooLarge), "{}", spec);
    }
    let largest = StreamingEditor::parse_lines(format!("{}", usize::MAX)).ok().unwrap();
    assert!(largest.contains(&usize::MAX));
}

#[test]
fn error_names_the_selection_and_the_forms() {
    let e = StreamingEditor::parse_lines("x".to_string()).err().unwrap();
    assert_eq!(
        e.message(),
        "Failed to parse line input 'x'. Please either provide a list of line numbers separated by ',', or a range given as 'start-end'"
    );
}

#[test]
fn editor_is_not_built_from_a_bad_pattern() {
    match StreamingEditor::build("a(".to_string(), "b".to_string(), "x".to_string()) {
        Err(EditError::BadPattern(e)) => assert_eq!(e.pattern, "a("),
        _ => panic!("the pattern has an open bracket"),
    }
}

#[test]
fn editor_needs_the_pattern_to_compile_in_brackets_too() {
    match StreamingEditor::build("(?x)a#".to_string(), "b".to_string(), String::new()) {
        Err(e) => {
            assert!(matches!(
                &e,
                EditError::BadStyle(StyleError::BadPattern(inner)) if inner.pattern == "((?x)a#)"
            ));
            assert!(e.message().starts_with("Problem when compiling the regex pattern: "));
        }
        Ok(_) => panic!("the closing bracket is lost in the comment"),
    }
}

#[test]
fn bad_pattern_is_named_in_the_message() {
    let e = StreamingEditor::build("a(".to_string(), "b".to_string(), String::new()).err().unwrap();
    assert!(e.message().starts_with("Error when trying to compile a regex from 'a(':\n"));
}

#[test]
fn editor_is_not_built_from_a_bad_selection() {
    match StreamingEditor::build("a".to_string(), "b".to_string(), "1-".to_string()) {
        Err(e) => {
            assert!(matches!(&e, EditError::BadLines(l) if matches!(l.fault, Fault::MissingNumber)));
            assert!(e.message().starts_with("Failed to parse line input '1-'."));
        }
        Ok(_) => panic!("the range has no end"),
    }
}

#[test]
fn lines_end_in_a_line_feed() {
    let editor =
        StreamingEditor::build("a".to_string(), "b".to_string(), "2".to_string()).ok().unwrap();
    assert_eq!(editor.edit_line(1, "aa"), "aa\n");
    assert_eq!(editor.edit_line(2, "aa"), "bb\n");
    assert_eq!(editor.edit_line(2, ""), "\n");
}

#[test]
fn lines_are_shown_with_their_number() {
    let editor =
        StreamingEditor::build("a+".to_string(), "b".to_string(), String::new()).ok().unwrap();
    assert_eq!(editor.show_old(12, "xaay"), "l12 old: x\u{1b}[4;96maa\u{1b}[0my");
    assert_eq!(StreamingEditor::show_new(12, "xby\n"), "l12 new: xby\n");
}

#[test]
fn edited_copy_stands_beside_the_file() {
    assert_eq!(StreamingEditor::output_path("/tmp/dir/some_file_1.txt"), "/tmp/dir/some_file_1_edited.txt");
    assert_eq!(StreamingEditor::output_path("notes"), "notes_edited");
    assert_eq!(StreamingEditor::output_path("a.b/c.tar.gz"), "a.b/c.tar_edited.gz");
    assert_eq!(StreamingEditor::output_path(".profile"), ".profile_edited");
}

#[test]
fn chosen_lines_are_written_as_replaced() {
    let selection = StreamingEditor::parse_lines("2,4".to_string()).ok().unwrap();
    assert_eq!(selection.written(1, "old", "new"), "old\n");
    assert_eq!(selection.written(2, "old", "new"), "new\n");
    assert_eq!(selection.written(4, "", "x"), "x\n");
}

fn cyan() -> Result<Styler, StyleError> {
    Styler::build("cyan", "", false, true, "a")
}

#[test]
fn assembling_reports_what_failed_first() {
    let bad = PatternError { pattern: "p".to_string(), reason: "why".to_string() };
    let unknown = StyleError::UnsupportedColor { color: "pink".to_string() };
    let r = StreamingEditor::assemble(Err(bad), Err(unknown), "b".to_string(), "x".to_string());
    assert!(matches!(r, Err(EditError::BadPattern(e)) if e.pattern == "p" && e.reason == "why"));

    let unknown = StyleError::UnsupportedColor { color: "pink".to_string() };
    let r = StreamingEditor::assemble(
        compile_pattern("a"),
        Err(unknown),
        "b".to_string(),
        "x".to_string(),
    );
    assert!(matches!(
        r,
        Err(EditError::BadStyle(StyleError::UnsupportedColor { color })) if color == "pink"
    ));

    let r = StreamingEditor::assemble(compile_pattern("a"), cyan(), "b".to_string(), "1-".to_string());
    assert!(matches!(
        r,
        Err(EditError::BadLines(e)) if e.input == "1-" && matches!(e.fault, Fault::MissingNumber)
    ));
}

#[test]
fn assembling_keeps_what_it_is_given() {
    let editor =
        StreamingEditor::assemble(compile_pattern("a+"), cyan(), "b".to_string(), "2".to_string())
            .ok()
            .unwrap();
    assert_eq!(editor.edit_line(1, "caab"), "caab\n");
    assert_eq!(editor.edit_line(2, "caab"), "cbb\n");
    assert_eq!(editor.show_old(2, "caab"), "l2 old: c\u{1b}[4;96ma\u{1b}[0m\u{1b}[4;96ma\u{1b}[0mb");
}
