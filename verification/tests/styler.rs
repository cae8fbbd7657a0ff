use ruclifs::cli::{bites2str, proceed_answer, StyleError, Styler, INDENT};

#[test]
fn do_nothing() {
    let styler = Styler::build("", "", false, false, "").ok().unwrap();
    assert_eq!("some_string", styler.style("some_string"));
}

#[test]
fn fg_color() {
    let styler = Styler::build("cyan", "", false, false, "").ok().unwrap();
    assert_eq!("\u{1b}[96msome_string\u{1b}[0m", styler.style("some_string"));
}

#[test]
fn bg_color() {
    let styler = Styler::build("", "yellow", false, false, "").ok().unwrap();
    assert_eq!("\u{1b}[43msome_string\u{1b}[0m", styler.style("some_string"));
}

#[test]
fn bold() {
    let styler = Styler::build("", "", true, false, "").ok().unwrap();
    assert_eq!("\u{1b}[1msome_string\u{1b}[0m", styler.style("some_string"));
}

#[test]
fn undrline() {
    let styler = Styler::build("", "", false, true, "").ok().unwrap();
    assert_eq!("\u{1b}[4msome_string\u{1b}[0m", styler.style("some_string"));
}

#[test]
fn all_in_style() {
    let styler = Styler::build("red", "green", true, true, "").ok().unwrap();
    assert_eq!("\u{1b}[1;4;31;42msome_string\u{1b}[0m", styler.style("some_string"));
}

#[test]
fn regex() {
    let styler = Styler::build("red", "green", true, true, "me_st").ok().unwrap();
    assert_eq!("so\u{1b}[1;4;31;42mme_st\u{1b}[0mring", styler.style("some_string"));
}

#[test]
fn test_bytes2str() {
    let inputs = [
        5u64,
        1024u64,
        100000024u64,
        100000000024u64,
        1000000000024u64,
        1000000000000024u64,
        14000000000000000024u64,
    ];
    let exp_results = [
        "   5.00 B",
        "   1.02 KB",
        " 100.00 MB",
        " 100.00 GB",
        "   1.00 TB",
        "   1.00 PB",
        "14000.00 PB",
    ];

    let styler = Styler::build("", "", false, false, "").ok().unwrap();

    for it in inputs.iter().zip(exp_results.iter()) {
        let (input, exp_result) = it;
        assert_eq!(exp_result.to_string(), bites2str(*input, &styler))
    }
}

#[test]
fn every_color_has_its_codes() {
    let names = ["cyan", "green", "gray", "red", "yellow"];
    let fg = ["96", "32", "90", "31", "33"];
    let bg = ["46", "42", "100", "41", "43"];
    for i in 0..names.len() {
        let styler = Styler::build(names[i], "", false, false, "").ok().unwrap();
        assert_eq!(styler.style("x"), format!("\u{1b}[{}mx\u{1b}[0m", fg[i]));
        let styler = Styler::build("default", names[i], false, false, "").ok().unwrap();
        assert_eq!(styler.style("x"), format!("\u{1b}[{}mx\u{1b}[0m", bg[i]));
    }
}

#[test]
fn default_colors_with_nothing_else_change_nothing() {
    let styler = Styler::build("default", "default", false, false, "(unclosed").ok().unwrap();
    assert_eq!(styler.style("x"), "x");
}

#[test]
fn unsupported_color_is_named() {
    match Styler::build("blue", "pink", false, false, "") {
        Err(StyleError::UnsupportedColor { color }) => assert_eq!(color, "blue"),
        _ => panic!("blue is no colour of the styler"),
    }
    match Styler::build("red", "pink", true, false, "") {
        Err(e) => {
            assert!(matches!(&e, StyleError::UnsupportedColor { color } if color == "pink"));
            assert_eq!(e.message(), "Chosen color is not supported:pink");
        }
        Ok(_) => panic!("pink is no colour of the styler"),
    }
}

#[test]
fn pattern_that_does_not_compile_is_reported() {
    match Styler::build("red", "", false, false, "a(b") {
        Err(StyleError::BadPattern(e)) => {
            assert_eq!(e.pattern, "(a(b)");
            assert!(!e.reason.is_empty());
            let message = StyleError::BadPattern(e).message();
            assert!(message.starts_with("Problem when compiling the regex pattern: "));
            assert!(message.len() > "Problem when compiling the regex pattern: ".len());
        }
        _ => panic!("the pattern has an open bracket"),
    }
}

#[test]
fn every_match_is_styled() {
    let styler = Styler::build("cyan", "", false, true, "a+").ok().unwrap();
    assert_eq!(
        styler.style("baab a"),
        "b\u{1b}[4;96maa\u{1b}[0mb \u{1b}[4;96ma\u{1b}[0m"
    );
    assert_eq!(styler.style("xyz"), "xyz");
}

#[test]
fn sizes_change_unit_at_each_thousand() {
    let styler = Styler::build("", "", false, false, "").ok().unwrap();
    assert_eq!(bites2str(0, &styler), "   0.00 B");
    assert_eq!(bites2str(999, &styler), " 999.00 B");
    assert_eq!(bites2str(1_000, &styler), "   1.00 KB");
    assert_eq!(bites2str(999_999, &styler), "1000.00 KB");
    assert_eq!(bites2str(1_000_000, &styler), "   1.00 MB");
    assert_eq!(bites2str(1_000_000_000, &styler), "   1.00 GB");
    assert_eq!(bites2str(1_000_000_000_000, &styler), "   1.00 TB");
    assert_eq!(bites2str(1_000_000_000_000_000, &styler), "   1.00 PB");
    assert_eq!(bites2str(u64::MAX, &styler), "18446.74 PB");
}

#[test]
fn sizes_are_rounded_to_the_nearest_hundredth() {
    let styler = Styler::build("", "", false, false, "").ok().unwrap();
    assert_eq!(bites2str(1_004, &styler), "   1.00 KB");
    assert_eq!(bites2str(1_005, &styler), "   1.00 KB");
    assert_eq!(bites2str(1_006, &styler), "   1.01 KB");
    assert_eq!(bites2str(1_015, &styler), "   1.02 KB");
    assert_eq!(bites2str(1_025, &styler), "   1.02 KB");
    assert_eq!(bites2str(123_456_789, &styler), " 123.46 MB");
}

#[test]
fn sizes_take_the_style() {
    let styler = Styler::build("cyan", "", false, false, "").ok().unwrap();
    assert_eq!(bites2str(5, &styler), "\u{1b}[96m   5.00 B\u{1b}[0m");
}

#[test]
fn only_yes_and_y_say_yes() {
    assert!(proceed_answer("yes"));
    assert!(proceed_answer("y"));
    assert!(proceed_answer("yes\n"));
    assert!(proceed_answer("  y\r\n"));
    assert!(proceed_answer("\u{a0}yes\u{3000}"));
    assert!(!proceed_answer("no"));
    assert!(!proceed_answer(""));
    assert!(!proceed_answer("\n"));
    assert!(!proceed_answer("Yes"));
    assert!(!proceed_answer("Y"));
    assert!(!proceed_answer("y es"));
    assert!(!proceed_answer("yes."));
    assert!(!proceed_answer("\u{200b}yes"));
}

#[test]
fn indent_is_four_blanks() {
    assert_eq!(INDENT, "    ");
}
