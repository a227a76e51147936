use dbs_dither::input::{
    input_path, output_filename, parse_number, plan_resize, trim, wants_mono, Margin, ResizePlan,
};

#[test]
fn paths_without_their_margin() {
    assert_eq!(input_path("a.png\n"), Some("a.png"));
    assert_eq!(input_path("  /tmp/a b.png \r\n"), Some("/tmp/a b.png"));
    assert_eq!(input_path("\"C:\\x y.png\"\n"), Some("C:\\x y.png"));
    assert_eq!(input_path("'/tmp/x.png' \n"), Some("/tmp/x.png"));
    assert_eq!(input_path("\"'x.png'\""), Some("x.png"));
    assert_eq!(input_path("'\"x.png\"'"), Some("\"x.png\""));
    assert_eq!(input_path("\" x.png \""), Some(" x.png "));
    assert_eq!(input_path("\u{3000}\u{56fe}\u{7247}.png\n"), Some("\u{56fe}\u{7247}.png"));
}

#[test]
fn lines_without_a_path() {
    assert_eq!(input_path(""), None);
    assert_eq!(input_path(" \t\r\n"), None);
    assert_eq!(input_path("\"\"\n"), None);
    assert_eq!(input_path("\"''\"\n"), None);
}

#[test]
fn trimming() {
    assert_eq!(trim("\u{b}\u{85}a b\u{2003}", Margin::White), "a b");
    assert_eq!(trim("\u{200b}a", Margin::White), "\u{200b}a");
    assert_eq!(trim("xxaxbxx", Margin::Only('x')), "axb");
    assert_eq!(trim("xxx", Margin::Only('x')), "");
    for s in ["", " ", " a ", "\ta\u{a0}\u{1680}", "\u{2028}b\u{2029}\u{202f}\u{205f}", "a\u{0}"] {
        assert_eq!(trim(s, Margin::White), s.trim());
    }
}

#[test]
fn answers() {
    assert!(wants_mono("y\n"));
    assert!(wants_mono(" Y \r\n"));
    assert!(!wants_mono("n\n"));
    assert!(!wants_mono("yes\n"));
    assert!(!wants_mono(""));
    assert!(!wants_mono("\u{fd}"));
}

#[test]
fn numbers() {
    assert_eq!(parse_number("0"), Some(0));
    assert_eq!(parse_number("480"), Some(480));
    assert_eq!(parse_number("+480"), Some(480));
    assert_eq!(parse_number("000000000000007"), Some(7));
    assert_eq!(parse_number("4294967295"), Some(u32::MAX));
    assert_eq!(parse_number("4294967296"), None);
    assert_eq!(parse_number("99999999999999999999"), None);
    assert_eq!(parse_number(""), None);
    assert_eq!(parse_number("+"), None);
    assert_eq!(parse_number("-1"), None);
    assert_eq!(parse_number("-0"), None);
    assert_eq!(parse_number("++1"), None);
    assert_eq!(parse_number("12a"), None);
    assert_eq!(parse_number("1 2"), None);
    assert_eq!(parse_number("\u{661}"), None);
    assert_eq!(parse_number("99999999999a"), None);
}

#[test]
fn plans() {
    assert_eq!(plan_resize(800, 600, "\n"), ResizePlan::Keep);
    assert_eq!(plan_resize(800, 600, "600\n"), ResizePlan::Keep);
    assert_eq!(plan_resize(800, 600, "abc\n"), ResizePlan::Invalid);
    assert_eq!(plan_resize(800, 600, " 300 \n"), ResizePlan::Resize { width: 400, height: 300 });
    assert_eq!(plan_resize(100, 30, "20"), ResizePlan::Resize { width: 66, height: 20 });
}

#[test]
fn plans_at_the_limits() {
    assert_eq!(plan_resize(800, 600, "0"), ResizePlan::Resize { width: 1, height: 0 });
    assert_eq!(plan_resize(1, 600, "10"), ResizePlan::Resize { width: 1, height: 10 });
    assert_eq!(
        plan_resize(u32::MAX, 1, "2"),
        ResizePlan::Resize { width: 1, height: 2 }
    );
    assert_eq!(
        plan_resize(u32::MAX, 2, "1"),
        ResizePlan::Resize { width: 2147483647, height: 1 }
    );
    assert_eq!(plan_resize(5, 0, "x"), ResizePlan::Invalid);
    assert_eq!(plan_resize(5, 0, "0"), ResizePlan::Keep);
}

#[test]
fn names_of_halftones() {
    assert_eq!(output_filename("IMG_3293"), "IMG_3293_dbs.png");
    assert_eq!(output_filename(""), "_dbs.png");
}
