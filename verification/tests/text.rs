use asm_callgraph::scanner::scan_unit;
use asm_callgraph::text::{chars_of, is_whitespace};

#[test]
fn whitespace_is_the_unicode_property() {
    for c in [' ', '\t', '\n', '\u{b}', '\u{c}', '\r', '\u{85}', '\u{a0}', '\u{1680}', '\u{2000}',
        '\u{200a}', '\u{2028}', '\u{2029}', '\u{202f}', '\u{205f}', '\u{3000}']
    {
        assert!(is_whitespace(c), "{:?}", c);
    }
    for c in ['a', '.', '\u{8}', '\u{e}', '\u{1f}', '\u{200b}', '\u{180e}', '\u{feff}', '\0'] {
        assert!(!is_whitespace(c), "{:?}", c);
    }
}

#[test]
fn whitespace_agrees_with_the_standard_library() {
    for n in 0..0x3100u32 {
        if let Some(c) = char::from_u32(n) {
            assert_eq!(is_whitespace(c), c.is_whitespace(), "{:?}", c);
        }
    }
}

#[test]
fn characters_are_listed_in_order() {
    assert_eq!(chars_of(""), Vec::<char>::new());
    assert_eq!(chars_of("a\u{e9}\u{1f600}\n"), vec!['a', '\u{e9}', '\u{1f600}', '\n']);
}

#[test]
fn lines_end_at_line_feeds_and_drop_one_carriage_return() {
    let text = "\t.type\tf, @function\r\n\r\nf:\r\n\tnop\r\r\n\n\tcall\tg\r";
    let unit = scan_unit(text).unwrap();
    assert_eq!(unit.bodies().len(), 1);
    assert_eq!(unit.bodies()[0].label_line, 2);
    assert_eq!(unit.bodies()[0].end_line, 6);
    assert_eq!(unit.bodies()[0].instructions, 3);
}

#[test]
fn stray_call_reports_the_line_as_split() {
    let e = scan_unit("\n\r\n  call  f  \r\r\nrest").unwrap_err();
    assert_eq!(e.line_number, 3);
    assert_eq!(e.line, "  call  f  \r");
}
