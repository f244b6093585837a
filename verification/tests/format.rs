use symdex::digits::dec_string;
use symdex::fzf::Entry;
use symdex::symbol::Kind;
use symdex::text::{Loc, Span};

#[test]
fn decimal_strings_are_exact() {
    assert_eq!(dec_string(0), "0");
    assert_eq!(dec_string(7), "7");
    assert_eq!(dec_string(12345), "12345");
    assert_eq!(dec_string(u64::MAX), "18446744073709551615");
}

#[test]
fn kind_codes_round_trip() {
    for kind in [
        Kind::Class,
        Kind::Function,
        Kind::Method,
        Kind::Variable,
        Kind::Constant,
        Kind::Module,
    ] {
        assert_eq!(Kind::of_code(kind.code()), Some(kind));
    }
    assert_eq!(Kind::of_code(99), None);
}

#[test]
fn colored_abbreviations_wrap_one_character() {
    assert_eq!(Kind::Function.colored_abbreviation(), "\u{1b}[34mf\u{1b}[0m");
    assert_eq!(Kind::Class.colored_abbreviation(), "\u{1b}[33mc\u{1b}[0m");
}

#[test]
fn output_line_has_five_separated_fields_and_a_trailing_separator() {
    let entry = Entry::new(
        "src/main.rs".to_string(),
        Loc::new(3, 7),
        "main".to_string(),
        Kind::Function,
    );
    let line = entry.format_line();
    assert_eq!(
        line,
        "src/main.rs\u{2008}3\u{2008}7\u{2008}main\u{2008}\u{1b}[34mf\u{1b}[0m\u{2008}"
    );
    assert_eq!(line.matches('\u{2008}').count(), 5);
}

#[test]
fn spans_keep_their_locations() {
    let span = Span::new(Loc::new(2, 5), Loc::new(2, 5));
    assert_eq!(span.start, span.end);
    assert_eq!(span.start.line, 2);
    assert_eq!(span.start.column, 5);
}
