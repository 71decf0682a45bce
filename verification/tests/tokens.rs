use nikke::lexer::Lexer;
use nikke::tokens::{is_boolean, is_keyword};

#[test]
fn keywords_match_in_any_ascii_case() {
    for word in [
        "SELECT", "INSERT", "INTO", "VALUES", "FROM", "JOIN", "ON", "WHERE", "GROUP", "BY",
        "HAVING", "ORDER", "ASC", "DESC", "AND", "OR", "NOT",
    ] {
        assert!(is_keyword(word));
        assert!(is_keyword(&word.to_lowercase()));
    }
    assert!(is_keyword("select"));
    assert!(is_keyword("SeLeCt"));
}

#[test]
fn keywords_match_under_unicode_case_folding() {
    // U+017F (long s) uppercases to S, so this spells SELECT.
    assert!(is_keyword("\u{017F}elect"));
    assert!(is_keyword("\u{017F}ELECT"));
    assert!(!is_keyword("\u{017F}"));
}

#[test]
fn non_keywords_are_rejected() {
    for word in ["", "SELEC", "SELECTS", "TABLE", "foo", "order_by", "TRUE"] {
        assert!(!is_keyword(word));
    }
}

#[test]
fn boolean_literals_match_in_any_ascii_case() {
    assert!(is_boolean("TRUE"));
    assert!(is_boolean("true"));
    assert!(is_boolean("False"));
    assert!(is_boolean("FALSE"));
    assert!(!is_boolean("maybe"));
    assert!(!is_boolean(""));
    assert!(!is_boolean("NOT"));
}

#[test]
fn lexer_starts_at_the_first_character() {
    let lexer = Lexer::new("SELECT 1");
    assert_eq!(lexer.current_char(), Some('S'));
    assert_eq!(lexer.read_char_peek(), Some('E'));
}

#[test]
fn lexer_read_char_advances_and_stops_at_the_end() {
    let mut lexer = Lexer::new("ab");
    assert_eq!(lexer.current_char(), Some('a'));
    lexer.read_char();
    assert_eq!(lexer.current_char(), Some('b'));
    assert_eq!(lexer.read_char_peek(), None);
    lexer.read_char();
    assert_eq!(lexer.current_char(), None);
    lexer.read_char();
    assert_eq!(lexer.current_char(), None);
}

#[test]
fn lexer_skips_unicode_whitespace() {
    // Tab, newline, vertical tab, form feed, carriage return, space,
    // no-break space, em space and ideographic space all count.
    let mut lexer = Lexer::new("\t\n\u{0B}\u{0C}\r \u{A0}\u{2003}\u{3000}x y");
    lexer.skip_whitespace();
    assert_eq!(lexer.current_char(), Some('x'));
    lexer.read_char();
    lexer.skip_whitespace();
    assert_eq!(lexer.current_char(), Some('y'));
    lexer.skip_whitespace();
    assert_eq!(lexer.current_char(), Some('y'));
}

#[test]
fn lexer_on_empty_input() {
    let mut lexer = Lexer::new("");
    assert_eq!(lexer.current_char(), None);
    assert_eq!(lexer.read_char_peek(), None);
    lexer.skip_whitespace();
    assert_eq!(lexer.current_char(), None);
}
