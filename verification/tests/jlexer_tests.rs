use cckit::jlexer::JLexerToken::{
    ArrayBegin, ArrayEnd, FalseToken, NameSeparator, NullToken, NumberFloat, NumberInteger,
    ObjectBegin, ObjectEnd, StringContent, StringToken, TrueToken, UnknownToken, ValueSeparator,
    Whitespace,
};
use cckit::jlexer::{JFloat, JLexer};

#[test]
fn varying_single_tokens() {
    let mut lexer = JLexer::new("{\n\t{\r} [],:}");
    assert_eq!(lexer.next(), Some((ObjectBegin, 1)));
    assert_eq!(lexer.next(), Some((Whitespace, 2)));
    assert_eq!(lexer.next(), Some((ObjectBegin, 4)));
    assert_eq!(lexer.next(), Some((Whitespace, 5)));
    assert_eq!(lexer.next(), Some((ObjectEnd, 6)));
    assert_eq!(lexer.next(), Some((Whitespace, 7)));
    assert_eq!(lexer.next(), Some((ArrayBegin, 8)));
    assert_eq!(lexer.next(), Some((ArrayEnd, 9)));
    assert_eq!(lexer.next(), Some((ValueSeparator, 10)));
    assert_eq!(lexer.next(), Some((NameSeparator, 11)));
    assert_eq!(lexer.next(), Some((ObjectEnd, 12)));
}

#[test]
fn tokens_with_strings() {
    let mut lexer = JLexer::new("{\n\"name\": \"value\", \"other-name\":\"value2\"}");
    assert_eq!(lexer.next(), Some((ObjectBegin, 1)));
    assert_eq!(lexer.next(), Some((Whitespace, 2)));
    assert_eq!(lexer.next(), Some((StringToken, 3)));
    assert_eq!(lexer.next(), Some((StringContent(String::from("name")), 4)));
    assert_eq!(lexer.next(), Some((StringToken, 8)));
    assert_eq!(lexer.next(), Some((NameSeparator, 9)));
    assert_eq!(lexer.next(), Some((Whitespace, 10)));
    assert_eq!(lexer.next(), Some((StringToken, 11)));
    assert_eq!(lexer.next(), Some((StringContent(String::from("value")), 12)));
    assert_eq!(lexer.next(), Some((StringToken, 17)));
    assert_eq!(lexer.next(), Some((ValueSeparator, 18)));
    assert_eq!(lexer.next(), Some((Whitespace, 19)));
    assert_eq!(lexer.next(), Some((StringToken, 20)));
    assert_eq!(lexer.next(), Some((StringContent(String::from("other-name")), 21)));
    assert_eq!(lexer.next(), Some((StringToken, 31)));
    assert_eq!(lexer.next(), Some((NameSeparator, 32)));
    assert_eq!(lexer.next(), Some((StringToken, 33)));
    assert_eq!(lexer.next(), Some((StringContent(String::from("value2")), 34)));
    assert_eq!(lexer.next(), Some((StringToken, 40)));
    assert_eq!(lexer.next(), Some((ObjectEnd, 41)));
}

#[test]
fn empty_string_literals() {
    let mut lexer = JLexer::new("\"\" \"test");
    assert_eq!(lexer.next(), Some((StringToken, 1)));
    assert_eq!(lexer.next(), Some((StringToken, 2)));
    assert_eq!(lexer.next(), Some((Whitespace, 3)));
    assert_eq!(lexer.next(), Some((StringToken, 4)));
    assert_eq!(lexer.next(), Some((StringContent(String::from("test")), 5)));
}

#[test]
fn tokens_with_numbers() {
    let mut lexer = JLexer::new("\"age\":15,\"weight\": 55.7 ");
    assert_eq!(lexer.next(), Some((StringToken, 1)));
    assert_eq!(lexer.next(), Some((StringContent(String::from("age")), 2)));
    assert_eq!(lexer.next(), Some((StringToken, 5)));
    assert_eq!(lexer.next(), Some((NameSeparator, 6)));
    assert_eq!(lexer.next(), Some((NumberInteger(15), 7)));
    assert_eq!(lexer.next(), Some((ValueSeparator, 9)));
    assert_eq!(lexer.next(), Some((StringToken, 10)));
    assert_eq!(lexer.next(), Some((StringContent(String::from("weight")), 11)));
    assert_eq!(lexer.next(), Some((StringToken, 17)));
    assert_eq!(lexer.next(), Some((NameSeparator, 18)));
    assert_eq!(lexer.next(), Some((Whitespace, 19)));
    assert_eq!(lexer.next(), Some((NumberFloat(JFloat::new(557, 1)), 20)));
    assert_eq!(lexer.next(), Some((Whitespace, 24)));
}

#[test]
fn shortcut_floating_point_values() {
    let mut lexer = JLexer::new("{.7 10 15.}");
    assert_eq!(lexer.next(), Some((ObjectBegin, 1)));
    assert_eq!(lexer.next(), Some((NumberFloat(JFloat::new(7, 1)), 2)));
    assert_eq!(lexer.next(), Some((Whitespace, 4)));
    assert_eq!(lexer.next(), Some((NumberInteger(10), 5)));
    assert_eq!(lexer.next(), Some((Whitespace, 7)));
    assert_eq!(lexer.next(), Some((NumberFloat(JFloat::new(15, 0)), 8)));
    assert_eq!(lexer.next(), Some((ObjectEnd, 11)));
}

#[test]
fn tokens_with_string_tokens() {
    let mut lexer = JLexer::new(r#"{"is_lexer": true,false null xxx false}"#);
    assert_eq!(lexer.next(), Some((ObjectBegin, 1)));
    assert_eq!(lexer.next(), Some((StringToken, 2)));
    assert_eq!(lexer.next(), Some((StringContent(String::from("is_lexer")), 3)));
    assert_eq!(lexer.next(), Some((StringToken, 11)));
    assert_eq!(lexer.next(), Some((NameSeparator, 12)));
    assert_eq!(lexer.next(), Some((Whitespace, 13)));
    assert_eq!(lexer.next(), Some((TrueToken, 14)));
    assert_eq!(lexer.next(), Some((ValueSeparator, 18)));
    assert_eq!(lexer.next(), Some((FalseToken, 19)));
    assert_eq!(lexer.next(), Some((Whitespace, 24)));
    assert_eq!(lexer.next(), Some((NullToken, 25)));
    assert_eq!(lexer.next(), Some((Whitespace, 29)));
    assert_eq!(lexer.next(), Some((UnknownToken("xxx".to_string()), 30)));
    assert_eq!(lexer.next(), Some((Whitespace, 33)));
    assert_eq!(lexer.next(), Some((FalseToken, 34)));
    assert_eq!(lexer.next(), Some((ObjectEnd, 39)));
}

#[test]
fn tokens_with_empty_object_and_array() {
    let mut lexer = JLexer::new(r#"{"array": [], "object": {}}"#);
    assert_eq!(lexer.next(), Some((ObjectBegin, 1)));
    assert_eq!(lexer.next(), Some((StringToken, 2)));
    assert_eq!(lexer.next(), Some((StringContent(String::from("array")), 3)));
    assert_eq!(lexer.next(), Some((StringToken, 8)));
    assert_eq!(lexer.next(), Some((NameSeparator, 9)));
    assert_eq!(lexer.next(), Some((Whitespace, 10)));
    assert_eq!(lexer.next(), Some((ArrayBegin, 11)));
    assert_eq!(lexer.next(), Some((ArrayEnd, 12)));
    assert_eq!(lexer.next(), Some((ValueSeparator, 13)));
    assert_eq!(lexer.next(), Some((Whitespace, 14)));
    assert_eq!(lexer.next(), Some((StringToken, 15)));
    assert_eq!(lexer.next(), Some((StringContent(String::from("object")), 16)));
    assert_eq!(lexer.next(), Some((StringToken, 22)));
    assert_eq!(lexer.next(), Some((NameSeparator, 23)));
    assert_eq!(lexer.next(), Some((Whitespace, 24)));
    assert_eq!(lexer.next(), Some((ObjectBegin, 25)));
    assert_eq!(lexer.next(), Some((ObjectEnd, 26)));
    assert_eq!(lexer.next(), Some((ObjectEnd, 27)));
}

#[test]
fn float_values_are_kept_normalised() {
    assert_eq!(JFloat::new(150, 1), JFloat::new(15, 0));
    assert_eq!(JFloat::new(700, 3), JFloat::new(7, 1));
    assert_ne!(JFloat::new(7, 2), JFloat::new(7, 1));
    let mut lexer = JLexer::new("15.0 ");
    assert_eq!(lexer.next(), Some((NumberFloat(JFloat::new(15, 0)), 1)));
}

#[test]
fn oversized_numbers_are_unknown_tokens() {
    let mut lexer = JLexer::new(" 99999999999999999999 ");
    assert_eq!(lexer.next(), Some((Whitespace, 1)));
    assert_eq!(
        lexer.next(),
        Some((UnknownToken("99999999999999999999".to_string()), 2))
    );
}

#[test]
fn misspelt_keywords_are_unknown_tokens() {
    let mut lexer = JLexer::new("{truex ");
    assert_eq!(lexer.next(), Some((ObjectBegin, 1)));
    assert_eq!(lexer.next(), Some((UnknownToken("truex".to_string()), 2)));
    let mut lexer = JLexer::new("{nul ");
    assert_eq!(lexer.next(), Some((ObjectBegin, 1)));
    assert_eq!(lexer.next(), Some((UnknownToken("nul".to_string()), 2)));
}

#[test]
fn is_string_content_tells_content_apart() {
    assert!(StringContent(String::from("x")).is_string_content());
    assert!(!StringToken.is_string_content());
}

#[test]
fn numbers_with_two_dots_are_unknown_tokens() {
    let mut lexer = JLexer::new("{1.2.3}");
    assert_eq!(lexer.next(), Some((ObjectBegin, 1)));
    assert_eq!(lexer.next(), Some((UnknownToken("1.2.3".to_string()), 2)));
    assert_eq!(lexer.next(), Some((ObjectEnd, 7)));
}

#[test]
fn numbers_lexed_in_isolation() {
    let mut lexer = JLexer::new(".7");
    assert_eq!(lexer.next(), Some((NumberFloat(JFloat::new(7, 1)), 1)));
    assert_eq!(lexer.next(), None);
    let mut lexer = JLexer::new("15.");
    assert_eq!(lexer.next(), Some((NumberFloat(JFloat::new(15, 0)), 1)));
    let mut lexer = JLexer::new("10");
    assert_eq!(lexer.next(), Some((NumberInteger(10), 1)));
}
