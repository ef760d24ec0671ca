use cckit::jlexer::{JFloat, JLexerToken};
use cckit::jparser::{
    JParseError, JParser, JPartialExpect, JPartialParser, JPartialToken, JParserError,
    UnexpTokenFeedb,
};
use cckit::jparser_types::{JMember, JObject, JPartialValue as JPValue, JValue};
use cckit::jparser::json_full_analysis;

#[test]
fn partial_parse_main_empty_and_one_value() {
    let mut parser = JPartialParser::new("{}");
    assert_eq!(parser.next(), Some(Ok((JPartialToken::ObjectBegin, 1))));
    assert_eq!(parser.next(), Some(Ok((JPartialToken::ObjectEnd, 2))));

    let mut parser = JPartialParser::new("{\n\"name\": 50.7\n}");
    assert_eq!(parser.next(), Some(Ok((JPartialToken::ObjectBegin, 1))));
    assert_eq!(
        parser.next(),
        Some(Ok((JPartialToken::MemberName("name".into()), 4)))
    );
    assert_eq!(
        parser.next(),
        Some(Ok((
            JPartialToken::MemberValue(JPValue::Float(JFloat::new(507, 1))),
            11
        )))
    );
    assert_eq!(parser.next(), Some(Ok((JPartialToken::ObjectEnd, 16))));
}

#[test]
fn partial_parse_main_multiple_members() {
    let mut parser = JPartialParser::new(
        r#"{"name": "Michael", "has_job": true, "has_kid": false, "pointer": null, "features": ["test", 10, true]}"#,
    );
    assert_eq!(parser.next(), Some(Ok((JPartialToken::ObjectBegin, 1))));
    assert_eq!(
        parser.next(),
        Some(Ok((JPartialToken::MemberName("name".to_string()), 3)))
    );
    assert_eq!(
        parser.next(),
        Some(Ok((
            JPartialToken::MemberValue(JPValue::String("Michael".to_string())),
            11
        )))
    );
    assert_eq!(
        parser.next(),
        Some(Ok((JPartialToken::MemberName("has_job".to_string()), 22)))
    );
    assert_eq!(
        parser.next(),
        Some(Ok((JPartialToken::MemberValue(JPValue::True), 32)))
    );
    assert_eq!(
        parser.next(),
        Some(Ok((JPartialToken::MemberName("has_kid".to_string()), 39)))
    );
    assert_eq!(
        parser.next(),
        Some(Ok((JPartialToken::MemberValue(JPValue::False), 49)))
    );
    assert_eq!(
        parser.next(),
        Some(Ok((JPartialToken::MemberName("pointer".to_string()), 57)))
    );
    assert_eq!(
        parser.next(),
        Some(Ok((JPartialToken::MemberValue(JPValue::Null), 67)))
    );
    assert_eq!(
        parser.next(),
        Some(Ok((JPartialToken::MemberName("features".to_string()), 74)))
    );
    let array = vec![
        JPValue::String("test".to_string()),
        JPValue::Integer(10),
        JPValue::True,
    ];
    assert_eq!(parser.next(), Some(Ok((JPartialToken::Array(array), 85))));
}

#[test]
fn partial_parse_arrays() {
    let mut parser = JPartialParser::new(
        r#"{
            "key1": ["test", true, false],
            "key2": [],
            "key3": [null, 15, 7.5]
            }"#,
    );
    assert_eq!(parser.next(), Some(Ok((JPartialToken::ObjectBegin, 1))));
    assert_eq!(
        parser.next(),
        Some(Ok((JPartialToken::MemberName("key1".to_string()), 16)))
    );
    let array = vec![
        JPValue::String("test".to_string()),
        JPValue::True,
        JPValue::False,
    ];
    assert_eq!(parser.next(), Some(Ok((JPartialToken::Array(array), 23))));
    assert_eq!(
        parser.next(),
        Some(Ok((JPartialToken::MemberName("key2".to_string()), 59)))
    );
    assert_eq!(parser.next(), Some(Ok((JPartialToken::Array(Vec::new()), 66))));
    assert_eq!(
        parser.next(),
        Some(Ok((JPartialToken::MemberName("key3".to_string()), 83)))
    );
    let array = vec![
        JPValue::Null,
        JPValue::Integer(15),
        JPValue::Float(JFloat::new(75, 1)),
    ];
    assert_eq!(parser.next(), Some(Ok((JPartialToken::Array(array), 90))));
    assert_eq!(parser.next(), Some(Ok((JPartialToken::ObjectEnd, 118))));
}

#[test]
fn partial_parse_objects() {
    let source = "{\n            \"object\": { \n                \"data\": \"data\", \n                \"object2\": {}\n            } \n        }";
    let mut parser = JPartialParser::new(source);
    assert_eq!(parser.next(), Some(Ok((JPartialToken::ObjectBegin, 1))));
    assert_eq!(
        parser.next(),
        Some(Ok((JPartialToken::MemberName("object".to_string()), 16)))
    );
    assert_eq!(parser.next(), Some(Ok((JPartialToken::ObjectBegin, 25))));
    assert_eq!(
        parser.next(),
        Some(Ok((JPartialToken::MemberName("data".to_string()), 45)))
    );
    assert_eq!(
        parser.next(),
        Some(Ok((
            JPartialToken::MemberValue(JPValue::String("data".to_string())),
            53
        )))
    );
    assert_eq!(
        parser.next(),
        Some(Ok((JPartialToken::MemberName("object2".to_string()), 78)))
    );
    assert_eq!(parser.next(), Some(Ok((JPartialToken::ObjectBegin, 88))));
    assert_eq!(parser.next(), Some(Ok((JPartialToken::ObjectEnd, 89))));
    assert_eq!(parser.next(), Some(Ok((JPartialToken::ObjectEnd, 103))));
    assert_eq!(parser.next(), Some(Ok((JPartialToken::ObjectEnd, 114))));
}

#[test]
fn jparser_partial_parse_main_empty_and_one_value() {
    let mut parser = JPartialParser::new("{}");
    assert_eq!(parser.next(), Some(Ok((JPartialToken::ObjectBegin, 1))));
    assert_eq!(parser.next(), Some(Ok((JPartialToken::ObjectEnd, 2))));

    let mut parser = JPartialParser::new("{\n\"name\": 50.7\n}");
    assert_eq!(parser.next(), Some(Ok((JPartialToken::ObjectBegin, 1))));
    assert_eq!(
        parser.next(),
        Some(Ok((JPartialToken::MemberName("name".into()), 4)))
    );
    assert_eq!(
        parser.next(),
        Some(Ok((
            JPartialToken::MemberValue(JPValue::Float(JFloat::new(507, 1))),
            11
        )))
    );
    assert_eq!(parser.next(), Some(Ok((JPartialToken::ObjectEnd, 16))));
}

#[test]
fn jparser_partial_parse_objects() {
    let mut parser = JPartialParser::new(r#"{"object": { "data": "data", "object2": {} } }"#);
    assert_eq!(parser.next(), Some(Ok((JPartialToken::ObjectBegin, 1))));
    assert_eq!(
        parser.next(),
        Some(Ok((JPartialToken::MemberName("object".to_string()), 3)))
    );
    assert_eq!(parser.next(), Some(Ok((JPartialToken::ObjectBegin, 12))));
    assert_eq!(
        parser.next(),
        Some(Ok((JPartialToken::MemberName("data".to_string()), 15)))
    );
    assert_eq!(
        parser.next(),
        Some(Ok((
            JPartialToken::MemberValue(JPValue::String("data".to_string())),
            23
        )))
    );
    assert_eq!(
        parser.next(),
        Some(Ok((JPartialToken::MemberName("object2".to_string()), 31)))
    );
    assert_eq!(parser.next(), Some(Ok((JPartialToken::ObjectBegin, 41))));
    assert_eq!(parser.next(), Some(Ok((JPartialToken::ObjectEnd, 42))));
    assert_eq!(parser.next(), Some(Ok((JPartialToken::ObjectEnd, 44))));
    assert_eq!(parser.next(), Some(Ok((JPartialToken::ObjectEnd, 46))));
}

#[test]
fn parse_empty_object_has_zero_members() {
    let mut parser = JParser::new("{}");
    assert_eq!(parser.parse(), Ok(JObject::default()));
}

#[test]
fn parse_keeps_member_order_and_count() {
    let mut parser = JParser::new(r#"{"a": 1, "b": 2, "c": 3, "d": 4}"#);
    let tree = parser.parse().expect("well-formed object");
    assert_eq!(tree.members.len(), 4);
    assert_eq!(tree.members[0].name, "a".to_string());
    assert_eq!(tree.members[1].name, "b".to_string());
    assert_eq!(tree.members[2].name, "c".to_string());
    assert_eq!(tree.members[3].name, "d".to_string());
    assert_eq!(tree.members[3].value, JValue::Integer(4));
}

#[test]
fn parse_single_float_member() {
    let mut parser = JParser::new("{\n\"name\": 50.7\n}");
    let tree = parser.parse().expect("well-formed object");
    assert_eq!(tree.members.len(), 1);
    assert_eq!(tree.members[0].name, "name".to_string());
    assert_eq!(tree.members[0].value, JValue::Float(JFloat::new(507, 1)));
}

#[test]
fn parse_scalar_array_member() {
    let mut parser = JParser::new(r#"{"features": ["test", 10, true]}"#);
    let tree = parser.parse().expect("well-formed object");
    assert_eq!(tree.members.len(), 1);
    assert_eq!(
        tree.members[0].value,
        JValue::Array(vec![
            JPValue::String("test".to_string()),
            JPValue::Integer(10),
            JPValue::True,
        ])
    );
}

#[test]
fn parse_trailing_comma_is_unexpected_token() {
    let mut parser = JParser::new(r#"{"a": 1,}"#);
    assert_eq!(
        parser.parse(),
        Err(JParseError::UnexpectedToken(
            9,
            UnexpTokenFeedb::JLToken(JLexerToken::ObjectEnd),
            UnexpTokenFeedb::JPExpect(vec![JPartialExpect::MemberName]),
        ))
    );
}

#[test]
fn parse_empty_input_has_no_beginning_object() {
    let mut parser = JParser::new("");
    assert_eq!(parser.parse(), Err(JParseError::NoBeginningObject(1)));
    let mut parser = JParser::new("   ");
    assert_eq!(parser.parse(), Err(JParseError::NoBeginningObject(1)));
}

#[test]
fn parse_value_separators_reset_the_expectation() {
    let mut parser = JPartialParser::new(r#"{"a": 1, "b": 2, "c": 3}"#);
    assert_eq!(parser.next(), Some(Ok((JPartialToken::ObjectBegin, 1))));
    assert_eq!(
        parser.next(),
        Some(Ok((JPartialToken::MemberName("a".to_string()), 3)))
    );
    assert_eq!(
        parser.next(),
        Some(Ok((JPartialToken::MemberValue(JPValue::Integer(1)), 7)))
    );
    assert_eq!(
        parser.next(),
        Some(Ok((JPartialToken::MemberName("b".to_string()), 11)))
    );
    assert_eq!(
        parser.next(),
        Some(Ok((JPartialToken::MemberValue(JPValue::Integer(2)), 15)))
    );
    assert_eq!(
        parser.next(),
        Some(Ok((JPartialToken::MemberName("c".to_string()), 19)))
    );
    assert_eq!(
        parser.next(),
        Some(Ok((JPartialToken::MemberValue(JPValue::Integer(3)), 23)))
    );
    assert_eq!(parser.next(), Some(Ok((JPartialToken::ObjectEnd, 24))));
}

#[test]
fn parse_nested_objects_two_levels_deep() {
    let mut parser = JParser::new(r#"{"object": {"data": "data", "object2": {}}}"#);
    let tree = parser.parse().expect("well-formed object");
    let expected = JObject {
        members: vec![JMember {
            name: "object".to_string(),
            value: JValue::Object(JObject {
                members: vec![
                    JMember {
                        name: "data".to_string(),
                        value: JValue::String("data".to_string()),
                    },
                    JMember {
                        name: "object2".to_string(),
                        value: JValue::Object(JObject::default()),
                    },
                ],
            }),
        }],
    };
    assert_eq!(tree, expected);
}

#[test]
fn parse_stray_closing_brace_is_unclosed_object() {
    let mut parser = JPartialParser::new("{}}");
    assert_eq!(parser.next(), Some(Ok((JPartialToken::ObjectBegin, 1))));
    assert_eq!(parser.next(), Some(Ok((JPartialToken::ObjectEnd, 2))));
    assert_eq!(parser.next(), Some(Err(JParseError::UnclosedObject(3))));
}

#[test]
fn parse_unknown_token_is_reported_with_its_text() {
    let mut parser = JParser::new(r#"{"key": False}"#);
    assert_eq!(
        parser.parse(),
        Err(JParseError::UnexpectedToken(
            9,
            UnexpTokenFeedb::JLToken(JLexerToken::UnknownToken("False".to_string())),
            UnexpTokenFeedb::JPExpect(vec![
                JPartialExpect::MemberValue,
                JPartialExpect::ObjectBegin
            ]),
        ))
    );
}

#[test]
fn parse_unclosed_array_is_unexpected_end() {
    let mut parser = JParser::new(r#"{"key": [1, 2"#);
    assert_eq!(parser.parse(), Err(JParseError::UnexpectedEnd(9)));
}

#[test]
fn parse_truncated_object_is_unexpected_end() {
    let mut parser = JParser::new("{");
    assert_eq!(parser.parse(), Err(JParseError::UnexpectedEnd(1)));
}

#[test]
fn parse_duplicate_names_are_kept_in_order() {
    let mut parser = JParser::new(r#"{"a": 1, "a": 2}"#);
    let tree = parser.parse().expect("well-formed object");
    assert_eq!(tree.members.len(), 2);
    assert_eq!(tree.members[0].name, "a".to_string());
    assert_eq!(tree.members[0].value, JValue::Integer(1));
    assert_eq!(tree.members[1].name, "a".to_string());
    assert_eq!(tree.members[1].value, JValue::Integer(2));
}

#[test]
fn full_analysis_accepts_and_refuses() {
    assert_eq!(json_full_analysis(r#"{"a": 1}"#), Ok(()));
    assert_eq!(
        json_full_analysis(""),
        Err(JParserError::NoBeginningObject)
    );
    assert_eq!(
        json_full_analysis(r#"{"key": False}"#),
        Err(JParserError::UnexpectedToken(String::new()))
    );
}
