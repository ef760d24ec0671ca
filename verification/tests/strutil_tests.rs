use cckit::jdatatypes::{JsonValueType, KeyValuePair, Null};
use cckit::strutil::push_u64;

#[test]
fn decimal_rendering_is_exact() {
    let mut s = String::new();
    push_u64(&mut s, 0);
    assert_eq!(s, "0".to_string());
    let mut s = String::new();
    push_u64(&mut s, 342190);
    assert_eq!(s, "342190".to_string());
}

#[test]
fn json_data_types_can_be_carried() {
    let pair = KeyValuePair {
        name: "kind".to_string(),
        value: JsonValueType::Null,
    };
    assert_eq!(pair.name, "kind".to_string());
    let _nothing = Null;
    match pair.value {
        JsonValueType::Null => {},
        _ => panic!("expected the null kind"),
    }
}
