use json_any_key::json_to_iter;
use json_any_key::json_to_map;
use json_any_key::json_to_vec;
use json_any_key::map_iter_to_json;
use json_any_key::vec_iter_to_json;
use json_any_key::text::to_json_text;
use json_any_key::DecodeError;
use json_any_key::Json;
use json_any_key::JsonMap;
use json_any_key::KeyClass;

fn chars(s: &str) -> Vec<char> {
    s.chars().collect()
}

fn jstr(s: &str) -> Json {
    json_any_key::json::json_string(s)
}

fn obj2(a: i64, b: i64) -> Json {
    Json::Obj(vec![(chars("a"), Json::Int(a)), (chars("b"), Json::Int(b))])
}

#[test]
fn test_structured_scenario_exact_text() {
    let data = vec![(obj2(3, 5), obj2(7, 9))];
    let ser = vec_iter_to_json::to_json_map(&data, KeyClass::Structured).unwrap();
    assert_eq!(ser, "{\"{\\\"a\\\":3,\\\"b\\\":5}\":{\"a\":7,\"b\":9}}");
    let deser = json_to_map(&ser, KeyClass::Structured).unwrap();
    let mut expected = JsonMap::new();
    expected.insert(obj2(3, 5), obj2(7, 9));
    assert!(deser.eq_pairs(&expected));
}

#[test]
fn test_string_scenario_exact_text() {
    let data = vec![(jstr("foo"), Json::Int(5))];
    let ser = vec_iter_to_json::to_json_map(&data, KeyClass::RawString).unwrap();
    assert_eq!(ser, "{\"foo\":5}");
    let deser = json_to_vec(&ser, KeyClass::RawString).unwrap();
    assert_eq!(deser.len(), 1);
    assert!(deser[0].0.deep_eq(&jstr("foo")));
    assert!(deser[0].1.deep_eq(&Json::Int(5)));
}

#[test]
fn test_non_object_rejection() {
    let r1 = json_to_map("[1,2,3]", KeyClass::Structured);
    assert!(matches!(r1, Err(DecodeError::NotAnObject)));
    let r2 = json_to_map("\"just a string\"", KeyClass::Structured);
    assert!(matches!(r2, Err(DecodeError::NotAnObject)));
    let r3 = json_to_vec("[1,2,3]", KeyClass::Structured);
    assert!(matches!(r3, Err(DecodeError::NotAnObject)));
}

#[test]
fn test_malformed_rejection() {
    let r = json_to_map("{\"a\":", KeyClass::Structured);
    assert!(matches!(r, Err(DecodeError::Malformed)));
    let r = json_to_map("", KeyClass::Structured);
    assert!(matches!(r, Err(DecodeError::Malformed)));
}

#[test]
fn test_key_decode_failure() {
    let r = json_to_map("{\"x\":1}", KeyClass::Structured);
    match r {
        Err(DecodeError::KeyDecodeFailure(name)) => {
            assert_eq!(name, chars("x"));
        }
        _ => panic!("expected a key decode failure"),
    }
}

#[test]
fn test_encode_key_not_a_string() {
    let data = vec![(Json::Int(5), Json::Int(6))];
    let r = map_iter_to_json::to_json_map(&data, KeyClass::RawString);
    assert!(r.is_err());
}

#[test]
fn test_lazy_partial_failure_independence() {
    // Three entries; the middle property name is not valid JSON for a
    // structured key, the first and third are.
    let text = "{\"1\":10,\"x\":20,\"2\":30}";
    let mut it = json_to_iter(text, KeyClass::Structured).unwrap();
    let e1 = it.next().unwrap();
    match e1 {
        Ok((k, v)) => {
            assert!(k.deep_eq(&Json::Int(1)));
            assert!(v.deep_eq(&Json::Int(10)));
        }
        Err(_) => panic!("entry one should decode"),
    }
    let e2 = it.next().unwrap();
    assert!(matches!(e2, Err(DecodeError::KeyDecodeFailure(_))));
    let e3 = it.next().unwrap();
    match e3 {
        Ok((k, v)) => {
            assert!(k.deep_eq(&Json::Int(2)));
            assert!(v.deep_eq(&Json::Int(30)));
        }
        Err(_) => panic!("entry three should decode despite entry two failing"),
    }
    assert!(it.next().is_none());
}

#[test]
fn test_duplicate_keys_last_write_wins() {
    let text = "{\"5\":1,\"5\":2}";
    let m = json_to_map(text, KeyClass::Structured).unwrap();
    let mut expected = JsonMap::new();
    expected.insert(Json::Int(5), Json::Int(2));
    assert!(m.eq_pairs(&expected));
    // The pair-list shape keeps both entries, in property order.
    let v = json_to_vec(text, KeyClass::Structured).unwrap();
    assert_eq!(v.len(), 2);
    assert!(v[0].1.deep_eq(&Json::Int(1)));
    assert!(v[1].1.deep_eq(&Json::Int(2)));
}

#[test]
fn test_empty_map() {
    let data: Vec<(Json, Json)> = Vec::new();
    let ser = map_iter_to_json::to_json_map(&data, KeyClass::Structured).unwrap();
    assert_eq!(ser, "{}");
    let m = json_to_map(&ser, KeyClass::Structured).unwrap();
    assert_eq!(m.len(), 0);
}

#[test]
fn test_escape_agreement_with_host_encoder() {
    // A string key full of characters that need escaping must be encoded
    // byte-for-byte as the host JSON encoder escapes it.
    let key = "a\"b\\c\nd\te\u{8}f\u{c}g\rh\u{1}i";
    let mut m = serde_json::Map::new();
    m.insert(key.to_string(), serde_json::Value::from(1i64));
    let canonical = serde_json::to_string(&serde_json::Value::Object(m)).unwrap();
    let data = vec![(jstr(key), Json::Int(1))];
    let ser = vec_iter_to_json::to_json_map(&data, KeyClass::RawString).unwrap();
    assert_eq!(ser, canonical);
    // And it comes back unchanged.
    let deser = json_to_vec(&ser, KeyClass::RawString).unwrap();
    assert!(deser[0].0.deep_eq(&jstr(key)));
}

#[test]
fn test_int_extremes_agree_with_host_encoder() {
    let values = [i64::MIN, -1, 0, 1, i64::MAX];
    for n in values {
        let ours = to_json_text(&Json::Int(n));
        let host = serde_json::to_string(&n).unwrap();
        assert_eq!(ours, host);
    }
    let data = vec![
        (Json::Int(i64::MIN), Json::Int(1)),
        (Json::Int(i64::MAX), Json::Int(2)),
    ];
    let ser = vec_iter_to_json::to_json_map(&data, KeyClass::Structured).unwrap();
    let deser = json_to_vec(&ser, KeyClass::Structured).unwrap();
    assert!(deser[0].0.deep_eq(&Json::Int(i64::MIN)));
    assert!(deser[1].0.deep_eq(&Json::Int(i64::MAX)));
}

#[test]
fn test_host_parser_accepts_our_text() {
    // Whatever this library prints, the host JSON layer parses to the same
    // structure and prints back identically.
    // Property names in sorted order, since the host parser's object type
    // re-sorts names when printing.
    let value = Json::Obj(vec![
        (chars("s"), jstr("he\"llo")),
        (chars("xs"), Json::Arr(vec![Json::Int(1), Json::Null, Json::Bool(true)])),
    ]);
    let ours = to_json_text(&value);
    let host: serde_json::Value = serde_json::from_str(&ours).unwrap();
    assert_eq!(serde_json::to_string(&host).unwrap(), ours);
}

#[test]
fn test_map_get_and_replace() {
    let mut m = JsonMap::new();
    m.insert(Json::Int(5), jstr("five"));
    m.insert(obj2(1, 2), Json::Int(3));
    assert!(m.get(&Json::Int(5)).unwrap().deep_eq(&jstr("five")));
    assert!(m.get(&obj2(1, 2)).unwrap().deep_eq(&Json::Int(3)));
    assert!(m.get(&Json::Int(6)).is_none());
    m.insert(Json::Int(5), jstr("cinq"));
    assert!(m.get(&Json::Int(5)).unwrap().deep_eq(&jstr("cinq")));
    assert_eq!(m.len(), 2);
}

#[test]
fn test_number_bounds_and_forms() {
    // Too large for a signed 64-bit integer.
    let r = json_to_map("{\"9223372036854775808\":1}", KeyClass::Structured);
    assert!(matches!(r, Err(DecodeError::KeyDecodeFailure(_))));
    // The most negative value still fits.
    let r = json_to_vec("{\"-9223372036854775808\":1}", KeyClass::Structured).unwrap();
    assert!(r[0].0.deep_eq(&Json::Int(i64::MIN)));
    // One less does not.
    let r = json_to_map("{\"-9223372036854775809\":1}", KeyClass::Structured);
    assert!(matches!(r, Err(DecodeError::KeyDecodeFailure(_))));
    // Leading zeros are not JSON; a negative zero is, and is the value zero.
    let r = json_to_map("{\"01\":1}", KeyClass::Structured);
    assert!(matches!(r, Err(DecodeError::KeyDecodeFailure(_))));
    let r = json_to_vec("{\"-0\":1}", KeyClass::Structured).unwrap();
    assert!(r[0].0.deep_eq(&Json::Int(0)));
    // Number forms that only denote floating point values are outside the
    // value model.
    let r = json_to_map("{\"5\":1.5}", KeyClass::Structured);
    assert!(matches!(r, Err(DecodeError::Malformed)));
}

#[test]
fn test_whitespace_accepted() {
    // Insignificant whitespace between tokens is part of the grammar.
    let spaced = json_to_map(" {\u{9}\"5\" :\u{a}1 ,\u{d}\"6\": 2 } ", KeyClass::Structured).unwrap();
    let compact = json_to_map("{\"5\":1,\"6\":2}", KeyClass::Structured).unwrap();
    assert!(spaced.eq_pairs(&compact));
    // A pretty-printed document from the host encoder decodes the same way.
    let mut m = serde_json::Map::new();
    m.insert("5".to_string(), serde_json::Value::from(1i64));
    let pretty = serde_json::to_string_pretty(&serde_json::Value::Object(m)).unwrap();
    let from_pretty = json_to_map(&pretty, KeyClass::Structured).unwrap();
    let mut expected = JsonMap::new();
    expected.insert(Json::Int(5), Json::Int(1));
    assert!(from_pretty.eq_pairs(&expected));
}

#[test]
fn test_standard_escape_forms() {
    // `\u0041` is 'A', `\/` is '/', and uppercase hexadecimal digits are
    // accepted; the decoded key is the plain string.
    let r = json_to_vec("{\"\\u0041\\/\\u00e9\":1}", KeyClass::RawString).unwrap();
    assert!(r[0].0.deep_eq(&jstr("A/\u{e9}")));
    let r = json_to_vec("{\"\\u001B\":1}", KeyClass::RawString).unwrap();
    assert!(r[0].0.deep_eq(&jstr("\u{1b}")));
    // A surrogate pair decodes to one character.
    let r = json_to_vec("{\"\\uD83D\\uDE00\":1}", KeyClass::RawString).unwrap();
    let emoji = char::from_u32(0x1F600).unwrap();
    assert!(r[0].0.deep_eq(&Json::Str(vec![emoji])));
    // A lone surrogate is not a JSON string.
    let r = json_to_map("{\"\\uD800\":1}", KeyClass::RawString);
    assert!(matches!(r, Err(DecodeError::Malformed)));
    // Whatever came in through an escape goes back out as the host encoder
    // writes it.
    let data = vec![(jstr("A/\u{e9}"), Json::Int(1))];
    let ser = vec_iter_to_json::to_json_map(&data, KeyClass::RawString).unwrap();
    let mut m = serde_json::Map::new();
    m.insert("A/\u{e9}".to_string(), serde_json::Value::from(1i64));
    assert_eq!(ser, serde_json::to_string(&serde_json::Value::Object(m)).unwrap());
}
