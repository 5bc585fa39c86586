use synced_store::json::{encode_value, parse_value};
use synced_store::model::{InternalState, Kind, StateValue};

fn round_trips(v: StateValue, kind: Kind) -> StateValue {
    let wire = encode_value(&v);
    parse_value(kind, &wire).expect("the encoder's output must parse")
}

#[test]
fn int_encoding_is_decimal() {
    assert_eq!(encode_value(&StateValue::Int(1)), "1");
    assert_eq!(encode_value(&StateValue::Int(0)), "0");
    assert_eq!(encode_value(&StateValue::Int(-42)), "-42");
    assert_eq!(encode_value(&StateValue::Int(i64::MAX)), "9223372036854775807");
    assert_eq!(encode_value(&StateValue::Int(i64::MIN)), "-9223372036854775808");
}

#[test]
fn flag_encoding_is_json_boolean() {
    assert_eq!(encode_value(&StateValue::Flag(true)), "true");
    assert_eq!(encode_value(&StateValue::Flag(false)), "false");
}

#[test]
fn text_encoding_quotes_and_escapes() {
    assert_eq!(encode_value(&StateValue::Text("ada".to_string())), "\"ada\"");
    assert_eq!(encode_value(&StateValue::Text(String::new())), "\"\"");
    assert_eq!(
        encode_value(&StateValue::Text("a\"b\\c".to_string())),
        "\"a\\\"b\\\\c\""
    );
    assert_eq!(encode_value(&StateValue::Text("\n".to_string())), "\"\\u000a\"");
}

#[test]
fn internal_encoding_has_fixed_shape() {
    let st = InternalState { authenticated: false, name: "ada".to_string() };
    assert_eq!(
        encode_value(&StateValue::Internal(st)),
        "{\"authenticated\":false,\"name\":\"ada\"}"
    );
    let st = InternalState { authenticated: true, name: String::new() };
    assert_eq!(
        encode_value(&StateValue::Internal(st)),
        "{\"authenticated\":true,\"name\":\"\"}"
    );
}

#[test]
fn int_round_trip() {
    for i in [0i64, 1, -1, 7, -42, 1000000, i64::MAX, i64::MIN] {
        match round_trips(StateValue::Int(i), Kind::Int) {
            StateValue::Int(j) => assert_eq!(i, j),
            _ => panic!("expected an integer value"),
        }
    }
}

#[test]
fn flag_round_trip() {
    for b in [true, false] {
        match round_trips(StateValue::Flag(b), Kind::Flag) {
            StateValue::Flag(c) => assert_eq!(b, c),
            _ => panic!("expected a boolean value"),
        }
    }
}

#[test]
fn text_round_trip() {
    for t in ["", "ada", "a\"b\\c", "line\nbreak\ttab", "caf\u{00e9} \u{1F600}", "\u{0001}\u{001f}"] {
        match round_trips(StateValue::Text(t.to_string()), Kind::Text) {
            StateValue::Text(u) => assert_eq!(t, u),
            _ => panic!("expected a string value"),
        }
    }
}

#[test]
fn internal_round_trip() {
    let st = InternalState { authenticated: true, name: "a \"quoted\" name".to_string() };
    match round_trips(StateValue::Internal(st), Kind::Internal) {
        StateValue::Internal(got) => {
            assert!(got.authenticated);
            assert_eq!(got.name, "a \"quoted\" name");
        }
        _ => panic!("expected the internal state"),
    }
}

#[test]
fn parse_int_accepts_exact_bounds() {
    assert!(matches!(
        parse_value(Kind::Int, "9223372036854775807"),
        Some(StateValue::Int(i64::MAX))
    ));
    assert!(matches!(
        parse_value(Kind::Int, "-9223372036854775808"),
        Some(StateValue::Int(i64::MIN))
    ));
}

#[test]
fn parse_int_rejects_malformed_numbers() {
    for bad in [
        "",
        "-",
        "-0",
        "05",
        "1.5",
        "1e3",
        " 1",
        "1 ",
        "+1",
        "abc",
        "9223372036854775808",
        "-9223372036854775809",
        "12345678901234567890123",
    ] {
        assert!(parse_value(Kind::Int, bad).is_none(), "{bad:?} must not parse");
    }
}

#[test]
fn parse_flag_rejects_anything_but_the_two_literals() {
    assert!(matches!(parse_value(Kind::Flag, "true"), Some(StateValue::Flag(true))));
    assert!(matches!(parse_value(Kind::Flag, "false"), Some(StateValue::Flag(false))));
    for bad in ["True", "FALSE", "1", "0", "", "truth"] {
        assert!(parse_value(Kind::Flag, bad).is_none(), "{bad:?} must not parse");
    }
}

#[test]
fn parse_text_decodes_standard_escapes() {
    let got = parse_value(Kind::Text, "\"a\\n\\t\\\"\\\\\\/\\u0041\"");
    match got {
        Some(StateValue::Text(t)) => assert_eq!(t, "a\n\t\"\\/A"),
        _ => panic!("expected a string value"),
    }
}

#[test]
fn parse_text_rejects_bad_strings() {
    for bad in ["", "a", "\"open", "\"bad\\q\"", "\"\\u12ab\"", "\"raw\u{0002}\"", "\"x\"y"] {
        assert!(parse_value(Kind::Text, bad).is_none(), "{bad:?} must not parse");
    }
}

#[test]
fn parse_internal_accepts_only_the_canonical_shape() {
    let got = parse_value(Kind::Internal, "{\"authenticated\":true,\"name\":\"ada\"}");
    match got {
        Some(StateValue::Internal(st)) => {
            assert!(st.authenticated);
            assert_eq!(st.name, "ada");
        }
        _ => panic!("expected the internal state"),
    }
    for bad in [
        "{}",
        "{\"authenticated\":true}",
        "{\"name\":\"ada\",\"authenticated\":true}",
        "{ \"authenticated\":true,\"name\":\"ada\"}",
        "{\"authenticated\":maybe,\"name\":\"ada\"}",
        "{\"authenticated\":true,\"name\":\"ada\"",
        "{\"authenticated\":true,\"name\":\"ada\"}x",
    ] {
        assert!(parse_value(Kind::Internal, bad).is_none(), "{bad:?} must not parse");
    }
}

#[test]
fn parse_refuses_payload_of_another_kind() {
    assert!(parse_value(Kind::Int, "true").is_none());
    assert!(parse_value(Kind::Flag, "1").is_none());
    assert!(parse_value(Kind::Text, "1").is_none());
}
