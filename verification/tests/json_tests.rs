use gitbutler_core::json::{deserialize_deltas, serialize_deltas, Delta, Operation};

fn insert(offset: u64, text: &str) -> Operation {
    Operation::Insert {
        offset,
        text: text.to_string(),
    }
}

fn delete(offset: u64, len: u64) -> Operation {
    Operation::Delete { offset, len }
}

#[test]
fn serialize_concrete_batch() {
    let deltas = vec![Delta {
        operations: vec![insert(0, "hello")],
        timestamp_ms: 42,
    }];
    let s = serialize_deltas(&deltas);
    assert_eq!(s, r#"[{"operations":[{"insert":[0,"hello"]}],"timestampMs":42}]"#);
}

#[test]
fn serialize_two_deltas_with_mixed_operations() {
    let deltas = vec![
        Delta {
            operations: vec![insert(3, "ab"), delete(5, 2)],
            timestamp_ms: 7,
        },
        Delta {
            operations: vec![],
            timestamp_ms: 1700000000000,
        },
    ];
    let s = serialize_deltas(&deltas);
    assert_eq!(
        s,
        r#"[{"operations":[{"insert":[3,"ab"]},{"delete":[5,2]}],"timestampMs":7},{"operations":[],"timestampMs":1700000000000}]"#
    );
}

#[test]
fn serialize_escapes_quotes_backslashes_and_controls() {
    let deltas = vec![Delta {
        operations: vec![insert(0, "a\"b\\c\nd")],
        timestamp_ms: 0,
    }];
    let s = serialize_deltas(&deltas);
    assert_eq!(
        s,
        r#"[{"operations":[{"insert":[0,"a\"b\\c\u000ad"]}],"timestampMs":0}]"#
    );
}

#[test]
fn empty_batch_round_trip() {
    let deltas: Vec<Delta> = Vec::new();
    let s = serialize_deltas(&deltas);
    assert_eq!(s, "[]");
    assert_eq!(deserialize_deltas(&s), Some(Vec::new()));
}

#[test]
fn round_trip_preserves_batch() {
    let deltas = vec![
        Delta {
            operations: vec![insert(0, "héllo ✓"), delete(2, 4), insert(9, "")],
            timestamp_ms: 123456789,
        },
        Delta {
            operations: vec![],
            timestamp_ms: 0,
        },
        Delta {
            operations: vec![insert(u64::MAX, "x\t\"\\")],
            timestamp_ms: u64::MAX,
        },
    ];
    let s = serialize_deltas(&deltas);
    let back = deserialize_deltas(&s).expect("canonical text must read back");
    assert_eq!(back, deltas);
}

#[test]
fn round_trip_of_control_characters() {
    let text: String = (1u8..32).map(|b| b as char).collect();
    let deltas = vec![Delta {
        operations: vec![insert(0, &text)],
        timestamp_ms: 5,
    }];
    let s = serialize_deltas(&deltas);
    let back = deserialize_deltas(&s).unwrap();
    assert_eq!(back, deltas);
}

#[test]
fn rejects_whitespace_and_non_canonical_numbers() {
    assert_eq!(deserialize_deltas("[ ]"), None);
    assert_eq!(
        deserialize_deltas(r#"[{"operations":[],"timestampMs":007}]"#),
        None
    );
    assert_eq!(
        deserialize_deltas(r#"[{"operations": [],"timestampMs":7}]"#),
        None
    );
}

#[test]
fn rejects_trailing_or_malformed_input() {
    assert_eq!(deserialize_deltas(""), None);
    assert_eq!(deserialize_deltas("[]x"), None);
    assert_eq!(deserialize_deltas(r#"{"operations":[],"timestampMs":7}"#), None);
    assert_eq!(
        deserialize_deltas(r#"[{"operations":[{"paste":[0,"a"]}],"timestampMs":7}]"#),
        None
    );
    assert_eq!(
        deserialize_deltas(r#"[{"operations":[],"timestampMs":18446744073709551616}]"#),
        None
    );
}

#[test]
fn output_is_well_formed_json_for_outside_readers() {
    let deltas = vec![Delta {
        operations: vec![insert(1, "a\"b"), delete(0, 9)],
        timestamp_ms: 99,
    }];
    let s = serialize_deltas(&deltas);
    let v: serde_json::Value = serde_json::from_str(&s).expect("outside parser accepts the text");
    let arr = v.as_array().unwrap();
    assert_eq!(arr.len(), 1);
    assert_eq!(arr[0]["timestampMs"], serde_json::Value::from(99u64));
    let ops = arr[0]["operations"].as_array().unwrap();
    assert_eq!(ops.len(), 2);
    assert_eq!(ops[0]["insert"][0], serde_json::Value::from(1u64));
    assert_eq!(ops[0]["insert"][1], serde_json::Value::from("a\"b"));
    assert_eq!(ops[1]["delete"][1], serde_json::Value::from(9u64));
}
