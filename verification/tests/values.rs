//! JSON values, event records, text and bit patterns of numbers.

use hivedb::bits::{clamp_to_unit, double_at_least, is_below, is_finite, is_nan, is_zero, reaches};
use hivedb::error::HiveError;
use hivedb::event::{AgentId, Event, EventInput, EventKind, EventKindTag, StreamId};
use hivedb::json::{parse_json, Json, JsonNumber, DEEPEST_JSON};
use hivedb::record::{EventDraft, EventField, FieldName, RecordError};
use hivedb::sorted::SortedMap;
use hivedb::text::{char_count, is_blank, join_all, u64_text};

fn json(text: &str) -> Json {
    parse_json(text).unwrap()
}

fn event() -> Event {
    Event {
        seq: 7,
        agent_id: AgentId::from("A"),
        stream_id: StreamId::from("s"),
        kind: EventKind::ToolCall { tool: "search".into() },
        timestamp: 99,
        causation: Some(3),
        correlation: None,
        payload: json(r#"{"k": [1, 2.5, "é", null, false]}"#),
    }
}

#[test]
fn json_goes_there_and_back() {
    for text in [
        "null",
        "true",
        "-3",
        "18446744073709551615",
        "1.5",
        r#""a\"b\\c\n\u0001é""#,
        "[]",
        "{}",
        r#"{"a":{"b":[1,{"c":null}]}}"#,
    ] {
        let value = json(text);
        assert_eq!(value.to_text(), text);
        assert_eq!(json(&value.to_text()), value);
    }
    // Keys come in order, and the last of equal keys stands.
    assert_eq!(json(r#"{"b": 1, "a": 2, "b": 3}"#).to_text(), r#"{"a":2,"b":3}"#);
    assert!(parse_json("[1,").is_err());
    assert!(!parse_json("tru").unwrap_err().is_empty());
}

#[test]
fn json_is_read_back_up_to_the_deepest_nesting() {
    let number = |text: &str, unsigned: Option<u64>| {
        Json::Number(JsonNumber { text: text.into(), unsigned })
    };
    let mut value = Json::Object(vec![
        ("".into(), number("-9223372036854775808", None)),
        ("\u{0}\"\\/\u{7f}\u{2028}".into(), number("18446744073709551615", Some(u64::MAX))),
        ("é".into(), Json::Array(vec![Json::Null, Json::Bool(true), number("0", Some(0))])),
    ]);
    // The innermost array is two deep already.
    for _ in 2..DEEPEST_JSON {
        value = Json::Array(vec![value]);
    }
    let back = json(&value.to_text());
    assert_eq!(back, value);
    assert_eq!(back.to_text(), value.to_text());

    let deeper = Json::Array(vec![value]);
    assert!(parse_json(&deeper.to_text()).is_err());
}

#[test]
fn json_fields_are_read() {
    let value = json(r#"{"n": 5, "s": "x", "neg": -1, "f": 5.0}"#);
    assert_eq!(value.unsigned_field("n"), Some(5));
    assert_eq!(value.unsigned_field("neg"), None);
    assert_eq!(value.unsigned_field("f"), None);
    assert_eq!(value.text_field("s").as_deref(), Some("x"));
    assert_eq!(value.text_field("n"), None);
    assert_eq!(value.get("missing"), None);
    assert_eq!(value.get("s").unwrap().as_str().map(String::as_str), Some("x"));
    assert_eq!(value.get("n").unwrap().as_u64(), Some(5));
    assert_eq!(json("[1]").get("0"), None);
}

#[test]
fn json_pointers_lead_inside() {
    let value = json(r#"{"a": {"b/c": [10, 20], "~": 1}, "": 2}"#);
    assert_eq!(value.pointer(""), Some(&value));
    assert_eq!(value.pointer("/a/b~1c/1"), Some(&json("20")));
    assert_eq!(value.pointer("/a/~0"), Some(&json("1")));
    assert_eq!(value.pointer("/"), Some(&json("2")));
    assert_eq!(value.pointer("/a/b~1c/2"), None);
    assert_eq!(value.pointer("/a/b~1c/01"), None);
    assert_eq!(value.pointer("/a/b~1c/+1"), None);
    assert_eq!(value.pointer("a"), None);
}

#[test]
fn json_equality_is_by_value() {
    assert_eq!(json("[1, 2]"), json("[1,2]"));
    assert_eq!(json("0.0"), json("-0.0"));
    assert_ne!(json("1"), json("1.0"));
    assert_ne!(json("[1]"), json("[1, 1]"));
    assert!(json(r#"{"a": 1}"#).same(&json(r#"{ "a" : 1 }"#)));
    assert_eq!(json("1e2"), json("100.0"));
}

#[test]
fn events_go_through_records() {
    let event = event();
    let back = Event::from_record(event.to_record()).unwrap();
    assert_eq!(back, event);
}

#[test]
fn records_must_be_complete() {
    let refused = |fields: Vec<EventField>| match Event::from_record(fields) {
        Ok(_) => panic!("must be refused"),
        Err(error) => error,
    };
    let mut twice = event().to_record();
    twice.push(EventField::SeqNo(8));
    assert!(matches!(refused(twice), RecordError::Duplicate(FieldName::SeqNo)));

    let mut short = event().to_record();
    short.pop();
    assert!(matches!(refused(short), RecordError::Missing(FieldName::Payload)));

    let mut broken = event().to_record();
    broken.pop();
    broken.push(EventField::Payload("{".into()));
    assert!(matches!(refused(broken), RecordError::Payload(_)));

    let mut draft = EventDraft::blank();
    draft.accept(EventField::SeqNo(1)).unwrap();
    draft.accept(EventField::AgentId(AgentId::from("A"))).unwrap();
    assert_eq!(draft.gap(), Some((2, FieldName::StreamId)));
    assert!(matches!(draft.finish_sequence(), Err(RecordError::Length(2))));
}

#[test]
fn inputs_are_built_step_by_step() {
    let input = EventInput::new("A", "s", EventKind::Fact)
        .with_payload(json("1"))
        .with_causation(4);
    assert_eq!(input.agent_id, AgentId::from("A".to_string()));
    assert_eq!(input.stream_id, StreamId::from("s".to_string()));
    assert_eq!(input.causation, Some(4));
    assert_eq!(input.correlation, None);
    assert_eq!(input.payload, json("1"));
    assert_eq!(EventKindTag::from(&input.kind), EventKindTag::Fact);
    assert_eq!(event().kind_tag(), "ToolCall");
    assert_eq!(event().authorized_by(), None);
}

#[test]
fn errors_tell_what_happened() {
    assert_eq!(HiveError::NotFound("event 9".into()).to_string(), "not found: event 9");
    assert_eq!(HiveError::InvalidInput("x".into()).to_string(), "invalid input: x");
    assert_eq!(HiveError::Json("x".into()).to_string(), "json error: x");
}

#[test]
fn text_is_measured_and_joined() {
    assert_eq!(u64_text(0), "0");
    assert_eq!(u64_text(u64::MAX), "18446744073709551615");
    assert_eq!(char_count("año"), 3);
    assert_eq!(join_all(&vec!["a".into(), "b".into(), "".into()], ", "), "a, b, ");
    assert_eq!(join_all(&vec![], ", "), "");
    for code in 0..=0x3100u32 {
        if let Some(c) = char::from_u32(code) {
            assert_eq!(is_blank(&c.to_string()), c.is_whitespace(), "{code:x}");
        }
    }
    assert!(is_blank(""));
    assert!(!is_blank(" x "));
}

#[test]
fn bit_patterns_are_ordered_like_numbers() {
    let samples = [
        f32::NEG_INFINITY,
        -1.5,
        -f32::MIN_POSITIVE,
        -0.0,
        0.0,
        1e-40,
        0.3,
        1.0,
        f32::MAX,
        f32::INFINITY,
        f32::NAN,
        -f32::NAN,
    ];
    for a in samples {
        assert_eq!(is_nan(a.to_bits()), a.is_nan());
        assert_eq!(is_finite(a.to_bits()), a.is_finite());
        assert_eq!(is_zero(a.to_bits()), a == 0.0);
        for b in samples {
            assert_eq!(is_below(a.to_bits(), b.to_bits()), a < b, "{a} < {b}");
            assert_eq!(reaches(a.to_bits(), b.to_bits()), a >= b, "{a} >= {b}");
            let (a, b) = (f64::from(a), f64::from(b));
            assert_eq!(double_at_least(a.to_bits(), b.to_bits()), a >= b, "{a} >= {b}");
        }
    }
}

#[test]
fn maps_keep_their_keys_in_order() {
    let mut map: SortedMap<String, u64> = SortedMap::new();
    for (key, value) in [("b", 2), ("a", 1), ("c", 3), ("b", 20)] {
        map.insert(key.to_string(), value);
    }
    assert_eq!(map.len(), 3);
    assert_eq!(map.get(&"b".to_string()), Some(&20));
    assert_eq!(map.key_at(0), "a");
    assert_eq!(map.remove(&"a".to_string()), Some(1));
    assert_eq!(map.remove(&"a".to_string()), None);
    assert!(!map.contains_key(&"a".to_string()));
}

#[test]
fn json_strings_are_escaped() {
    let shown = |text: &str| Json::String(text.to_string()).to_text();
    assert_eq!(shown(""), r#""""#);
    assert_eq!(shown("a\"b\\c/d"), r#""a\"b\\c/d""#);
    assert_eq!(shown("\u{8}\t\n\u{c}\r"), r#""\b\t\n\f\r""#);
    assert_eq!(shown("\0\u{b}\u{1f}"), r#""\u0000\u000b\u001f""#);
    assert_eq!(shown("\u{7f}é—🐝"), "\"\u{7f}é—🐝\"");
    for code in 0..0x3000 {
        let text = char::from_u32(code).unwrap().to_string();
        assert_eq!(shown(&text), serde_json::to_string(&text).unwrap());
        assert_eq!(json(&shown(&text)), Json::String(text));
    }
}

#[test]
fn nesting_is_measured() {
    let mut value = json("1");
    assert!(value.is_within(0));
    for depth in 1..200 {
        value = if depth % 2 == 0 {
            Json::Array(vec![Json::Null, value])
        } else {
            Json::Object(vec![("k".into(), value)])
        };
        assert!(value.is_within(depth));
        assert!(!value.is_within(depth - 1));
    }
}

#[test]
fn numbers_are_brought_between_zero_and_one() {
    let unit = |x: f32| f32::from_bits(clamp_to_unit(x.to_bits()));
    for x in [0.0, 0.25, 1.0] {
        assert_eq!(unit(x), x);
    }
    assert_eq!(unit(-0.5), 0.0);
    assert_eq!(unit(1.5), 1.0);
    assert_eq!(unit(f32::INFINITY), 1.0);
    assert_eq!(unit(f32::NEG_INFINITY), 0.0);
    assert_eq!(unit(f32::NAN), 0.0);
    assert_eq!(clamp_to_unit((-0.0f32).to_bits()), 0);
}
