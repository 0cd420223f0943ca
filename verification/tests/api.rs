//! What comes in from callers that speak JSON, and what goes out to them.

use hivedb::api::{
    decision_to_js, doc_entry_to_js, event_to_js, js_to_col_ops, js_to_event_input,
    js_to_event_pattern, js_to_hybrid_query, js_to_index_doc, js_to_put_options,
    js_to_scalar_filter, js_to_scan_options, js_to_seq, js_to_ttl, parse_json_doc, parse_payload,
    to_signed, to_unsigned, JsColOp, JsEventInput, JsEventPattern, JsFieldBoosts, JsFusion,
    JsHybridQuery, JsIndexDoc, JsPredicate, JsScalarFilter, JsScanOptions,
};
use hivedb::clock::MockClock;
use hivedb::collections::{ColOp, PutOptions};
use hivedb::db::HiveDB;
use hivedb::event::{AgentId, EventInput, EventKind, EventKindTag, Scope, StreamId};
use hivedb::index::types::{Fusion, ScalarFilter};
use hivedb::json::{parse_json, Json};
use hivedb::reactive::Predicate;

fn json(text: &str) -> Json {
    parse_json(text).unwrap()
}

fn db() -> HiveDB<MockClock> {
    HiveDB::open_temp_with_clock(MockClock::at(77)).unwrap()
}

fn event(kind: &str, payload: &str) -> JsEventInput {
    JsEventInput {
        agent_id: "A".into(),
        stream_id: "s".into(),
        kind: kind.into(),
        payload: payload.into(),
        causation: None,
        correlation: None,
    }
}

fn kind_of(kind: &str, payload: &str) -> Result<EventKind, String> {
    js_to_event_input(event(kind, payload)).map(|input| input.kind)
}

#[test]
fn every_kind_of_event_comes_in() {
    assert_eq!(kind_of("Fact", "{}"), Ok(EventKind::Fact));
    assert_eq!(kind_of("StateTransition", "null"), Ok(EventKind::StateTransition));
    assert_eq!(kind_of("LearningProposal", "1"), Ok(EventKind::LearningProposal));
    assert_eq!(
        kind_of("MemoryInvalidate", r#"{"target_seq": 4}"#),
        Ok(EventKind::MemoryInvalidate { target_seq: 4 })
    );
    assert_eq!(
        kind_of("ToolCall", r#"{"tool": "search"}"#),
        Ok(EventKind::ToolCall { tool: "search".into() })
    );
    assert_eq!(
        kind_of(
            "ConsentGranted",
            r#"{"from": "PM", "to": "B", "action": "deploy", "resource": "prod", "expires": 9}"#
        ),
        Ok(EventKind::ConsentGranted {
            from: AgentId::from("PM"),
            to: AgentId::from("B"),
            scope: Scope::new("deploy", "prod"),
            expires: Some(9),
        })
    );
    assert_eq!(
        kind_of("ConsentRevoked", r#"{"grant_seq": 1}"#),
        Ok(EventKind::ConsentRevoked { grant_seq: 1 })
    );
    assert_eq!(
        kind_of("IntentLogged", r#"{"actor": "B", "intent": "deploy:prod"}"#),
        Ok(EventKind::IntentLogged {
            actor: AgentId::from("B"),
            intent: "deploy:prod".into(),
            authorized_by: None,
        })
    );
}

#[test]
fn missing_fields_are_named() {
    let error = |kind: &str, payload: &str| kind_of(kind, payload).unwrap_err();
    assert_eq!(
        error("MemoryInvalidate", r#"{"target_seq": -4}"#),
        "MemoryInvalidate requires payload.target_seq"
    );
    assert_eq!(error("ToolCall", r#"{"tool": 5}"#), "ToolCall requires payload.tool");
    assert_eq!(error("ConsentGranted", "{}"), "ConsentGranted requires payload.from");
    assert_eq!(
        error("ConsentGranted", r#"{"from": "a"}"#),
        "ConsentGranted requires payload.to"
    );
    assert_eq!(
        error("ConsentGranted", r#"{"from": "a", "to": "b"}"#),
        "ConsentGranted requires payload.action"
    );
    assert_eq!(
        error("ConsentGranted", r#"{"from": "a", "to": "b", "action": "c"}"#),
        "ConsentGranted requires payload.resource"
    );
    assert_eq!(error("ConsentRevoked", "[]"), "ConsentRevoked requires payload.grant_seq");
    assert_eq!(error("IntentLogged", "{}"), "IntentLogged requires payload.actor");
    assert_eq!(
        error("IntentLogged", r#"{"actor": "a"}"#),
        "IntentLogged requires payload.intent"
    );
    assert_eq!(error("Rumour", "{}"), "unknown event kind: Rumour");
    assert!(error("Fact", "{").starts_with("invalid payload: "));
    assert!(parse_payload("nope").unwrap_err().starts_with("invalid payload: "));
    assert!(parse_json_doc("nope").unwrap_err().starts_with("invalid document JSON: "));
    assert_eq!(parse_json_doc("[1]"), Ok(json("[1]")));
}

#[test]
fn correlations_are_uuids() {
    let text = "67e55044-10b1-426f-9247-bb680e5fe0c8";
    let mut input = event("Fact", r#"{"b": 1, "a": [true, null]}"#);
    input.correlation = Some(text.to_uppercase());
    input.causation = Some(3);
    let input = js_to_event_input(input).unwrap();
    assert_eq!(input.correlation, Some(0x67e55044_10b1_426f_9247_bb680e5fe0c8));
    assert_eq!(input.causation, Some(3));

    let mut db = db();
    let seq = db.append(input).unwrap();
    let out = event_to_js(&db.read(seq).unwrap());
    assert_eq!(out.seq, 1);
    assert_eq!(out.agent_id, "A");
    assert_eq!(out.stream_id, "s");
    assert_eq!(out.kind_tag, "Fact");
    assert_eq!(out.timestamp, 77);
    assert_eq!(out.causation, Some(3));
    assert_eq!(out.correlation.as_deref(), Some(text));
    assert_eq!(out.payload, r#"{"a":[true,null],"b":1}"#);

    let mut bad = event("Fact", "{}");
    bad.correlation = Some("not-a-uuid".into());
    assert!(js_to_event_input(bad).unwrap_err().starts_with("invalid correlation UUID: "));
}

#[test]
fn numbers_keep_their_bits() {
    for value in [0u64, 1, i64::MAX as u64, i64::MAX as u64 + 1, u64::MAX] {
        assert_eq!(to_signed(value), value as i64);
        assert_eq!(to_unsigned(to_signed(value)), value);
    }
    assert_eq!(to_unsigned(-1), u64::MAX);
    assert_eq!(to_unsigned(i64::MIN), 1 << 63);
    assert_eq!(js_to_seq(5), Ok(5));
    assert_eq!(js_to_seq(-5), Err("seq must be non-negative".to_string()));
    assert_eq!(js_to_ttl(None), None);
    assert_eq!(js_to_ttl(Some(-3)), Some(0));
    assert_eq!(js_to_ttl(Some(250)), Some(250));
}

#[test]
fn decisions_go_out() {
    let mut db = db();
    let grant = EventInput::new(
        "PM",
        "consent",
        EventKind::ConsentGranted {
            from: AgentId::from("PM"),
            to: AgentId::from("B"),
            scope: Scope::new("deploy", "prod"),
            expires: None,
        },
    );
    db.append(grant).unwrap();
    let yes = decision_to_js(&db.can("B", "deploy", "prod").unwrap());
    assert!(yes.allowed);
    assert_eq!(yes.intent_log_seq, Some(2));
    assert!(!decision_to_js(&db.can("C", "deploy", "prod").unwrap()).allowed);
}

#[test]
fn queries_come_in() {
    let one = 1.0f32.to_bits();
    let query = |fusion: Option<JsFusion>, boosts: Option<JsFieldBoosts>| JsHybridQuery {
        text: Some("x".into()),
        vector: Some(vec![one]),
        k: 5,
        filters: Some(vec![JsScalarFilter { field: "f".into(), value: "v".into() }]),
        fusion,
        boosts,
    };
    let plain = js_to_hybrid_query(query(None, None)).unwrap();
    assert_eq!(plain.text.as_deref(), Some("x"));
    assert_eq!(plain.vector, Some(vec![one]));
    assert_eq!(plain.k, 5);
    assert_eq!(plain.filters, vec![ScalarFilter::eq("f", "v")]);
    assert_eq!(plain.fusion, Fusion::Rrf { k: 60 });
    assert!(plain.boosts.is_none());

    let boosts = JsFieldBoosts { name: Some(one), body: None, tags: None };
    let fusion = JsFusion { kind: "rrf".into(), k: Some(10) };
    let full = js_to_hybrid_query(query(Some(fusion), Some(boosts))).unwrap();
    assert_eq!(full.fusion, Fusion::Rrf { k: 10 });
    let boosts = full.boosts.unwrap();
    assert_eq!(f32::from_bits(boosts.name), 1.0);
    assert_eq!(f32::from_bits(boosts.body), 2.0);
    assert_eq!(f32::from_bits(boosts.tags), 3.0);

    let fusion = JsFusion { kind: "sum".into(), k: None };
    assert_eq!(
        js_to_hybrid_query(query(Some(fusion), None)).unwrap_err(),
        "unknown fusion kind: sum (only \"rrf\" is supported)"
    );
}

#[test]
fn documents_come_in() {
    let filter = JsScalarFilter { field: "f".into(), value: "v".into() };
    assert_eq!(js_to_scalar_filter(&filter), ScalarFilter::eq("f", "v"));
    let doc = js_to_index_doc(JsIndexDoc {
        id: "d".into(),
        name: Some("n".into()),
        body: None,
        tags: Some("t".into()),
        vector: None,
        filters: None,
    });
    assert_eq!(doc.id, "d");
    assert_eq!(doc.name.as_deref(), Some("n"));
    assert_eq!(doc.body, None);
    assert_eq!(doc.tags.as_deref(), Some("t"));
    assert_eq!(doc.vector, None);
    assert!(doc.filters.is_empty());
}

#[test]
fn patterns_come_in() {
    let pattern = |kind: Option<&str>, predicate: Option<JsPredicate>| JsEventPattern {
        agent_id: Some("A".into()),
        kind: kind.map(String::from),
        stream_id: None,
        predicate,
    };
    let predicate = |kind: &str, path: Option<&str>, value: Option<&str>| JsPredicate {
        kind: kind.into(),
        path: path.map(String::from),
        value: value.map(String::from),
    };
    let found = js_to_event_pattern(pattern(
        Some("ToolCall"),
        Some(predicate("Eq", Some("/a"), Some("1"))),
    ))
    .unwrap();
    assert_eq!(found.agent_id, Some(AgentId::from("A")));
    assert_eq!(found.kind, Some(EventKindTag::ToolCall));
    assert_eq!(found.stream_id, None::<StreamId>);
    assert_eq!(found.predicate, Some(Predicate::Eq { path: "/a".into(), value: json("1") }));

    let error = |kind: Option<&str>, p: Option<JsPredicate>| {
        js_to_event_pattern(pattern(kind, p)).unwrap_err()
    };
    assert_eq!(error(Some("LearningProposal"), None), "unknown kind: LearningProposal");
    assert_eq!(error(None, Some(predicate("Eq", None, None))), "Eq predicate requires path");
    assert_eq!(
        error(None, Some(predicate("Contains", Some("/a"), None))),
        "Contains predicate requires value"
    );
    assert_eq!(
        error(None, Some(predicate("Near", None, None))),
        "unknown predicate kind: Near (expected Eq, Contains or Always)"
    );
    assert!(error(None, Some(predicate("Eq", Some("/a"), Some("{"))))
        .starts_with("invalid payload: "));
    let always = js_to_event_pattern(pattern(None, Some(predicate("Always", None, None))));
    assert_eq!(always.unwrap().predicate, Some(Predicate::Always));
}

#[test]
fn scans_and_puts_come_in() {
    let options = js_to_scan_options(None);
    assert_eq!((options.limit, options.offset, options.reverse), (0, 0, false));
    let options = js_to_scan_options(Some(JsScanOptions {
        prefix: Some("u:".into()),
        start: None,
        limit: Some(3),
        offset: None,
        reverse: Some(true),
    }));
    assert_eq!(options.prefix.as_deref(), Some("u:"));
    assert_eq!((options.limit, options.offset, options.reverse), (3, 0, true));
    assert_eq!(js_to_put_options(Some(2)).expected_version, Some(2));
    assert_eq!(js_to_put_options(None).expected_version, None);
}

#[test]
fn batches_come_in_whole_or_not_at_all() {
    let op = |op: &str, json: Option<&str>| JsColOp {
        op: op.into(),
        collection: "c".into(),
        id: "i".into(),
        json: json.map(String::from),
        expected_version: Some(1),
    };
    let ops = js_to_col_ops(&vec![op("put", Some("{}")), op("delete", None)]).unwrap();
    assert_eq!(ops.len(), 2);
    match &ops[0] {
        ColOp::Put { collection, id, doc, expected_version } => {
            assert_eq!((collection.as_str(), id.as_str()), ("c", "i"));
            assert_eq!(doc, &json("{}"));
            assert_eq!(*expected_version, Some(1));
        },
        other => panic!("a put expected, found {other:?}"),
    }
    assert!(matches!(&ops[1], ColOp::Delete { .. }));
    assert_eq!(
        js_to_col_ops(&vec![op("delete", None), op("put", None), op("?", None)]).unwrap_err(),
        "batch put requires the json field"
    );
    assert_eq!(
        js_to_col_ops(&vec![op("upsert", None)]).unwrap_err(),
        "unknown batch op: upsert (expected \"put\" or \"delete\")"
    );
    assert!(js_to_col_ops(&vec![op("put", Some("{"))])
        .unwrap_err()
        .starts_with("invalid document JSON: "));
}

#[test]
fn stored_documents_go_out() {
    let mut db = db();
    db.col_put("c", "i", &json(r#"{"z": 1.50, "a": "x\n"}"#), PutOptions::default()).unwrap();
    let out = doc_entry_to_js(&db.col_get("c", "i").unwrap().unwrap());
    assert_eq!(out.id, "i");
    assert_eq!(out.version, 1);
    assert_eq!(out.json, r#"{"a":"x\n","z":1.5}"#);
}

#[test]
fn a_grant_states_its_scope_nested_or_flat() {
    let granted = |resource: &str, expires: Option<u64>| {
        Ok(EventKind::ConsentGranted {
            from: AgentId::from("owner"),
            to: AgentId::from("assistant"),
            scope: Scope::new("read", resource),
            expires,
        })
    };
    assert_eq!(
        kind_of(
            "ConsentGranted",
            r#"{"from":"owner","to":"assistant","scope":{"action":"read","resource":"trips/*"}}"#
        ),
        granted("trips/*", None)
    );
    // What the scope does not say is read from the payload itself.
    assert_eq!(
        kind_of(
            "ConsentGranted",
            r#"{"from":"owner","to":"assistant","resource":"trips","expires":5,
                "scope":{"action":"read"},"action":"write"}"#
        ),
        granted("trips", Some(5))
    );
    assert_eq!(
        kind_of("ConsentGranted", r#"{"from":"owner","to":"assistant","scope":{"action":"read"}}"#),
        Err("ConsentGranted requires payload.resource".to_string())
    );
    assert_eq!(
        kind_of("ConsentGranted", r#"{"from":"owner","to":"assistant","scope":"read:trips"}"#),
        Err("ConsentGranted requires payload.action".to_string())
    );
}
