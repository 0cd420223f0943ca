//! Subscriptions: which events reach which subscriber.

use hivedb::clock::MockClock;
use hivedb::db::HiveDB;
use hivedb::event::{AgentId, Event, EventInput, EventKind, EventKindTag, StreamId};
use hivedb::json::{parse_json, Json};
use hivedb::reactive::{EventPattern, Predicate, ReactiveEngine};

fn json(text: &str) -> Json {
    parse_json(text).unwrap()
}

fn db() -> HiveDB<MockClock> {
    HiveDB::open_temp_with_clock(MockClock::at(0)).unwrap()
}

fn fact(payload: &str) -> EventInput {
    EventInput::new("A", "task-1", EventKind::Fact).with_payload(json(payload))
}

fn tool_call(tool: &str) -> EventInput {
    EventInput::new("A", "task-1", EventKind::ToolCall { tool: tool.to_string() })
        .with_payload(json(r#"{"msg": "hello"}"#))
}

fn delivered(db: &mut HiveDB<MockClock>, id: u64) -> Vec<Event> {
    db.take_outbox().into_iter().filter(|(to, _)| *to == id).map(|(_, event)| event).collect()
}

#[test]
fn subscription_is_pushed_on_append() {
    let mut db = db();
    let sub =
        db.subscribe(EventPattern { kind: Some(EventKindTag::ToolCall), ..Default::default() });

    db.append(tool_call("web_search")).unwrap();

    let events = delivered(&mut db, sub);
    assert_eq!(events.len(), 1);
    assert_eq!(events[0].kind_tag(), "ToolCall");
}

#[test]
fn subscription_delivers_at_least_once_with_seq() {
    let mut db = db();
    let sub = db.subscribe(EventPattern::all());

    let seq = db.append(fact(r#"{"msg": "hello"}"#)).unwrap();

    let events = delivered(&mut db, sub);
    assert_eq!(events.len(), 1);
    assert_eq!(events[0].seq, seq);
}

#[test]
fn subscription_filters_by_payload_equality() {
    let mut db = db();
    let sub = db.subscribe(EventPattern {
        kind: Some(EventKindTag::Fact),
        predicate: Some(Predicate::Eq { path: "/temperature".to_string(), value: json("21.5") }),
        ..Default::default()
    });

    db.append(fact(r#"{"temperature": 22.0, "room": "B"}"#)).unwrap();
    db.append(fact(r#"{"temperature": 21.5, "room": "A"}"#)).unwrap();

    let events = delivered(&mut db, sub);
    assert_eq!(events.len(), 1, "non-matching event must not be delivered");
    assert_eq!(events[0].payload.get("temperature"), Some(&json("21.5")));
    assert_eq!(events[0].payload.get("room"), Some(&json(r#""A""#)));
}

#[test]
fn subscription_filters_by_payload_contains() {
    let mut db = db();
    let sub = db.subscribe(EventPattern {
        kind: Some(EventKindTag::Fact),
        predicate: Some(Predicate::Contains {
            path: "/tags".to_string(),
            value: json(r#""urgent""#),
        }),
        ..Default::default()
    });

    db.append(fact(r#"{"tags": ["home"], "room": "B"}"#)).unwrap();
    db.append(fact(r#"{"tags": ["urgent", "home"], "room": "A"}"#)).unwrap();

    let events = delivered(&mut db, sub);
    assert_eq!(events.len(), 1, "non-matching event must not be delivered");
    assert_eq!(events[0].payload.get("room"), Some(&json(r#""A""#)));
}

#[test]
fn cancelled_subscriptions_get_nothing() {
    let mut db = db();
    let first = db.subscribe(EventPattern::all());
    let second = db.subscribe(EventPattern::all());
    assert_ne!(first, second);
    db.cancel(first);
    db.append(fact("{}")).unwrap();
    let outbox = db.take_outbox();
    assert_eq!(outbox.iter().map(|(id, _)| *id).collect::<Vec<_>>(), vec![second]);
    assert!(db.take_outbox().is_empty());
}

#[test]
fn every_part_of_a_pattern_must_hold() {
    let mut db = db();
    db.append(fact(r#"{"a": {"b": "needle in hay"}}"#)).unwrap();
    let event = db.read(1).unwrap();
    let pattern = |change: &dyn Fn(&mut EventPattern)| {
        let mut pattern = EventPattern::all();
        change(&mut pattern);
        hivedb::reactive::matches(&pattern, &event)
    };
    assert!(pattern(&|_| ()));
    assert!(pattern(&|p| p.agent_id = Some(AgentId::from("A"))));
    assert!(!pattern(&|p| p.agent_id = Some(AgentId::from("B"))));
    assert!(pattern(&|p| p.stream_id = Some(StreamId::from("task-1"))));
    assert!(!pattern(&|p| p.stream_id = Some(StreamId::from("task-2"))));
    assert!(!pattern(&|p| p.kind = Some(EventKindTag::ToolCall)));
    assert!(pattern(&|p| p.predicate = Some(Predicate::Always)));
    let contains = |path: &str, value: &str| {
        Some(Predicate::Contains { path: path.to_string(), value: json(value) })
    };
    assert!(pattern(&|p| p.predicate = contains("/a/b", r#""needle""#)));
    assert!(!pattern(&|p| p.predicate = contains("/a/b", r#""pin""#)));
    assert!(!pattern(&|p| p.predicate = contains("/a/c", r#""needle""#)));
}

#[test]
fn the_engine_addresses_matching_subscribers() {
    let mut db = db();
    db.append(tool_call("x")).unwrap();
    let event = db.read(1).unwrap();
    let mut engine = ReactiveEngine::new();
    let all = engine.subscribe(EventPattern::all());
    let facts =
        engine.subscribe(EventPattern { kind: Some(EventKindTag::Fact), ..Default::default() });
    assert_eq!(engine.dispatch(&event), vec![all]);
    engine.cancel(all);
    engine.cancel(facts);
    assert!(engine.dispatch(&event).is_empty());
}
