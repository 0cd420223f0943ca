//! Working memory: values that expire, apart from the log.

use hivedb::clock::MockClock;
use hivedb::db::HiveDB;
use hivedb::event::AgentId;
use hivedb::json::{parse_json, Json};
use hivedb::memory::working::WorkingMemory;

fn json(text: &str) -> Json {
    parse_json(text).unwrap()
}

fn db() -> HiveDB<MockClock> {
    HiveDB::open_temp_with_clock(MockClock::at(0)).unwrap()
}

#[test]
fn working_memory_expires_and_is_not_logged() {
    let mut db = db();
    db.working_set("A", "draft", json(r#"{"text": "hello"}"#), Some(50), 1_000);

    assert!(db.working_get("A", "draft", 1_000).is_some());
    assert_eq!(db.log_len().unwrap(), 0);

    assert!(db.working_get("A", "draft", 1_080).is_none());
    assert_eq!(db.log_len().unwrap(), 0);
}

#[test]
fn working_memory_keys_are_isolated_by_agent() {
    let mut db = db();
    db.working_set("A", "k1", json("1"), None, 0);
    db.working_set("B", "k1", json("2"), None, 0);

    assert_eq!(db.working_keys("A", 0), vec!["k1".to_string()]);
    assert_eq!(db.working_keys("B", 0), vec!["k1".to_string()]);
    assert_eq!(db.working_get("A", "k1", 0), Some(json("1")));
    assert_eq!(db.working_get("B", "k1", 0), Some(json("2")));
}

#[test]
fn working_memory_holds_many_keys() {
    let mut memory = WorkingMemory::new();
    for i in 0..16 {
        for j in 0..100 {
            let key = format!("k{i}-{j}");
            memory.set(AgentId::from("A"), key, json(r#"{"msg": "hello"}"#), Some(10_000), 5);
        }
    }
    assert_eq!(memory.keys(&AgentId::from("A"), 5).len(), 16 * 100);
    assert!(memory.keys(&AgentId::from("B"), 5).is_empty());
}

#[test]
fn the_last_value_stands() {
    let mut memory = WorkingMemory::new();
    let agent = AgentId::from("A");
    memory.set(agent.clone(), "k".to_string(), json("1"), Some(10), 0);
    memory.set(agent.clone(), "k".to_string(), json("2"), None, 0);
    assert_eq!(memory.get(&agent, "k", 1_000_000), Some(json("2")));
    assert_eq!(memory.get(&agent, "missing", 0), None);
}

#[test]
fn values_live_their_time() {
    let mut memory = WorkingMemory::new();
    let agent = AgentId::from("A");
    memory.set(agent.clone(), "k".to_string(), json("true"), Some(10), 100);
    assert_eq!(memory.get(&agent, "k", 110), Some(json("true")));
    assert_eq!(memory.keys(&agent, 110), vec!["k".to_string()]);
    assert!(memory.keys(&agent, 111).is_empty());
    assert_eq!(memory.get(&agent, "k", 111), None);
    // An expired value is gone for good.
    assert_eq!(memory.get(&agent, "k", 100), None);
}

#[test]
fn values_survive_what_is_stored_beside_them() {
    let mut memory = WorkingMemory::new();
    let a = AgentId::from("A");
    memory.set(a.clone(), "k".into(), json("1"), Some(10), 100);
    for n in 0..5 {
        memory.set(a.clone(), format!("other-{n}"), json("2"), Some(1), 100);
        memory.set(AgentId::from("B"), "k".into(), json("3"), None, 100);
        assert_eq!(memory.get(&a, &format!("other-{n}"), 105), None);
    }
    assert_eq!(memory.get(&a, "k", 110), Some(json("1")));
    assert_eq!(memory.get(&a, "k", 111), None);
    memory.set(a.clone(), "other-9".into(), json("2"), None, 111);
    assert_eq!(memory.get(&a, "k", 112), None);
    assert_eq!(memory.get(&AgentId::from("B"), "k", 112), Some(json("3")));
}

#[test]
fn listing_prunes_the_expired_values_of_the_agent() {
    let mut memory = WorkingMemory::new();
    let (a, b) = (AgentId::from("A"), AgentId::from("B"));
    memory.set(a.clone(), "short".to_string(), json("1"), Some(10), 0);
    memory.set(a.clone(), "long".to_string(), json("2"), Some(100), 0);
    memory.set(b.clone(), "short".to_string(), json("3"), Some(10), 0);

    assert_eq!(memory.keys(&a, 11), vec!["long".to_string()]);
    // The pruned value is gone even for a reader whose clock lags behind.
    assert_eq!(memory.get(&a, "short", 5), None);
    assert_eq!(memory.get(&a, "long", 5), Some(json("2")));
    assert_eq!(memory.get(&b, "short", 5), Some(json("3")));
}
