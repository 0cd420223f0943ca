//! Projections: task states, tool statistics and their reconstruction from the log.

use hivedb::clock::MockClock;
use hivedb::db::HiveDB;
use hivedb::event::{AgentId, EventInput, EventKind, StreamId};
use hivedb::json::{parse_json, Json};
use hivedb::projection::{replay, Projection, ProjectionExt, ProjectionScope};
use hivedb::state::causal_thread::{parse_tool_outcome, CausalThreadProjection, ToolOutcome};
use hivedb::state::consent_graph::ConsentGraph;
use hivedb::state::current_facts::CurrentFacts;
use hivedb::state::task_state::{TaskState, TaskStateState};
use hivedb::state::tool_ledger::{stringify_outcome, ToolLedger, ToolLedgerState, ToolStats};

fn json(text: &str) -> Json {
    parse_json(text).unwrap()
}

fn db() -> HiveDB<MockClock> {
    HiveDB::open_temp_with_clock(MockClock::at(0)).unwrap()
}

fn state_transition(agent: &str, stream: &str, payload: Json) -> EventInput {
    EventInput::new(agent, stream, EventKind::StateTransition).with_payload(payload)
}

fn tool_call(tool: &str, payload: &str) -> EventInput {
    EventInput::new("agent-1", "task-1", EventKind::ToolCall { tool: tool.to_string() })
        .with_payload(json(payload))
}

fn seed_many_events(db: &mut HiveDB<MockClock>, n: usize) {
    for i in 0..n {
        let agent = if i % 2 == 0 { "A" } else { "B" };
        let stream = format!("task-{}", i % 5);
        db.append(state_transition(agent, &stream, json(&format!(r#"{{"step": {i}}}"#)))).unwrap();
    }
}

fn total_cost(stats: &ToolStats) -> f64 {
    stats.costs.iter().map(|cost| cost.text.parse::<f64>().unwrap()).sum()
}

#[test]
fn state_and_log_update_atomically() {
    let mut db = db();
    let seq = db.append(state_transition("A", "task-1", json(r#"{"to": "done"}"#))).unwrap();

    let checkpoint = db.projection_checkpoint::<TaskState>().unwrap();
    assert_eq!(checkpoint, seq);

    let state: TaskStateState = db.project::<TaskState>().unwrap();
    assert_eq!(state.get(&"A".into(), &"task-1".into()), Some(&json(r#"{"to": "done"}"#)));
}

#[test]
fn replay_from_zero_reconstructs_identical_state() {
    let mut db = db();
    seed_many_events(&mut db, 1000);
    let original_state: TaskStateState = db.project::<TaskState>().unwrap();

    db.wipe_projections_and_rebuild().unwrap();

    let reconstructed: TaskStateState = db.project::<TaskState>().unwrap();
    assert_eq!(original_state, reconstructed);
}

#[test]
fn committed_state_matches_manual_replay() {
    let mut db = db();
    seed_many_events(&mut db, 500);

    let state: TaskStateState = db.project::<TaskState>().unwrap();

    let mut replayed = TaskStateState::default();
    for seq in 1..=db.log_len().unwrap() {
        let event = db.read(seq).unwrap();
        TaskState::apply(&mut replayed, &event);
    }

    assert_eq!(state, replayed);
}

#[test]
fn projection_is_deterministic_fold() {
    for cases in 0..32u32 {
        let mut db1 = db();
        let mut db2 = db();
        for i in 0..20u32 {
            let mixed = (cases * 31 + i * 17 + i * i * 7) % 256;
            let agent = format!("agent-{}", mixed % 4);
            let stream = format!("stream-{}", (mixed / 4) % 4);
            let kind =
                if mixed % 3 == 0 { EventKind::Fact } else { EventKind::StateTransition };
            let event = EventInput::new(agent, stream, kind)
                .with_payload(json(&format!(r#"{{"v": {mixed}}}"#)));
            db1.append(event.clone()).unwrap();
            db2.append(event).unwrap();
        }
        assert_eq!(db1.project::<TaskState>().unwrap(), db2.project::<TaskState>().unwrap());
    }
}

#[test]
fn wipe_and_rebuild_is_idempotent() {
    for seed in [1, 2, 7, 50, 99] {
        let mut db = db();
        seed_many_events(&mut db, seed);
        let before: TaskStateState = db.project::<TaskState>().unwrap();

        db.wipe_projections_and_rebuild().unwrap();
        let after: TaskStateState = db.project::<TaskState>().unwrap();

        assert_eq!(before, after);
    }
}

#[test]
fn tool_ledger_aggregates_invocations() {
    let mut db = db();
    db.append(tool_call("search", r#"{"latency_ms": 10, "cost": 0.5, "outcome": "Ok"}"#)).unwrap();
    db.append(tool_call("search", r#"{"latency_ms": 20, "cost": 0.7, "outcome": "Ok"}"#)).unwrap();
    db.append(tool_call("search", r#"{"latency_ms": 5, "cost": 0.2, "outcome": "Ok"}"#)).unwrap();

    let stats = db.tool_stats("search").unwrap().unwrap();
    assert_eq!(stats.invocations, 3);
    assert_eq!(stats.total_latency_ms, 35);
    assert!((total_cost(&stats) - 1.4).abs() < f64::EPSILON);
    assert_eq!(stats.last_outcome.as_deref(), Some("Ok"));
}

#[test]
fn tool_ledger_counts_errors() {
    let mut db = db();
    db.append(tool_call("email", r#"{"latency_ms": 8, "cost": 0.1, "outcome": "Ok"}"#)).unwrap();
    db.append(tool_call(
        "email",
        r#"{"latency_ms": 12, "cost": 0.1, "outcome": {"Err": "smtp rejected"}}"#,
    ))
    .unwrap();
    db.append(tool_call("email", r#"{"latency_ms": 9, "cost": 0.1, "outcome": "Ok"}"#)).unwrap();

    let stats = db.tool_stats("email").unwrap().unwrap();
    assert_eq!(stats.invocations, 3);
    assert_eq!(stats.errors, 1);
    assert_eq!(stats.last_outcome.as_deref(), Some("Ok"));
}

#[test]
fn tool_ledger_counts_timeout_as_error() {
    let mut db = db();
    db.append(tool_call("email", r#"{"latency_ms": 30000, "cost": 0.1, "outcome": "Timeout"}"#))
        .unwrap();

    let stats = db.tool_stats("email").unwrap().unwrap();
    assert_eq!(stats.invocations, 1);
    assert_eq!(stats.errors, 1);
    assert_eq!(stats.last_outcome.as_deref(), Some("Timeout"));
}

#[test]
fn tool_ledger_survives_projection_wipe_and_replay() {
    let mut db = db();
    db.append(tool_call("parser", r#"{"latency_ms": 30, "cost": 0.05, "outcome": "Ok"}"#)).unwrap();

    let before = db.project::<ToolLedger>().unwrap();
    assert_eq!(before.get("parser").unwrap().invocations, 1);

    db.wipe_projections_and_rebuild().unwrap();

    let after = db.project::<ToolLedger>().unwrap();
    assert_eq!(after.get("parser").unwrap().invocations, 1);
    assert_eq!(after.get("parser").unwrap().total_latency_ms, 30);
    assert!((total_cost(after.get("parser").unwrap()) - 0.05).abs() < f64::EPSILON);
}

#[test]
fn tool_ledger_and_causal_thread_agree_on_failures() {
    let mut db = db();
    db.append(tool_call("deploy", r#"{"outcome": {"Err": "rollback triggered"}}"#)).unwrap();
    db.append(tool_call("deploy", r#"{"outcome": "Timeout"}"#)).unwrap();

    let stats = db.tool_stats("deploy").unwrap().unwrap();
    assert_eq!(stats.invocations, 2);
    assert_eq!(stats.errors, 2, "ToolLedger must count both failures");

    let thread = db.causal_thread("task-1").unwrap();
    let failures_in_thread =
        thread.tool_calls.iter().filter(|t| !matches!(t.outcome, ToolOutcome::Succeeded)).count();
    assert_eq!(failures_in_thread, 2, "CausalThread must see the same two calls as failures");
}

#[test]
fn outcomes_are_read_off_the_payload() {
    assert_eq!(parse_tool_outcome(&json(r#"{"outcome": "Ok"}"#)), ToolOutcome::Succeeded);
    assert_eq!(parse_tool_outcome(&json(r#"{"outcome": "Timeout"}"#)), ToolOutcome::Timeout);
    assert_eq!(
        parse_tool_outcome(&json(r#"{"outcome": {"Err": "boom"}}"#)),
        ToolOutcome::Failed("boom".to_string())
    );
    assert_eq!(parse_tool_outcome(&json("{}")), ToolOutcome::Succeeded);
    assert_eq!(stringify_outcome(&ToolOutcome::Succeeded), "Ok");
    assert_eq!(stringify_outcome(&ToolOutcome::Timeout), "Timeout");
    assert_eq!(stringify_outcome(&ToolOutcome::Failed("boom".to_string())), "Err: boom");
}

#[test]
fn projections_have_names_and_scopes() {
    assert_eq!(CurrentFacts::name(), "CurrentFacts");
    assert_eq!(TaskState::name(), "TaskState");
    assert_eq!(ToolLedger::name(), "ToolLedger");
    assert_eq!(ConsentGraph::name(), "ConsentGraph");
    assert_eq!(TaskState::scope(), ProjectionScope::Agent);
    assert_eq!(CurrentFacts::scope(), ProjectionScope::Agent);
    assert_eq!(ToolLedger::scope(), ProjectionScope::Agent);
    assert_eq!(ConsentGraph::scope(), ProjectionScope::Global);
    assert_eq!(CausalThreadProjection::scope(), ProjectionScope::Agent);
}

#[test]
fn folding_resumes_where_it_stopped() {
    let mut db = db();
    seed_many_events(&mut db, 6);
    let events: Vec<_> = (1..=6).map(|seq| db.read(seq).unwrap()).collect();

    let mut whole = TaskState::initial_state();
    replay::<TaskState>(&mut whole, &events, 0);

    let mut parts = TaskState::initial_state();
    replay::<TaskState>(&mut parts, &events[..4].to_vec(), 0);
    replay::<TaskState>(&mut parts, &events, 4);
    assert_eq!(whole, parts);
}

#[test]
fn ledgers_merge_by_tool() {
    let mut db = db();
    db.append(tool_call("search", r#"{"latency_ms": 10, "cost": 1, "outcome": "Timeout"}"#))
        .unwrap();
    db.append(tool_call("search", r#"{"latency_ms": 5, "outcome": "Ok"}"#)).unwrap();
    db.append(tool_call("other", r#"{"latency_ms": 7, "outcome": "Ok"}"#)).unwrap();
    let events: Vec<_> = (1..=3).map(|seq| db.read(seq).unwrap()).collect();

    let mut first = ToolLedgerState::default();
    ToolLedger::apply(&mut first, &events[0]);
    let mut second = ToolLedgerState::default();
    ToolLedger::apply(&mut second, &events[1]);
    ToolLedger::apply(&mut second, &events[2]);

    ToolLedger::merge(&mut first, &second);
    let search = first.get("search").unwrap();
    assert_eq!(search.invocations, 2);
    assert_eq!(search.errors, 1);
    assert_eq!(search.total_latency_ms, 15);
    assert_eq!(search.last_seq, 2);
    assert_eq!(search.last_outcome.as_deref(), Some("Ok"));
    assert_eq!(first.iter().len(), 2);
}

#[test]
fn facts_are_valid_until_corrected() {
    let mut db = db();
    let fact = |agent: &str, stream: &str| EventInput::new(agent, stream, EventKind::Fact);
    let one = db.append(fact("A", "s")).unwrap();
    let two = db.append(fact("A", "s")).unwrap();
    let other = db.append(fact("B", "s")).unwrap();
    let facts = db.project::<CurrentFacts>().unwrap();
    assert_eq!(facts.valid_facts(&AgentId::from("A"), &StreamId::from("s")), vec![one, two]);

    db.append(EventInput::new("A", "x", EventKind::MemoryInvalidate { target_seq: one })).unwrap();
    let facts = db.project::<CurrentFacts>().unwrap();
    assert_eq!(facts.valid_facts(&AgentId::from("A"), &StreamId::from("s")), vec![two]);
    assert!(facts.contains(two) && facts.contains(other) && !facts.contains(one));
}

#[test]
fn agents_do_not_see_each_other_through_projections() {
    let mut db = db();
    db.append(state_transition("A", "t", json("1"))).unwrap();
    let before = db.project_for_agents::<TaskState>(&vec![AgentId::from("A")]).unwrap();
    db.append(state_transition("B", "t", json("2"))).unwrap();
    let after = db.project_for_agents::<TaskState>(&vec![AgentId::from("A")]).unwrap();
    assert_eq!(before, after);
    assert_eq!(after.get(&"B".into(), &"t".into()), None);
}

#[test]
fn the_last_stated_outcome_survives_any_merge_order() {
    let mut db = db();
    let call = |payload: &str| tool_call("t", payload);
    for payload in ["{}", r#"{"outcome": "Timeout"}"#, r#"{"outcome": "Ok"}"#, "{}", "{}"] {
        db.append(call(payload)).unwrap();
    }
    let part = |seqs: &[u64]| {
        let mut state = ToolLedgerState::default();
        for seq in seqs {
            ToolLedger::apply(&mut state, &db.read(*seq).unwrap());
        }
        state
    };
    // The call at 5 states no outcome; the last one that was stated is that of 3.
    let parts = [part(&[5]), part(&[3]), part(&[2, 4])];
    for order in [[0, 1, 2], [0, 2, 1], [1, 0, 2], [1, 2, 0], [2, 0, 1], [2, 1, 0]] {
        let mut whole = ToolLedgerState::default();
        for i in order {
            ToolLedger::merge(&mut whole, &parts[i]);
        }
        let stats = whole.get("t").unwrap();
        assert_eq!((stats.invocations, stats.errors, stats.last_seq), (4, 1, 5));
        assert_eq!(stats.last_outcome.as_deref(), Some("Ok"));
        assert_eq!(stats.outcome_seq, 3);
    }
}

#[test]
fn facts_are_voided_by_whichever_agent() {
    let mut db = db();
    let fact = db.append(EventInput::new("A", "s1", EventKind::Fact)).unwrap();
    db.append(EventInput::new("B", "s1", EventKind::MemoryInvalidate { target_seq: fact })).unwrap();
    assert!(!db.project::<CurrentFacts>().unwrap().contains(fact));

    // An agent that is not listed voids nothing.
    let a = vec![AgentId::from("A")];
    assert!(db.project_for_agents::<CurrentFacts>(&a).unwrap().contains(fact));
    let both = vec![AgentId::from("B"), AgentId::from("A"), AgentId::from("B")];
    assert!(!db.project_for_agents::<CurrentFacts>(&both).unwrap().contains(fact));

    // A correction voids what was there, not what comes later under the number.
    db.append(EventInput::new("B", "s1", EventKind::MemoryInvalidate { target_seq: 4 })).unwrap();
    let later = db.append(EventInput::new("A", "s1", EventKind::Fact)).unwrap();
    assert_eq!(later, 4);
    assert!(db.project::<CurrentFacts>().unwrap().contains(later));
}

#[test]
fn checkpoints_do_not_lag_behind_a_second_agent() {
    let mut db = db();
    assert_eq!(db.projection_checkpoint::<TaskState>().unwrap(), 0);
    assert_eq!(db.append(state_transition("A", "task-1", json("1"))).unwrap(), 1);
    assert_eq!(db.append(state_transition("B", "task-1", json("2"))).unwrap(), 2);
    assert_eq!(db.projection_checkpoint::<TaskState>().unwrap(), 2);
    assert_eq!(db.projection_checkpoint::<ToolLedger>().unwrap(), 2);
    assert_eq!(db.projection_checkpoint::<CurrentFacts>().unwrap(), 2);
    assert_eq!(db.append(state_transition("A", "task-1", json("3"))).unwrap(), 3);
    assert_eq!(db.projection_checkpoint::<TaskState>().unwrap(), 3);
}

#[test]
fn shards_combined_are_the_log_replayed() {
    let mut db = db();
    for (agent, payload) in [
        ("A", r#"{"outcome": "Timeout", "cost": 1}"#),
        ("B", r#"{"outcome": "Ok", "cost": 2}"#),
        ("A", r#"{"latency_ms": 4, "cost": 3}"#),
    ] {
        let mut input = tool_call("t", payload);
        input.agent_id = AgentId::from(agent);
        db.append(input).unwrap();
    }
    let events: Vec<_> = (1..=3).map(|seq| db.read(seq).unwrap()).collect();
    let mut whole = ToolLedgerState::default();
    replay::<ToolLedger>(&mut whole, &events, 0);
    let replayed = whole.get("t").unwrap();
    let combined = db.tool_stats("t").unwrap().unwrap();
    assert_eq!(combined.last_outcome, replayed.last_outcome);
    assert_eq!(combined.last_outcome.as_deref(), Some("Ok"));
    assert_eq!(combined.last_seq, replayed.last_seq);
    assert_eq!((combined.invocations, combined.errors), (3, 1));
    assert_eq!(total_cost(&combined), total_cost(replayed));
}
