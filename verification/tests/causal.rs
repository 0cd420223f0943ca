//! Causal threads: links between decisions and tool calls, and anomalies.

use hivedb::causal::{AnomalyKind, CausalThread};
use hivedb::clock::MockClock;
use hivedb::collections::Collections;
use hivedb::db::HiveDB;
use hivedb::event::{AgentId, EventInput, EventKind, StreamId};
use hivedb::index::semantic::SemanticIndex;
use hivedb::json::{parse_json, Json};
use hivedb::log::EventLog;
use hivedb::shard::{AgentShard, Materialized};
use hivedb::state::causal_thread::ToolOutcome;
use uuid::Uuid;

fn json(text: &str) -> Json {
    parse_json(text).unwrap()
}

fn open_temp() -> HiveDB<MockClock> {
    HiveDB::open_temp_with_clock(MockClock::at(0)).unwrap()
}

/// The database as it would be found on disk; its projections start from nothing.
fn reopened(db: &HiveDB<MockClock>) -> HiveDB<MockClock> {
    let mut shards = Vec::new();
    for agent in db.log().all_agents() {
        let events = db.log().read_stream(&agent, &StreamId::from("task-1"));
        let shard = AgentShard::open(
            events,
            Materialized::new(),
            Materialized::new(),
            Materialized::new(),
        );
        shards.push((agent, shard));
    }
    let log = EventLog::open(shards, Materialized::new(), db.log().meta());
    let (semantic, _) = SemanticIndex::open(None, vec![], 0).unwrap();
    HiveDB::from_parts(log, Collections::new(), semantic, MockClock::at(0))
}

fn decision(agent: &str, description: &str, caused_by: Option<u64>) -> EventInput {
    let input = EventInput::new(agent, "task-1", EventKind::StateTransition)
        .with_payload(json(&format!(r#"{{ "description": "{description}" }}"#)));
    match caused_by {
        Some(seq) => input.with_causation(seq),
        None => input,
    }
}

fn decision_with_correlation(agent: &str, description: &str, correlation: Uuid) -> EventInput {
    let mut input = decision(agent, description, None);
    input.correlation = Some(correlation.as_u128());
    input
}

fn tool_call_with_outcome(
    agent: &str,
    tool: &str,
    outcome: ToolOutcome,
    caused_by: u64,
) -> EventInput {
    let payload = match outcome {
        ToolOutcome::Succeeded => json(r#"{ "outcome": "Ok" }"#),
        ToolOutcome::Timeout => json(r#"{ "outcome": "Timeout" }"#),
        ToolOutcome::Failed(ref msg) => {
            json(&format!(r#"{{ "outcome": {{ "Err": "{msg}" }} }}"#))
        },
    };
    EventInput::new(agent, "task-1", EventKind::ToolCall { tool: tool.to_string() })
        .with_payload(payload)
        .with_causation(caused_by)
}

fn tool_call_caused_by(agent: &str, tool: &str, caused_by: u64) -> EventInput {
    tool_call_with_outcome(agent, tool, ToolOutcome::Succeeded, caused_by)
}

fn intent_logged(agent: &str, intent: &str) -> EventInput {
    EventInput::new(
        agent,
        "task-1",
        EventKind::IntentLogged {
            actor: AgentId::from(agent),
            intent: intent.to_string(),
            authorized_by: None,
        },
    )
}

fn seed_causal_task(db: &mut HiveDB<MockClock>, n: usize) {
    let intent = db.append(intent_logged("PM", "implementar autenticación")).unwrap();
    let mut last = intent;
    for i in 0..n {
        let d = db.append(decision("Backend", &format!("decision-{i}"), Some(last))).unwrap();
        last = db.append(tool_call_caused_by("Backend", "cargo_build", d)).unwrap();
    }
}

#[test]
fn causal_thread_follows_causation_links() {
    let mut db = open_temp();

    let d1 = db.append(decision("Architect", "usar microservicios", None)).unwrap();
    let t1 = db.append(tool_call_caused_by("Architect", "read_file", d1)).unwrap();
    let d2 = db.append(decision("Backend", "crear servicio de pagos", Some(t1))).unwrap();
    let _t2 = db.append(tool_call_caused_by("Backend", "write_file", d2)).unwrap();

    let thread = db.causal_thread("task-1").unwrap();

    assert_eq!(thread.decisions.len(), 2);
    assert_eq!(thread.tool_calls.len(), 2);
    assert_eq!(thread.decisions[0].caused, vec![t1]);
    assert_eq!(thread.decisions[1].caused_by, Some(t1));
    assert_eq!(thread.tool_calls[1].caused_by, Some(d2));
}

#[test]
fn causal_thread_detects_error_loops() {
    let mut db = open_temp();

    for _ in 0..3 {
        let d = db.append(decision("Backend", "compilar módulo", None)).unwrap();
        db.append(tool_call_with_outcome(
            "Backend",
            "cargo_build",
            ToolOutcome::Failed("E0432".into()),
            d,
        ))
        .unwrap();
    }

    let thread = db.causal_thread("task-1").unwrap();

    assert!(!thread.anomalies.is_empty());
    let anomaly = &thread.anomalies[0];
    assert_eq!(anomaly.kind, AnomalyKind::ErrorLoop);
    assert_eq!(anomaly.repetitions, 3);
    assert_eq!(anomaly.tool, Some("cargo_build".into()));
}

#[test]
fn causal_thread_detects_objective_drift() {
    let mut db = open_temp();

    let intent = db.append(intent_logged("PM", "implementar autenticación")).unwrap();

    let other_corr = Uuid::new_v4();
    for _ in 0..10 {
        db.append(decision_with_correlation("Backend", "refactorizar ORM", other_corr)).unwrap();
    }

    let thread = db.causal_thread("task-1").unwrap();

    let drift = thread.anomalies.iter().find(|a| a.kind == AnomalyKind::ObjectiveDrift);
    assert!(drift.is_some());
    assert_eq!(drift.unwrap().original_intent_seq, Some(intent));
}

#[test]
fn causal_thread_is_deterministic() {
    for case in 0..16u32 {
        let mut db1 = open_temp();
        let mut db2 = open_temp();
        for i in 0..20u32 {
            let mixed = case * 37 + i * 11 + i * i;
            let agent = format!("agent-{}", mixed % 4);
            let event = if mixed % 2 == 0 {
                decision(&agent, "arb-decision", None)
            } else {
                let outcome = if mixed % 3 == 0 {
                    ToolOutcome::Failed("E0001".into())
                } else {
                    ToolOutcome::Succeeded
                };
                tool_call_with_outcome(&agent, "arb-tool", outcome, 0)
            };
            db1.append(event.clone()).unwrap();
            db2.append(event).unwrap();
        }
        assert_eq!(db1.causal_thread("task-1").unwrap(), db2.causal_thread("task-1").unwrap());
    }
}

#[test]
fn causal_thread_survives_projection_wipe_and_replay() {
    let mut db = open_temp();
    seed_causal_task(&mut db, 50);
    let original_thread = db.causal_thread("task-1").unwrap();

    let mut db = reopened(&db);
    db.wipe_projections_and_rebuild().unwrap();
    let replayed = db.causal_thread("task-1").unwrap();
    assert_eq!(original_thread, replayed);
}

#[test]
fn fewer_repetitions_are_no_anomaly() {
    let mut db = open_temp();
    let d = db.append(decision("Backend", "compilar", None)).unwrap();
    for outcome in ["a", "b", ""] {
        let outcome = if outcome.is_empty() {
            ToolOutcome::Succeeded
        } else {
            ToolOutcome::Failed(outcome.to_string())
        };
        db.append(tool_call_with_outcome("Backend", "cargo_build", outcome, d)).unwrap();
    }
    assert!(db.causal_thread("task-1").unwrap().anomalies.is_empty());
}

#[test]
fn effects_are_listed_with_their_cause() {
    let mut db = open_temp();
    let d1 = db.append(decision("A", "uno", None)).unwrap();
    let d2 = db.append(decision("A", "dos", Some(d1))).unwrap();
    let t = db.append(tool_call_caused_by("A", "x", d1)).unwrap();
    let thread = db.causal_thread("task-1").unwrap();
    assert_eq!(thread.decisions[0].caused, vec![d2, t]);
    assert!(thread.decisions[1].caused.is_empty());
    assert_eq!(thread.decisions[1].description, "dos");
    assert_eq!(thread.decisions[1].agent, AgentId::from("A"));
}

#[test]
fn an_unknown_stream_has_an_empty_thread() {
    let db = open_temp();
    assert_eq!(db.causal_thread("nowhere").unwrap(), CausalThread::default());
    assert_eq!(CausalThread::from_events(&vec![]), CausalThread::default());
}

#[test]
fn decisions_without_a_correlation_are_no_drift() {
    let mut db = open_temp();
    let mut intent = intent_logged("PM", "x");
    intent.correlation = Some(1);
    db.append(intent).unwrap();
    for _ in 0..5 {
        db.append(decision("B", "d", None)).unwrap();
    }
    assert!(db.causal_thread("task-1").unwrap().anomalies.is_empty());

    // Five that do have another one are.
    for _ in 0..5 {
        db.append(decision_with_correlation("B", "d", Uuid::from_u128(2))).unwrap();
    }
    let thread = db.causal_thread("task-1").unwrap();
    assert_eq!(thread.anomalies.len(), 1);
    assert_eq!(thread.anomalies[0].kind, AnomalyKind::ObjectiveDrift);
    assert_eq!(thread.anomalies[0].repetitions, 5);
}
