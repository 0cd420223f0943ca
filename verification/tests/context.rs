//! Context windows for agents: budget, causal anchors, phases, episodes and anomalies.

use hivedb::clock::MockClock;
use hivedb::context::{
    best_text_score, build_context, episode_query, relevant_episodes, show_option, show_outcome,
    AgentContextRequest, AnomalyConfig, ContextItem, ContextStrategy, Episode, EpisodicConfig,
    VECTOR_RELEVANCE,
};
use hivedb::db::HiveDB;
use hivedb::event::{EventInput, EventKind};
use hivedb::index::types::{Hit, ScalarFilter};
use hivedb::json::{parse_json, Json};
use hivedb::state::causal_thread::ToolOutcome;

fn json(text: &str) -> Json {
    parse_json(text).unwrap()
}

fn db() -> HiveDB<MockClock> {
    HiveDB::open_temp_with_clock(MockClock::at(0)).unwrap()
}

fn decision(agent: &str, description: &str, caused_by: Option<u64>) -> EventInput {
    let input = EventInput::new(agent, "task-1", EventKind::StateTransition)
        .with_payload(json(&format!(r#"{{ "description": "{description}" }}"#)));
    match caused_by {
        Some(seq) => input.with_causation(seq),
        None => input,
    }
}

fn decision_with_phase(agent: &str, description: &str, phase: &str) -> EventInput {
    EventInput::new(agent, "task-1", EventKind::StateTransition).with_payload(json(&format!(
        r#"{{ "description": "{description}", "phase": "{phase}" }}"#
    )))
}

fn tool_call_with_outcome(
    agent: &str,
    tool: &str,
    outcome: ToolOutcome,
    caused_by: u64,
) -> EventInput {
    let payload = match outcome {
        ToolOutcome::Succeeded => json(r#"{ "outcome": "Ok" }"#),
        ToolOutcome::Timeout => json(r#"{ "outcome": "Timeout" }"#),
        ToolOutcome::Failed(ref msg) => {
            json(&format!(r#"{{ "outcome": {{ "Err": "{msg}" }} }}"#))
        },
    };
    EventInput::new(agent, "task-1", EventKind::ToolCall { tool: tool.to_string() })
        .with_payload(payload)
        .with_causation(caused_by)
}

fn error_caused_by(agent: &str, description: &str, caused_by: u64) -> EventInput {
    decision(agent, description, Some(caused_by))
}

fn seed_phase(db: &mut HiveDB<MockClock>, phase: &str, n: usize) {
    let mut last: Option<u64> = None;
    for i in 0..n {
        let mut input = decision_with_phase("Backend", &format!("{phase}-{i}"), phase);
        if let Some(seq) = last {
            input = input.with_causation(seq);
        }
        last = Some(db.append(input).unwrap());
    }
}

fn request(phase: &str, objective: &str, max_tokens: usize) -> AgentContextRequest {
    AgentContextRequest {
        task_id: "task-1".into(),
        current_phase: phase.into(),
        current_objective: objective.into(),
        max_tokens,
        strategy: ContextStrategy::default(),
    }
}

fn hit(id: &str, text_score: Option<f32>, vector_score: Option<f32>) -> Hit {
    Hit {
        id: id.to_string(),
        score: 0,
        text_score: text_score.map(f32::to_bits),
        vector_score: vector_score.map(f32::to_bits),
    }
}

#[test]
fn build_context_never_exceeds_token_limit() {
    let mut db = db();
    seed_phase(&mut db, "implementation", 10_000);

    let ctx = db
        .build_agent_context(&request("implementation", "fix payment module", 4096), vec![])
        .unwrap();

    assert!(ctx.estimated_tokens() <= 4096);
}

#[test]
fn causal_anchors_retrieves_distant_but_causally_connected_decisions() {
    let mut db = db();

    let anchor = db.append(decision("Architect", "no validar nulos en pagos", None)).unwrap();

    for _ in 0..995 {
        db.append(decision("Other", "noise", None)).unwrap();
    }

    let current = db.append(error_caused_by("Backend", "NPE en pagos", anchor)).unwrap();

    let mut req = request("", "NPE en pagos", 8192);
    req.strategy.causal_anchors = true;
    let ctx = db.build_agent_context(&req, vec![]).unwrap();

    assert!(ctx.contains_seq(anchor));
    assert!(ctx.contains_seq(current));
}

#[test]
fn completed_phases_are_compressed_not_dropped() {
    let mut db = db();
    seed_phase(&mut db, "planning", 200);
    seed_phase(&mut db, "implementation", 50);

    let mut req = request("implementation", "", 2048);
    req.strategy.compress_completed_phases = true;
    let ctx = db.build_agent_context(&req, vec![]).unwrap();

    let planning = ctx.phase_summary("planning").unwrap();
    assert!(planning.is_compressed);

    assert!(ctx.has_content_from_phase("implementation"));
}

#[test]
fn recent_anomalies_always_included_in_context() {
    let mut db = db();

    for _ in 0..100 {
        db.append(decision("Backend", "step", None)).unwrap();
    }

    // Inject an error loop in the last few events.
    for _ in 0..4 {
        let d = db.append(decision("Backend", "compilar", None)).unwrap();
        db.append(tool_call_with_outcome(
            "Backend",
            "cargo_build",
            ToolOutcome::Failed("E0432".into()),
            d,
        ))
        .unwrap();
    }

    let mut req = request("", "", 8192);
    req.strategy.recent_anomalies = Some(AnomalyConfig { window_ms: 300_000 });
    let ctx = db.build_agent_context(&req, vec![]).unwrap();

    assert!(!ctx.anomalies.is_empty());
    assert!(matches!(ctx.anomalies[0], ContextItem::Anomaly { .. }));
}

#[test]
fn build_context_is_idempotent() {
    let mut db = db();
    seed_phase(&mut db, "implementation", 500);

    let req = request("implementation", "fix pagos", 4096);

    let ctx1 = db.build_agent_context(&req, vec![]).unwrap();
    let ctx2 = db.build_agent_context(&req, vec![]).unwrap();

    assert_eq!(ctx1, ctx2);
}

#[test]
fn anomalies_stand_before_everything_else() {
    let mut db = db();
    for _ in 0..3 {
        let d = db.append(decision("Backend", "compilar", None)).unwrap();
        db.append(tool_call_with_outcome(
            "Backend",
            "cargo_build",
            ToolOutcome::Failed("E0432".into()),
            d,
        ))
        .unwrap();
    }
    let mut req = request("", "compilar", 8192);
    req.strategy.recent_anomalies = Some(AnomalyConfig { window_ms: 1 });
    let thread = db.causal_thread("task-1").unwrap();
    let ctx = build_context(&thread, &req, vec![]);
    assert_eq!(ctx.items[0], ctx.anomalies[0]);
}

#[test]
fn a_budget_of_nothing_leaves_nothing() {
    let mut db = db();
    seed_phase(&mut db, "implementation", 10);
    let ctx = db.build_agent_context(&request("implementation", "", 0), vec![]).unwrap();
    assert!(ctx.items.is_empty());
    assert_eq!(ctx.estimated_tokens(), 0);
}

#[test]
fn tokens_are_estimated_by_length() {
    let item = ContextItem::Anomaly { text: "12345678".to_string() };
    assert_eq!(item.estimated_tokens(), 4);
    assert_eq!(item.seq(), None);
    let decision =
        ContextItem::Decision { seq: 9, phase: None, text: "x".repeat(40) };
    assert_eq!(decision.estimated_tokens(), 15);
    assert_eq!(decision.seq(), Some(9));
}

#[test]
fn episodes_must_be_close_or_well_worded() {
    assert_eq!(f32::from_bits(VECTOR_RELEVANCE), 0.3);
    let hits = vec![
        hit("near", None, Some(0.9)),
        hit("far", None, Some(0.1)),
        hit("worded", Some(5.0), Some(0.0)),
        hit("loose", Some(1.0), None),
    ];
    let best = f32::from_bits(best_text_score(&hits));
    assert_eq!(best, 5.0);
    let found = relevant_episodes(&hits, (best * 0.4).to_bits());
    let ids: Vec<_> = found.iter().map(|e| e.task_id.as_str()).collect();
    assert_eq!(ids, vec!["near", "worded"]);
}

#[test]
fn episodes_are_asked_for_by_objective_and_vector() {
    let config = EpisodicConfig { vector: vec![1.0f32.to_bits()], k: 3 };
    let query = episode_query(&config, "NPE en pagos");
    assert_eq!(query.text.as_deref(), Some("NPE en pagos"));
    assert_eq!(query.vector, Some(vec![1.0f32.to_bits()]));
    assert_eq!(query.k, 3);
    assert_eq!(query.filters, vec![ScalarFilter::eq("kind", "episode")]);
}

#[test]
fn episodes_are_part_of_the_context() {
    let mut db = db();
    db.append(decision("Backend", "uno", None)).unwrap();
    let mut req = request("", "", 8192);
    req.strategy.episodic_similarity = Some(EpisodicConfig { vector: vec![], k: 1 });
    let episode = Episode { task_id: "past".to_string(), summary: "resumen".to_string() };
    let ctx = db.build_agent_context(&req, vec![episode.clone()]).unwrap();
    assert_eq!(ctx.similar_episodes, vec![episode]);
    assert!(ctx.items.iter().any(|item| matches!(item, ContextItem::Episode { .. })));
}

#[test]
fn outcomes_and_options_are_shown_like_values() {
    assert_eq!(show_option(&None), "None");
    assert_eq!(show_option(&Some("a\"b".to_string())), r#"Some("a\"b")"#);
    assert_eq!(show_outcome(&ToolOutcome::Succeeded), "Ok");
    assert_eq!(show_outcome(&ToolOutcome::Timeout), "Timeout");
    assert_eq!(show_outcome(&ToolOutcome::Failed("E1".to_string())), r#"Err("E1")"#);
}

#[test]
fn tokens_count_characters_not_bytes() {
    let item = ContextItem::Decision { seq: 1, phase: None, text: "ñ".repeat(40) };
    assert_eq!(item.estimated_tokens(), 15);
    let item = ContextItem::Anomaly { text: "→".repeat(2) };
    assert_eq!(item.estimated_tokens(), 3);
}
