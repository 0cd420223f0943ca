//! The harness: findings, root causes and learning proposals over causal threads.

use hivedb::causal::{AnomalyKind, CausalThread};
use hivedb::clock::MockClock;
use hivedb::context::{AgentContextRequest, ContextStrategy};
use hivedb::db::HiveDB;
use hivedb::event::{AgentId, EventInput, EventKind};
use hivedb::harness::{
    EpisodeSupport, FindingKind, HarnessEvaluation, HarnessInput, HarnessLoop, LearningProposal,
    OutputQuality, Penalty, ProposalDraft, Score, DEFAULT_MIN_CONFIDENCE,
};
use hivedb::json::{parse_json, Json};
use hivedb::state::causal_thread::ToolOutcome;

const TICKET: &str = "ticket-4821";

fn json(text: &str) -> Json {
    parse_json(text).unwrap()
}

fn open_temp() -> HiveDB<MockClock> {
    HiveDB::open_temp_with_clock(MockClock::at(0)).unwrap()
}

/// An evaluation with its qualities as numbers.
struct Evaluated {
    process_quality: f64,
    output_quality: f64,
    result: HarnessEvaluation,
}

fn score(draft: &ProposalDraft) -> Score {
    let (base_confidence, base_specificity): (f64, f64) = match draft.kind {
        AnomalyKind::ErrorLoop => (0.4, 0.5),
        AnomalyKind::ObjectiveDrift => (0.3, 0.4),
    };
    let evidence_boost = (draft.evidence_seqs.len() as f64 * 0.1).min(0.4);
    let mut confidence = (base_confidence + evidence_boost).min(1.0);
    let mut specificity = base_specificity;
    match draft.support {
        EpisodeSupport::Absent => {},
        EpisodeSupport::Resolved => {
            confidence = (confidence + 0.2).min(1.0);
            specificity = (specificity + 0.3).min(1.0);
        },
        EpisodeSupport::Unresolved => {
            confidence = (confidence + 0.05).min(1.0);
            specificity = (specificity + 0.05).min(1.0);
        },
    }
    Score { confidence: confidence.to_bits(), specificity: specificity.to_bits() }
}

fn evaluate(input: HarnessInput) -> Evaluated {
    assert!(HarnessLoop::can_assess(&input.causal_thread));
    let assessment = HarnessLoop::assess(&input);
    let mut quality = 1.0f64;
    for penalty in &assessment.penalties {
        let unit = match penalty.kind {
            AnomalyKind::ErrorLoop => 0.2f64,
            AnomalyKind::ObjectiveDrift => 0.05f64,
        };
        quality -= unit * penalty.times as f64;
    }
    let output_quality = match assessment.output_quality {
        OutputQuality::Success => 1.0,
        OutputQuality::Failure => 0.0,
        OutputQuality::Unknown => 0.5,
    };
    let scores: Vec<Score> = assessment.drafts.iter().map(score).collect();
    Evaluated {
        process_quality: quality.max(0.0),
        output_quality,
        result: HarnessLoop::conclude(assessment, &scores, input.min_confidence),
    }
}

fn confidence(proposal: &LearningProposal) -> f64 {
    f64::from_bits(proposal.confidence)
}

fn specificity(proposal: &LearningProposal) -> f64 {
    f64::from_bits(proposal.specificity)
}

fn decision(agent: &str, stream: &str, description: &str, caused_by: Option<u64>) -> EventInput {
    let input = EventInput::new(agent, stream, EventKind::StateTransition)
        .with_payload(json(&format!(r#"{{ "description": "{description}" }}"#)));
    match caused_by {
        Some(seq) => input.with_causation(seq),
        None => input,
    }
}

fn decision_with_phase(
    agent: &str,
    stream: &str,
    description: &str,
    phase: &str,
    caused_by: Option<u64>,
) -> EventInput {
    let input = EventInput::new(agent, stream, EventKind::StateTransition).with_payload(json(
        &format!(r#"{{ "description": "{description}", "phase": "{phase}" }}"#),
    ));
    match caused_by {
        Some(seq) => input.with_causation(seq),
        None => input,
    }
}

fn intent_logged(agent: &str, stream: &str, intent: &str) -> EventInput {
    EventInput::new(
        agent,
        stream,
        EventKind::IntentLogged {
            actor: AgentId::from(agent),
            intent: intent.to_string(),
            authorized_by: None,
        },
    )
}

fn tool_call_with_outcome(
    agent: &str,
    stream: &str,
    tool: &str,
    outcome: ToolOutcome,
    caused_by: u64,
) -> EventInput {
    let payload = match outcome {
        ToolOutcome::Succeeded => json(r#"{ "outcome": "Ok" }"#),
        ToolOutcome::Timeout => json(r#"{ "outcome": "Timeout" }"#),
        ToolOutcome::Failed(ref msg) => {
            json(&format!(r#"{{ "outcome": {{ "Err": "{msg}" }} }}"#))
        },
    };
    EventInput::new(agent, stream, EventKind::ToolCall { tool: tool.to_string() })
        .with_payload(payload)
        .with_causation(caused_by)
}

fn failing(db: &mut HiveDB<MockClock>, task: &str, what: &str, error: &str, times: usize) {
    for _ in 0..times {
        let d = db.append(decision("Backend", task, what, None)).unwrap();
        db.append(tool_call_with_outcome(
            "Backend",
            task,
            "cargo_build",
            ToolOutcome::Failed(error.into()),
            d,
        ))
        .unwrap();
    }
}

fn seed_task_with_error_loop_then_success(db: &mut HiveDB<MockClock>, task: &str) {
    db.append(intent_logged("PM", task, "implementar autenticación")).unwrap();
    failing(db, task, "compilar módulo", "E0432", 3);
}

fn seed_failures_caused_by(db: &mut HiveDB<MockClock>, task: &str, caused_by: u64, n: usize) {
    for _ in 0..n {
        db.append(tool_call_with_outcome(
            "Backend",
            task,
            "network_call",
            ToolOutcome::Failed("timeout".into()),
            caused_by,
        ))
        .unwrap();
    }
}

fn seed_task_with_pattern_failure(db: &mut HiveDB<MockClock>, task: &str) {
    db.append(intent_logged("PM", task, "implementar autenticación")).unwrap();
    failing(db, task, "refactorizar ORM", "E0432", 3);
}

fn seed_task_with_single_failure(db: &mut HiveDB<MockClock>, task: &str) {
    db.append(intent_logged("PM", task, "implementar autenticación")).unwrap();
    failing(db, task, "compilar módulo", "E0432", 1);
}

fn seed_resolved_episode(db: &mut HiveDB<MockClock>, task: &str) -> CausalThread {
    let intent = db.append(intent_logged("PM", task, "implementar autenticación")).unwrap();
    let bad = db.append(decision("Backend", task, "null pointer risk", None)).unwrap();
    db.append(tool_call_with_outcome(
        "Backend",
        task,
        "cargo_build",
        ToolOutcome::Failed("null pointer".into()),
        bad,
    ))
    .unwrap();
    // Resolution decision linked to the original intent and the bad decision.
    db.append(decision("Backend", task, "Add null check", Some(bad)).with_causation(intent))
        .unwrap();
    db.causal_thread(task).unwrap()
}

fn seed_task_with_failure(db: &mut HiveDB<MockClock>, task: &str) {
    db.append(intent_logged("PM", task, "implementar autenticación")).unwrap();
    failing(db, task, "null pointer risk", "null pointer", 3);
}

fn seed_work_session(db: &mut HiveDB<MockClock>, task: &str, session: &str, n: usize) {
    let mut last: Option<u64> = None;
    for i in 0..n {
        let input =
            decision_with_phase("Backend", task, &format!("{session}-{i}"), session, last);
        last = Some(db.append(input).unwrap());
    }
}

fn proposal_json(proposal: &LearningProposal) -> Json {
    let seqs: Vec<String> = proposal.evidence_seqs.iter().map(u64::to_string).collect();
    json(&format!(
        r#"{{"description": "{}", "evidence_seqs": [{}], "confidence": {}, "specificity": {}}}"#,
        proposal.description,
        seqs.join(","),
        confidence(proposal),
        specificity(proposal),
    ))
}

#[test]
fn harness_evaluates_process_not_just_output() {
    let mut db = open_temp();
    seed_task_with_error_loop_then_success(&mut db, "task-1");
    let thread = db.causal_thread("task-1").unwrap();

    let eval = evaluate(HarnessInput {
        causal_thread: thread,
        similar_episodes: vec![],
        original_intent: "implementar autenticación".into(),
        current_state: Some(json(r#"{ "outcome": "success" }"#)),
        min_confidence: 0.5f64.to_bits(),
    });

    assert!(eval.process_quality < eval.output_quality);
    assert!(eval.result.findings.iter().any(|f| f.kind == FindingKind::InefficientLoop));
}

#[test]
fn harness_root_cause_has_exact_seq_provenance() {
    let mut db = open_temp();

    // Seed 9 unrelated events so the bad decision lands at seq == 10.
    for i in 0..9 {
        db.append(decision("Other", "task-1", &format!("noise-{i}"), None)).unwrap();
    }

    let bad_decision = db
        .append(decision("Architect", "task-1", "no manejar errores de red", None))
        .unwrap();
    assert_eq!(bad_decision, 10);

    seed_failures_caused_by(&mut db, "task-1", bad_decision, 20);

    let thread = db.causal_thread("task-1").unwrap();
    let eval = evaluate(HarnessInput { causal_thread: thread, ..Default::default() });

    let root_cause = eval.result.root_cause.as_ref().unwrap();
    assert_eq!(root_cause.seq, bad_decision);
    assert_eq!(root_cause.agent.0, "Architect");
}

#[test]
fn learning_proposals_include_causal_evidence() {
    let mut db = open_temp();
    seed_task_with_pattern_failure(&mut db, "task-1");
    let thread = db.causal_thread("task-1").unwrap();

    let eval = evaluate(HarnessInput { causal_thread: thread, ..Default::default() });

    assert!(!eval.result.proposals.is_empty());
    for proposal in &eval.result.proposals {
        assert!(!proposal.evidence_seqs.is_empty());
        assert!(proposal.trigger_seq.is_some());
        assert!(confidence(proposal) > 0.0 && confidence(proposal) <= 1.0);
    }
}

#[test]
fn learning_proposals_are_logged_as_events() {
    let mut db = open_temp();
    seed_task_with_pattern_failure(&mut db, "task-1");
    let thread = db.causal_thread("task-1").unwrap();

    let eval = evaluate(HarnessInput { causal_thread: thread, ..Default::default() });

    for p in &eval.result.proposals {
        let input = EventInput::new("Harness", "task-1", EventKind::LearningProposal)
            .with_payload(proposal_json(p));
        let seq = db.append(input).unwrap();
        let ev = db.read(seq).unwrap();
        assert_eq!(ev.kind_tag(), "LearningProposal");
        match ev.payload.get("evidence_seqs") {
            Some(Json::Array(seqs)) => assert!(!seqs.is_empty()),
            other => panic!("evidence expected, found {other:?}"),
        }
    }
}

#[test]
fn similar_episodes_improve_proposal_specificity() {
    let mut db = open_temp();

    let past = seed_resolved_episode(&mut db, "task-past");
    seed_task_with_failure(&mut db, "task-current");
    let current_thread = db.causal_thread("task-current").unwrap();

    let eval_without = evaluate(HarnessInput {
        causal_thread: current_thread.clone(),
        similar_episodes: vec![],
        ..Default::default()
    });
    let eval_with = evaluate(HarnessInput {
        causal_thread: current_thread,
        similar_episodes: vec![past],
        ..Default::default()
    });

    let without = &eval_without.result.proposals;
    let with = &eval_with.result.proposals;
    assert!(!without.is_empty());
    assert!(!with.is_empty());
    assert!(confidence(&with[0]) > confidence(&without[0]));
    assert!(specificity(&with[0]) > specificity(&without[0]));
}

#[test]
fn harness_withholds_proposals_below_confidence_threshold() {
    let mut db = open_temp();
    seed_task_with_single_failure(&mut db, "task-1");
    let thread = db.causal_thread("task-1").unwrap();

    let eval = evaluate(HarnessInput {
        causal_thread: thread,
        min_confidence: 0.75f64.to_bits(),
        ..Default::default()
    });

    assert!(eval.result.proposals.is_empty());
    assert!(eval.result.findings.iter().any(|f| f.kind == FindingKind::InsufficientEvidence));
}

#[test]
fn long_running_task_resumes_with_full_causal_context() {
    let mut db = open_temp();
    seed_work_session(&mut db, "task-1", "session-1", 300);
    seed_work_session(&mut db, "task-1", "session-2", 300);
    seed_work_session(&mut db, "task-1", "session-3", 50);

    let ctx = db
        .build_agent_context(
            &AgentContextRequest {
                task_id: "task-1".into(),
                current_phase: "session-3".into(),
                current_objective: "completar integración de pagos".into(),
                max_tokens: 8192,
                strategy: ContextStrategy {
                    causal_anchors: true,
                    compress_completed_phases: true,
                    episodic_similarity: None,
                    recent_anomalies: None,
                },
            },
            vec![],
        )
        .unwrap();

    assert!(ctx.spans_sessions(&vec!["session-1", "session-2", "session-3"]));
    assert!(ctx.estimated_tokens() <= 8192);
    assert!(ctx.has_content_from_phase("session-1"));
    assert!(ctx.has_content_from_phase("session-2"));
}

#[test]
fn harness_loop_improves_across_similar_tasks() {
    let mut db = open_temp();

    failing(&mut db, "task-1", "null pointer risk", "null pointer", 3);
    let thread1 = db.causal_thread("task-1").unwrap();
    let eval1 = evaluate(HarnessInput {
        causal_thread: thread1.clone(),
        similar_episodes: vec![],
        ..Default::default()
    });

    for p in &eval1.result.proposals {
        let approved = Json::Object(vec![("approved".to_string(), proposal_json(p))]);
        db.append(EventInput::new("Harness", "task-1", EventKind::Fact).with_payload(approved))
            .unwrap();
    }

    failing(&mut db, "task-2", "null pointer risk", "null pointer", 1);
    let thread2 = db.causal_thread("task-2").unwrap();
    let eval2 = evaluate(HarnessInput {
        causal_thread: thread2,
        similar_episodes: vec![thread1],
        ..Default::default()
    });

    assert!(eval2.result.anomaly_count() < eval1.result.anomaly_count());
    if !eval2.result.proposals.is_empty() && !eval1.result.proposals.is_empty() {
        assert!(
            confidence(&eval2.result.proposals[0]) > confidence(&eval1.result.proposals[0])
        );
        assert!(
            specificity(&eval2.result.proposals[0]) > specificity(&eval1.result.proposals[0])
        );
    }
}

#[test]
fn generic_consumer_gets_full_causal_thread_and_harness_value() {
    let mut db = open_temp();

    let intent = db
        .append(intent_logged(
            "Router",
            TICKET,
            "resolver timeout de checkout reportado por el cliente",
        ))
        .unwrap();

    let d1 = db
        .append(decision_with_phase(
            "Analyst",
            TICKET,
            "clasificar como bug de pagos",
            "triage",
            Some(intent),
        ))
        .unwrap();
    let t1 = db
        .append(tool_call_with_outcome(
            "Analyst",
            TICKET,
            "classify_ticket",
            ToolOutcome::Succeeded,
            d1,
        ))
        .unwrap();

    let d2 = db
        .append(decision_with_phase(
            "Auditor",
            TICKET,
            "escalar a soporte de pagos",
            "resolution",
            Some(t1),
        ))
        .unwrap();
    let t2 = db
        .append(tool_call_with_outcome(
            "Auditor",
            TICKET,
            "escalate_to_human",
            ToolOutcome::Succeeded,
            d2,
        ))
        .unwrap();

    let thread = db.causal_thread(TICKET).unwrap();

    // Causal chain connects across agents (Router -> Analyst -> Auditor).
    assert_eq!(thread.decisions.len(), 2);
    assert_eq!(thread.tool_calls.len(), 2);
    assert_eq!(thread.tool_calls[0].caused_by, Some(d1));
    assert_eq!(thread.tool_calls[1].seq, t2);
    assert_eq!(thread.decisions[1].caused_by, Some(t1));
    assert!(thread.decisions[0].caused.contains(&t1));

    // Harness evaluation over a clean thread: no anomalies, no root cause.
    let clean_eval = evaluate(HarnessInput {
        causal_thread: thread,
        similar_episodes: vec![],
        original_intent: "resolver timeout de checkout".into(),
        current_state: Some(json(r#"{ "outcome": "resolved" }"#)),
        min_confidence: 0.5f64.to_bits(),
    });
    assert!((clean_eval.process_quality - 1.0).abs() < f64::EPSILON);
    assert!(clean_eval.result.root_cause.is_none());
}

#[test]
fn generic_consumer_error_loop_and_root_cause() {
    let mut db = open_temp();

    let root_decision = db
        .append(decision_with_phase(
            "Analyst",
            TICKET,
            "consultar historial del cliente",
            "triage",
            None,
        ))
        .unwrap();

    for _ in 0..3 {
        db.append(tool_call_with_outcome(
            "Analyst",
            TICKET,
            "lookup_customer",
            ToolOutcome::Failed("crm_timeout".into()),
            root_decision,
        ))
        .unwrap();
    }

    let thread = db.causal_thread(TICKET).unwrap();
    assert!(!thread.anomalies.is_empty());
    let anomaly = &thread.anomalies[0];
    assert_eq!(anomaly.kind, AnomalyKind::ErrorLoop);
    assert_eq!(anomaly.repetitions, 3);
    assert_eq!(anomaly.tool, Some("lookup_customer".into()));

    let eval = evaluate(HarnessInput {
        causal_thread: thread,
        similar_episodes: vec![],
        original_intent: "resolver timeout de checkout".into(),
        current_state: None,
        min_confidence: 0.3f64.to_bits(),
    });

    assert!(eval.process_quality < 1.0);
    let root_cause = eval.result.root_cause.expect("root cause must resolve");
    assert_eq!(root_cause.seq, root_decision);
    assert_eq!(root_cause.agent, AgentId::from("Analyst"));
    assert!(
        !eval.result.proposals.is_empty(),
        "a repeated failure must produce at least one learning proposal"
    );
}

#[test]
fn generic_consumer_objective_drift() {
    let mut db = open_temp();
    let intent = db.append(intent_logged("Router", TICKET, "resolver timeout de checkout")).unwrap();

    let unrelated_correlation = uuid::Uuid::new_v4().as_u128();
    for _ in 0..6 {
        let mut input = decision("Auditor", TICKET, "revisar política de reembolsos", None);
        input.correlation = Some(unrelated_correlation);
        db.append(input).unwrap();
    }

    let thread = db.causal_thread(TICKET).unwrap();
    let drift = thread.anomalies.iter().find(|a| a.kind == AnomalyKind::ObjectiveDrift);
    assert!(drift.is_some());
    assert_eq!(drift.unwrap().original_intent_seq, Some(intent));
}

#[test]
fn generic_consumer_context_budget_and_phase_compression() {
    let mut db = open_temp();

    let mut last: Option<u64> = None;
    for i in 0..200 {
        let input =
            decision_with_phase("Analyst", TICKET, &format!("triage-step-{i}"), "triage", last);
        last = Some(db.append(input).unwrap());
    }
    for i in 0..50 {
        db.append(decision_with_phase(
            "Auditor",
            TICKET,
            &format!("resolution-step-{i}"),
            "resolution",
            None,
        ))
        .unwrap();
    }

    let ctx = db
        .build_agent_context(
            &AgentContextRequest {
                task_id: TICKET.into(),
                current_phase: "resolution".into(),
                current_objective: "".into(),
                max_tokens: 2048,
                strategy: ContextStrategy {
                    compress_completed_phases: true,
                    ..Default::default()
                },
            },
            vec![],
        )
        .unwrap();

    assert!(ctx.estimated_tokens() <= 2048);
    let triage_summary = ctx.phase_summary("triage").unwrap();
    assert!(triage_summary.is_compressed);
    assert!(ctx.has_content_from_phase("resolution"));
}

#[test]
fn generic_consumer_tool_stats_agree_with_causal_thread() {
    let mut db = open_temp();
    let d = db
        .append(decision_with_phase("Analyst", TICKET, "reintentar lookup", "triage", None))
        .unwrap();
    db.append(tool_call_with_outcome(
        "Analyst",
        TICKET,
        "lookup_customer",
        ToolOutcome::Timeout,
        d,
    ))
    .unwrap();

    let stats = db.tool_stats("lookup_customer").unwrap().unwrap();
    assert_eq!(stats.errors, 1);

    let thread = db.causal_thread(TICKET).unwrap();
    assert!(thread.tool_calls.iter().all(|t| !matches!(t.outcome, ToolOutcome::Succeeded)));
}

#[test]
fn the_assessment_is_exact() {
    let mut db = open_temp();
    failing(&mut db, "t", "compilar", "E1", 7);
    let thread = db.causal_thread("t").unwrap();
    let input = HarnessInput {
        causal_thread: thread,
        current_state: Some(json(r#"{"state": "FAILED"}"#)),
        ..Default::default()
    };
    assert_eq!(input.min_confidence, DEFAULT_MIN_CONFIDENCE);
    assert_eq!(f64::from_bits(DEFAULT_MIN_CONFIDENCE), 0.5);
    let assessment = HarnessLoop::assess(&input);
    assert_eq!(
        assessment.penalties,
        vec![Penalty { kind: AnomalyKind::ErrorLoop, times: 5 }]
    );
    assert_eq!(assessment.output_quality, OutputQuality::Failure);
    assert_eq!(
        assessment.findings[0].description,
        r#"Tool Some("cargo_build") failed 7 times in a loop"#
    );
    assert_eq!(assessment.root_cause.as_ref().unwrap().seq, 1);
    assert_eq!(
        assessment.findings[1].description,
        "Root cause: Backend decision at seq 1"
    );
    assert_eq!(assessment.drafts.len(), 1);
    let draft = &assessment.drafts[0];
    assert_eq!(
        draft.description,
        "Add pre-checks before calling tool 'cargo_build' to avoid repeated errors"
    );
    assert_eq!(draft.evidence_seqs, vec![2, 4, 6, 8, 10, 12, 14]);
    assert_eq!(draft.trigger_seq, Some(1));
    assert_eq!(draft.support, EpisodeSupport::Absent);

    let half = Score { confidence: 0.5f64.to_bits(), specificity: 0.5f64.to_bits() };
    let kept = HarnessLoop::conclude(HarnessLoop::assess(&input), &vec![half], 0.5f64.to_bits());
    assert_eq!(kept.proposals.len(), 1);
    assert_eq!(kept.anomaly_count(), 1);
    let dropped = HarnessLoop::conclude(assessment, &vec![half], 0.6f64.to_bits());
    assert!(dropped.proposals.is_empty());
    assert_eq!(
        dropped.findings.last().unwrap().description,
        "Insufficient evidence to generate a learning proposal"
    );
}

#[test]
fn drift_is_answered_by_realigning() {
    let mut db = open_temp();
    let intent = db.append(intent_logged("PM", "t", "autenticación")).unwrap();
    for _ in 0..6 {
        let mut input = decision("Backend", "t", "refactorizar", None);
        input.correlation = Some(7);
        db.append(input).unwrap();
    }
    let eval = evaluate(HarnessInput {
        causal_thread: db.causal_thread("t").unwrap(),
        original_intent: "autenticación".into(),
        ..Default::default()
    });
    let finding = &eval.result.findings[0];
    assert_eq!(finding.kind, FindingKind::ObjectiveDrift);
    assert_eq!(finding.seq, Some(intent));
    assert_eq!(finding.description, "Objective drift: 6 decisions diverged from intent");
    assert_eq!(eval.process_quality, 1.0 - 0.05 * 6.0);
    let proposal = &eval.result.proposals[0];
    assert_eq!(proposal.description, "Realign decisions with the original intent");
    assert_eq!(proposal.trigger_seq, Some(2));
    assert_eq!(confidence(proposal), 0.3 + 0.4);
    assert_eq!(specificity(proposal), 0.4);
}

#[test]
fn threads_that_cause_themselves_are_not_assessed() {
    let mut db = open_temp();
    // A failure that names itself as its cause.
    db.append(tool_call_with_outcome("A", "t", "x", ToolOutcome::Failed("e".into()), 1)).unwrap();
    assert!(!HarnessLoop::can_assess(&db.causal_thread("t").unwrap()));
}

#[test]
fn the_root_cause_is_the_earliest_decision_of_the_chain() {
    let mut db = open_temp();
    let first = db.append(decision("Architect", "t", "sin reintentos", None)).unwrap();
    let second = db.append(decision("Backend", "t", "llamar una vez", Some(first))).unwrap();
    let failed = ToolOutcome::Failed("x".into());
    let failure = db.append(tool_call_with_outcome("Backend", "t", "http", failed, second)).unwrap();
    let input = HarnessInput { causal_thread: db.causal_thread("t").unwrap(), ..Default::default() };
    let cause = HarnessLoop::assess(&input).root_cause.unwrap();
    assert_eq!((cause.seq, cause.agent), (first, AgentId::from("Architect")));

    // A failure that another failure caused goes back to the same decision.
    let failed = ToolOutcome::Failed("y".into());
    db.append(tool_call_with_outcome("Backend", "t", "http", failed, failure)).unwrap();
    let input = HarnessInput { causal_thread: db.causal_thread("t").unwrap(), ..Default::default() };
    assert_eq!(HarnessLoop::assess(&input).root_cause.unwrap().seq, first);
}

#[test]
fn decisions_that_cause_each_other_have_an_earliest() {
    let mut db = open_temp();
    db.append(decision("A", "t", "uno", Some(2))).unwrap();
    db.append(decision("B", "t", "dos", Some(1))).unwrap();
    let failed = ToolOutcome::Failed("x".into());
    db.append(tool_call_with_outcome("B", "t", "http", failed, 2)).unwrap();
    let input = HarnessInput { causal_thread: db.causal_thread("t").unwrap(), ..Default::default() };
    assert_eq!(HarnessLoop::assess(&input).root_cause.unwrap().seq, 1);
}

fn drifting(db: &mut HiveDB<MockClock>) -> CausalThread {
    db.append(intent_logged("PM", "t", "autenticación")).unwrap();
    for _ in 0..6 {
        let mut input = decision("Backend", "t", "resuelto: refactorizar", None);
        input.correlation = Some(7);
        db.append(input).unwrap();
    }
    db.causal_thread("t").unwrap()
}

#[test]
fn drift_without_an_intent_is_no_proposal() {
    let mut db = open_temp();
    let thread = drifting(&mut db);
    let input = HarnessInput {
        causal_thread: thread.clone(),
        similar_episodes: vec![thread],
        ..Default::default()
    };
    assert_eq!(input.original_intent, "");
    let assessment = HarnessLoop::assess(&input);
    assert_eq!(assessment.drafts.len(), 1);
    assert!(assessment.drafts[0].evidence_seqs.is_empty());
    // The past episodes would carry the draft to the threshold.
    assert_eq!(f64::from_bits(score(&assessment.drafts[0]).confidence), 0.5);

    let eval = evaluate(input).result;
    assert!(eval.proposals.is_empty());
    let last = eval.findings.last().unwrap();
    assert_eq!(last.kind, FindingKind::InsufficientEvidence);
    assert_eq!(last.description, "Insufficient evidence to generate a learning proposal");
}

#[test]
fn failures_that_no_decision_caused_are_no_proposal() {
    let mut db = open_temp();
    for _ in 0..3 {
        let call = EventInput::new("A", "t", EventKind::ToolCall { tool: "x".into() })
            .with_payload(json(r#"{"outcome": {"Err": "e"}}"#));
        db.append(call).unwrap();
    }
    let input =
        HarnessInput { causal_thread: db.causal_thread("t").unwrap(), ..Default::default() };
    let draft = &HarnessLoop::assess(&input).drafts[0];
    assert_eq!((draft.evidence_seqs.clone(), draft.trigger_seq), (vec![1, 2, 3], None));
    assert!(evaluate(input).result.proposals.is_empty());
}

#[test]
fn a_confidence_lies_above_zero_and_is_at_most_one() {
    let mut db = open_temp();
    failing(&mut db, "t", "compilar", "E1", 3);
    let input =
        HarnessInput { causal_thread: db.causal_thread("t").unwrap(), ..Default::default() };
    let kept = |confidence: f64| {
        let score = Score { confidence: confidence.to_bits(), specificity: 0 };
        let assessment = HarnessLoop::assess(&input);
        HarnessLoop::conclude(assessment, &vec![score], 0.0f64.to_bits()).proposals.len()
    };
    assert_eq!(kept(0.0), 0);
    assert_eq!(kept(0.1), 1);
    assert_eq!(kept(1.0), 1);
    assert_eq!(kept(1.5), 0);
    assert_eq!(kept(f64::NAN), 0);
}
