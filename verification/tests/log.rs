//! The event log: sequence numbers, reopening, tenants and the cache of open shards.

use hivedb::cache::{ShardCache, DEFAULT_MAX_OPEN_SHARDS};
use hivedb::clock::{shown, Clock, MockClock, SystemClock};
use hivedb::db::HiveDB;
use hivedb::event::{AgentId, Event, EventInput, EventKind, StreamId};
use hivedb::json::{parse_json, Json};
use hivedb::log::{
    affects_global_projections, census_agent, merge_by_seq, shard_file_name, EventLog, LogMeta,
};
use hivedb::projection::{Projection, ProjectionExt};
use hivedb::shard::{AgentShard, Materialized};
use hivedb::state::consent_graph::ConsentGraph;
use hivedb::state::current_facts::{CurrentFacts, CurrentFactsState};
use hivedb::state::task_state::TaskState;
use hivedb::state::tool_ledger::ToolLedger;

const STREAM: &str = "task-1";

fn json(text: &str) -> Json {
    parse_json(text).unwrap()
}

fn db() -> HiveDB<MockClock> {
    HiveDB::open_temp_with_clock(MockClock::at(0)).unwrap()
}

fn fact(agent: &str, stream: &str) -> EventInput {
    EventInput::new(agent, stream, EventKind::Fact).with_payload(json(r#"{"msg": "hello"}"#))
}

fn invalidate(agent: &str, target_seq: u64) -> EventInput {
    EventInput::new(agent, "default", EventKind::MemoryInvalidate { target_seq })
}

fn agentes(enjambre: &str) -> Vec<AgentId> {
    vec![
        AgentId::from(format!("{enjambre}:coordinator")),
        AgentId::from(format!("{enjambre}:native:search")),
    ]
}

fn tool_call(agente: &str, tool: &str, latencia: u64) -> EventInput {
    EventInput::new(agente, STREAM, EventKind::ToolCall { tool: tool.to_string() }).with_payload(
        json(&format!(r#"{{"latency_ms": {latencia}, "cost": 1.0, "outcome": "Ok"}}"#)),
    )
}

fn hecho(agente: &str) -> EventInput {
    EventInput::new(agente, STREAM, EventKind::Fact).with_payload(json(r#"{"msg": "x"}"#))
}

/// The log as it would be found on disk, opened with the given record about it. Every
/// event is in one of the streams; the projections start from nothing.
fn reopened(log: &EventLog, streams: &[&str], meta: LogMeta) -> EventLog {
    let mut shards = Vec::new();
    for agent in log.all_agents() {
        let mut events: Vec<Event> = Vec::new();
        for stream in streams {
            events = merge_by_seq(events, log.read_stream(&agent, &StreamId::from(*stream)));
        }
        let shard = AgentShard::open(
            events,
            Materialized::new(),
            Materialized::new(),
            Materialized::new(),
        );
        shards.push((agent, shard));
    }
    EventLog::open(shards, Materialized::new(), meta)
}

fn base_con_dos_enjambres() -> HiveDB<MockClock> {
    let mut db = db();
    for latencia in [10, 20] {
        db.append(tool_call("swarmA:native:search", "buscar", latencia)).unwrap();
    }
    db.append(tool_call("swarmB:native:search", "buscar", 100)).unwrap();
    db
}

#[test]
fn seq_is_monotonic_and_engine_assigned() {
    let mut db = db();
    let s1 = db.append(fact("A", "s1")).unwrap();
    let s2 = db.append(fact("A", "s1")).unwrap();
    let s3 = db.append(fact("B", "s2")).unwrap();

    assert!(s1 < s2 && s2 < s3);
    assert_eq!(s1, 1);
}

#[test]
fn log_has_no_mutation_api() {
    let mut db = db();
    let seq = db.append(fact("A", "s1")).unwrap();

    let ev = db.read(seq).unwrap();
    assert_eq!(ev.seq, seq);
    assert_eq!(ev.kind_tag(), "Fact");
    assert_eq!(db.log_len().unwrap(), 1);
}

#[test]
fn correction_is_a_new_invalidating_event() {
    let mut db = db();
    let fact_seq =
        db.append(fact("A", "s1").with_payload(json(r#"{"price": 100}"#))).unwrap();

    let inval_seq = db.append(invalidate("A", fact_seq)).unwrap();

    // Original fact is still in the log, untouched.
    let ev = db.read(fact_seq).unwrap();
    assert_eq!(ev.payload, json(r#"{"price": 100}"#));

    // But CurrentFacts projection no longer considers it valid.
    let current: CurrentFactsState = db.project::<CurrentFacts>().unwrap();
    assert!(!current.contains(fact_seq));

    // The invalidating event has a higher sequence number.
    assert!(inval_seq > fact_seq);
}

#[test]
fn next_seq_survives_reopen_without_rescan() {
    let mut db = db();
    let s1 = db.append(fact("A", "s1")).unwrap();
    db.close();

    let mut log = reopened(db.log(), &["s1"], db.log().meta());
    let s2 = log.append(fact("A", "s1"), 0).seq;

    assert_eq!(s2, s1 + 1);
    assert_eq!(log.last_seq(), s2);
}

#[test]
fn reopen_without_meta_falls_back_to_scan() {
    let mut db = db();
    db.append(fact("A", "s1")).unwrap();
    db.close();

    // An older database that has no `next_seq` meta entry.
    let meta = LogMeta { next_seq: None, clean_shutdown: true };
    let mut log = reopened(db.log(), &["s1"], meta);
    let seq = log.append(fact("A", "s1"), 0).seq;
    assert_eq!(seq, 2);
}

#[test]
fn same_agent_writes_preserve_causal_order() {
    let mut db = db();
    let s1 = db.append(fact("A", "stream-1")).unwrap();
    let s2 = db.append(fact("A", "stream-1")).unwrap();

    let seqs: Vec<_> = db
        .read_stream(&AgentId::from("A"), &StreamId::from("stream-1"))
        .unwrap()
        .into_iter()
        .map(|e| e.seq)
        .collect();

    assert_eq!(seqs, vec![s1, s2]);
}

#[test]
fn causal_thread_acotado_no_ve_otros_enjambres() {
    let db = base_con_dos_enjambres();

    let solo_a = db.causal_thread_for_agents(STREAM, &agentes("swarmA")).unwrap();
    let solo_b = db.causal_thread_for_agents(STREAM, &agentes("swarmB")).unwrap();

    assert_eq!(solo_a.tool_calls.len(), 2, "A debe ver sólo sus dos eventos");
    assert_eq!(solo_b.tool_calls.len(), 1, "B debe ver sólo el suyo");
}

#[test]
fn causal_thread_sin_acotar_sigue_viendo_toda_la_base() {
    let db = base_con_dos_enjambres();
    assert_eq!(db.causal_thread(STREAM).unwrap().tool_calls.len(), 3);
}

#[test]
fn tool_stats_acotado_no_suma_llamadas_ajenas() {
    let mut db = db();
    db.append(tool_call("swarmA:native:search", "buscar", 10)).unwrap();
    db.append(tool_call("swarmA:native:search", "buscar", 20)).unwrap();
    db.append(tool_call("swarmB:native:search", "buscar", 100)).unwrap();

    let a = db
        .tool_stats_for_agents("buscar", &agentes("swarmA"))
        .unwrap()
        .expect("A tiene llamadas");
    let b = db
        .tool_stats_for_agents("buscar", &agentes("swarmB"))
        .unwrap()
        .expect("B tiene llamadas");

    assert_eq!(a.invocations, 2);
    assert_eq!(a.total_latency_ms, 30);
    assert_eq!(b.invocations, 1);
    assert_eq!(b.total_latency_ms, 100);

    let todas = db.tool_stats("buscar").unwrap().unwrap();
    assert_eq!(todas.invocations, 3);
}

#[test]
fn tool_stats_de_un_enjambre_sin_llamadas_no_hereda_las_del_vecino() {
    let mut db = db();
    db.append(tool_call("swarmA:native:search", "buscar", 10)).unwrap();

    let b = db.tool_stats_for_agents("buscar", &agentes("swarmB")).unwrap();
    assert!(b.is_none(), "B no ha llamado a la herramienta");
}

#[test]
fn reabrir_tras_cierre_limpio_conserva_la_secuencia() {
    let mut db = db();
    for _ in 0..5 {
        db.append(hecho("swarmA:coordinator")).unwrap();
    }
    let ultimo = db.append(hecho("swarmB:coordinator")).unwrap();
    assert_eq!(ultimo, 6);
    db.close();

    let mut log = reopened(db.log(), &[STREAM], db.log().meta());
    assert_eq!(log.append(hecho("swarmA:coordinator"), 0).seq, 7);
}

#[test]
fn reabrir_tras_cierre_sucio_redescubre_la_secuencia() {
    let mut db = db();
    for _ in 0..4 {
        db.append(hecho("swarmA:coordinator")).unwrap();
    }

    // A crash: no orderly shutdown, and the counter lags behind.
    let meta = LogMeta { next_seq: Some(1), clean_shutdown: false };
    let mut log = reopened(db.log(), &[STREAM], meta);
    assert_eq!(log.append(hecho("swarmA:coordinator"), 0).seq, 5);
}

#[test]
fn las_proyecciones_de_un_shard_se_recuperan_al_abrirlo() {
    let mut db = db();
    db.append(tool_call("swarmA:native:search", "buscar", 10)).unwrap();
    db.append(tool_call("swarmA:native:search", "buscar", 20)).unwrap();
    db.close();

    let log = reopened(db.log(), &[STREAM], db.log().meta());
    let ledger = log.project_for_agents::<ToolLedger>(&agentes("swarmA"));
    let stats = ledger.get("buscar").expect("la proyección del shard se recupera al abrirlo");
    assert_eq!(stats.invocations, 2);
    assert_eq!(stats.total_latency_ms, 30);
}

#[test]
fn consultar_un_agente_inexistente_no_crea_su_shard() {
    let mut db = db();
    db.append(hecho("swarmA:coordinator")).unwrap();

    let vacio =
        db.causal_thread_for_agents(STREAM, &vec![AgentId::from("swarmZ:fantasma")]).unwrap();
    assert_eq!(vacio.tool_calls.len(), 0);

    assert_eq!(db.log().all_agents(), vec![AgentId::from("swarmA:coordinator")]);
}

#[test]
fn la_cache_de_shards_no_crece_sin_limite() {
    let mut log = EventLog::new();
    let mut cache = ShardCache::new(4);

    for i in 0..20 {
        let agent = AgentId::from(format!("agente-{i}"));
        log.append(hecho(&agent.0), 0);
        cache.remember_open(&agent, &vec![]);
    }

    assert!(cache.len() <= 4, "quedaron {} shards abiertos con un tope de 4", cache.len());
    // Closing a shard forgets a handle and loses no data.
    assert_eq!(log.all_agents().len(), 20);
}

#[test]
fn un_shard_desalojado_se_reabre_con_sus_datos() {
    let mut log = EventLog::new();
    let mut cache = ShardCache::new(2);

    let seq = log.append(hecho("agente-0"), 0).seq;
    cache.remember_open(&AgentId::from("agente-0"), &vec![]);
    for i in 1..10 {
        let agent = AgentId::from(format!("agente-{i}"));
        log.append(hecho(&agent.0), 0);
        cache.remember_open(&agent, &vec![]);
    }
    assert!(!cache.contains(&AgentId::from("agente-0")));

    let recuperados =
        log.read_stream_for_agents(&vec![AgentId::from("agente-0")], &StreamId::from(STREAM));
    assert_eq!(recuperados.len(), 1);
    assert_eq!(recuperados[0].seq, seq);
}

#[test]
fn no_se_desaloja_un_shard_en_uso() {
    let mut cache = ShardCache::new(1);
    let ocupado = AgentId::from("ocupado");
    cache.remember_open(&ocupado, &vec![]);

    let busy = vec![ocupado.clone()];
    for i in 0..5 {
        let closed = cache.remember_open(&AgentId::from(format!("otro-{i}")), &busy);
        assert!(!closed.contains(&ocupado));
    }

    assert!(
        cache.contains(&ocupado),
        "un shard con un Arc vivo fuera del mapa no debe desalojarse"
    );
}

#[test]
fn the_oldest_idle_shard_is_closed_first() {
    assert_eq!(DEFAULT_MAX_OPEN_SHARDS, 256);
    let mut cache = ShardCache::new(2);
    for name in ["a", "b"] {
        assert!(cache.remember_open(&AgentId::from(name), &vec![]).is_empty());
    }
    let closed = cache.remember_open(&AgentId::from("c"), &vec![]);
    assert_eq!(closed, vec![AgentId::from("a")]);
    assert_eq!(cache.len(), 2);
}

#[test]
fn a_missing_event_is_not_found() {
    let mut db = db();
    db.append(fact("A", "s1")).unwrap();
    assert!(db.read(2).unwrap_err().to_string().starts_with("not found"));
    assert_eq!(db.last_seq().unwrap(), 1);
}

#[test]
fn streams_of_several_agents_come_in_order() {
    let mut db = db();
    for agent in ["B", "A", "B", "C", "A"] {
        db.append(fact(agent, "s")).unwrap();
    }
    db.append(fact("A", "other")).unwrap();
    let stream = StreamId::from("s");
    let seqs = |events: Vec<Event>| events.into_iter().map(|e| e.seq).collect::<Vec<_>>();

    assert_eq!(seqs(db.log().read_stream_all_agents(&stream)), vec![1, 2, 3, 4, 5]);
    let ab = vec![AgentId::from("A"), AgentId::from("B")];
    assert_eq!(seqs(db.log().read_stream_for_agents(&ab, &stream)), vec![1, 2, 3, 5]);
    // An agent that is listed twice is read twice.
    let twice = vec![AgentId::from("C"), AgentId::from("C")];
    assert_eq!(seqs(db.log().read_stream_for_agents(&twice, &stream)), vec![4, 4]);
}

#[test]
fn events_carry_the_time_of_the_clock() {
    let mut db = HiveDB::open_temp_with_clock(MockClock::at(1_000)).unwrap();
    let first = db.append(fact("A", "s")).unwrap();
    db.advance_clock_to(2_500);
    let second = db.append(fact("A", "s")).unwrap();
    assert_eq!(db.read(first).unwrap().timestamp, 1_000);
    assert_eq!(db.read(second).unwrap().timestamp, 2_500);
    assert_eq!(MockClock::default().now_ms(), 0);
}

#[test]
fn global_events_persist_the_counter() {
    assert!(!affects_global_projections(&EventKind::Fact));
    assert!(affects_global_projections(&EventKind::ConsentRevoked { grant_seq: 1 }));

    let mut log = EventLog::new();
    log.append(fact("A", "s"), 0);
    assert_eq!(log.global_checkpoint(), 0);
    let grant = EventInput::new("PM", "consent", EventKind::ConsentRevoked { grant_seq: 9 });
    assert_eq!(log.append(grant, 0).seq, 2);
    assert_eq!(log.global_checkpoint(), 2);
    assert_eq!(log.meta().next_seq, Some(3));
    assert!(!log.meta().clean_shutdown);
    log.flush_next_seq();
    assert_eq!(log.meta(), LogMeta { next_seq: Some(3), clean_shutdown: true });
}

#[test]
fn shard_files_name_their_agents() {
    assert_eq!(shard_file_name(&AgentId::from("swarmA:coordinator")), "swarmA:coordinator.redb");
    assert_eq!(
        census_agent("swarmA:coordinator", "redb"),
        Some(AgentId::from("swarmA:coordinator"))
    );
    assert_eq!(census_agent("_global", "redb"), None);
    assert_eq!(census_agent("A", "lock"), None);
}

#[test]
fn reopening_gives_back_the_same_log() {
    let mut db = db();
    for agent in ["B", "A", "B"] {
        db.append(fact(agent, "s")).unwrap();
    }
    let log = reopened(db.log(), &["s"], db.log().meta());
    assert_eq!(log.len(), 3);
    for seq in 1..=3 {
        assert_eq!(log.read(seq).unwrap(), db.read(seq).unwrap());
    }
    assert_eq!(log.project::<CurrentFacts>(), db.project::<CurrentFacts>().unwrap());
}

#[test]
fn persisted_projections_catch_up() {
    let mut log = EventLog::new();
    let step = |n: u64| {
        EventInput::new("A", "t", EventKind::StateTransition)
            .with_payload(json(&format!(r#"{{"step": {n}}}"#)))
    };
    for n in 1..=3 {
        log.append(step(n), 0);
    }
    let events = log.read_stream(&AgentId::from("A"), &StreamId::from("t"));
    let mut early = TaskState::initial_state();
    TaskState::apply(&mut early, &events[0]);
    let shard = AgentShard::open(
        events,
        Materialized::new(),
        Materialized::from_parts(early, 1),
        Materialized::new(),
    );
    let state = shard.tasks().state().get(&AgentId::from("A"), &StreamId::from("t"));
    assert_eq!(state, Some(&json(r#"{"step": 3}"#)));
    assert_eq!(shard.tasks().checkpoint(), 3);
    assert_eq!(shard.last_seq(), 3);
    assert_eq!(shard.read_event(2).unwrap().seq, 2);
    assert!(shard.read_event(4).is_none());
    let _: &Materialized<ConsentGraph> = log.consent();
}

#[test]
fn wrong_projections_are_wiped_and_rebuilt() {
    let mut log = EventLog::new();
    let agent = AgentId::from("A");
    let stream = StreamId::from("t");
    for n in 1..=2 {
        log.append(
            EventInput::new("A", "t", EventKind::StateTransition)
                .with_payload(json(&format!(r#"{{"step": {n}}}"#))),
            0,
        );
    }
    let events = log.read_stream(&agent, &stream);
    // The persisted task states claim to be current and are not.
    let mut wrong = TaskState::initial_state();
    TaskState::apply(&mut wrong, &events[0]);
    let mut shard = AgentShard::open(
        events.clone(),
        Materialized::new(),
        Materialized::from_parts(wrong, 9),
        Materialized::new(),
    );
    assert_eq!(shard.tasks().state().get(&agent, &stream), Some(&json(r#"{"step": 1}"#)));
    assert_eq!(shard.tasks().checkpoint(), 9);

    shard.wipe_and_rebuild_local();
    assert_eq!(shard.tasks().state().get(&agent, &stream), Some(&json(r#"{"step": 2}"#)));
    assert_eq!(shard.tasks().checkpoint(), 2);
    assert_eq!(shard.facts().checkpoint(), 2);
    assert_eq!(shard.ledger().checkpoint(), 2);
    assert_eq!(shard.iter_events(), &events);
}

#[test]
fn the_system_clock_tells_the_time() {
    assert_eq!(shown(Some(7)), 7);
    assert_eq!(shown(None), 0);
    let before = std::time::SystemTime::now()
        .duration_since(std::time::UNIX_EPOCH)
        .unwrap()
        .as_millis() as u64;
    let mut clock = SystemClock;
    clock.advance_clock_to(1);
    let now = clock.now_ms();
    assert!(now >= before && now - before < 60_000);

    let mut db = HiveDB::open_temp_with_clock(clock).unwrap();
    let seq = db.append(fact("A", "s")).unwrap();
    assert!(db.read(seq).unwrap().timestamp >= now);
}

#[test]
fn the_length_counts_events_even_where_the_counter_is_ahead() {
    let mut log = EventLog::new();
    log.append(fact("A", "s"), 0);
    log.append(fact("B", "s"), 0);
    assert_eq!(log.len(), 2);
    let meta = LogMeta { next_seq: Some(10), clean_shutdown: true };
    let mut log = reopened(&log, &["s"], meta);
    assert_eq!(log.last_seq(), 9);
    assert_eq!(log.len(), 2);
    assert_eq!(log.append(fact("A", "s"), 0).seq, 10);
    assert_eq!(log.len(), 3);
}

#[test]
fn appended_events_stay_readable_over_appends_and_reopening() {
    let mut log = EventLog::new();
    let kept = log.append(fact("A", "s").with_causation(7), 5);
    for agent in ["B", "A", "C"] {
        log.append(fact(agent, "s"), 6);
    }
    log.append(invalidate("A", kept.seq), 7);
    assert_eq!(log.read(kept.seq).unwrap(), kept);
    let log = reopened(&log, &["s", "default"], log.meta());
    assert_eq!(log.read(kept.seq).unwrap(), kept);
    assert_eq!(log.len(), 5);
    let events = log.read_for_agents(&vec![AgentId::from("C"), AgentId::from("A")]);
    assert_eq!(events.iter().map(|event| event.seq).collect::<Vec<_>>(), vec![1, 3, 4, 5]);
}
