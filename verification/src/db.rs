//! The database: the log with its projections, working memory, collections, the
//! search index and subscriptions behind one handle.

use crate::causal::{
    causal_of, law_threads_show_what_was_logged, leading_thread, replica_list, CausalModel,
    CausalThread,
};
use crate::clock::Clock;
use crate::collections::{
    batch_stops, page_view, read_view, scanned, unit_view, ColModel, ColOp, Collections, DocEntry,
    DocRow, PutOptions, ScanOptions,
};
use crate::context::{
    build_context, candidates, is_context, tokens_of, AgentContext, AgentContextRequest, Episode,
    EpisodeModel,
};
use crate::error::{ErrorModel, HiveError, HiveResult};
use crate::event::{
    AgentId, Event, EventInput, EventKind, EventModel, InputModel, KindModel, ScopeModel, StreamId,
};
use crate::index::error::{IndexError, IndexErrorModel};
use crate::index::hnsw::Placed;
use crate::index::semantic::{
    cleared, config_error, deleted, filtered_out, result_view, upserted, EngineReport,
    SemanticIndex, SemanticModel, Work, WorkModel,
};
use crate::index::types::{ConfigModel, DocModel, IndexDoc, ScalarFilter, VectorConfig};
use crate::json::{parse_json, parsed_json, refusal_of, Json, JsonModel};
use crate::log::{
    follows, in_seq_order, in_stream_of, is_history, law_one_event_per_seq,
    law_readings_are_exact, law_reopening_restores_events, times_listed, EventLog, LogMeta,
    LogModel, Registered,
};
use crate::lists::{lemma_occurrences_absent, occurrences};
use crate::memory::working::{
    is_live, pruned, EntryModel as WorkingEntryModel, WorkingMemory, WorkingModel,
};
use crate::projection::{fold, Projection};
use crate::reactive::{EngineModel, EventPattern, ReactiveEngine};
use crate::shard::{last_seq_of, of_stream, seqs_ascend, ShardModel};
use crate::sorted::Replica;
use crate::state::causal_thread::outcome_of;
use crate::state::consent_graph::{
    has_received, is_delegation, is_first_authorizing, is_revoked_after,
    law_grants_cover_their_scope_only, law_grants_replay_the_log, law_the_earliest_grant_is_found,
    makes_grant, ConsentGraph, Request,
};
use crate::state::tool_ledger::{StatsModel, ToolLedger, ToolStats};
use crate::text::{decimal, join2, join3, u64_text, usize_text, white_space, IntoText};
use vstd::prelude::*;

verus! {

/// Identity of the vectors that a base accepts.
#[derive(Clone, Debug, PartialEq)]
pub struct VectorOptions {
    pub dimension: usize,
    pub space_id: String,
}

impl VectorOptions {
    pub fn new<S: IntoText>(dimension: usize, space_id: S) -> (r: Self)
        ensures
            r.dimension == dimension,
            r.space_id@ == space_id.text(),
    {
        VectorOptions { dimension, space_id: space_id.into_text() }
    }
}

/// Options for opening a database.
#[derive(Clone, Debug)]
pub struct OpenOptions {
    /// The vectors that the search index accepts; none for text only.
    pub vector: Option<VectorOptions>,
}

/// The dimension of vectors where none is asked for.
pub const DEFAULT_VECTOR_DIMENSION: usize = 384;

/// The index configuration where none is asked for.
pub open spec fn usual_config() -> Option<ConfigModel> {
    Some(ConfigModel { dimension: DEFAULT_VECTOR_DIMENSION, space_id: "default"@ })
}

impl Default for OpenOptions {
    fn default() -> (r: Self)
        ensures
            config_of(r) == usual_config(),
    {
        OpenOptions { vector: Some(VectorOptions::new(DEFAULT_VECTOR_DIMENSION, "default")) }
    }
}

/// The index configuration that options ask for.
pub open spec fn config_of(options: OpenOptions) -> Option<ConfigModel> {
    match options.vector {
        Some(vector) => Some(
            ConfigModel { dimension: vector.dimension, space_id: vector.space_id@ },
        ),
        None => None,
    }
}

/// What the record of a base says about the dimension of its vectors, held against the
/// dimension that is asked for: an error, or nothing.
pub open spec fn dimension_error(raw: Seq<char>, requested: usize) -> Option<ErrorModel> {
    match parsed_json(raw) {
        Err(message) => Some(ErrorModel::InvalidInput("corrupt meta.json: "@ + message)),
        Ok(meta) => match meta.unsigned_field("vector_dimension"@) {
            None => Some(
                ErrorModel::InvalidInput("corrupt meta.json: missing vector_dimension"@),
            ),
            Some(stored) => if stored != requested {
                Some(
                    ErrorModel::InvalidInput(
                        "database was created with vector_dimension="@ + decimal(stored as nat)
                            + ", cannot reopen with vector_dimension="@ + decimal(
                            requested as nat,
                        ),
                    ),
                )
            } else {
                None
            },
        },
    }
}

/// Holds the dimension that is asked for against the record of a base. A base without
/// a record gets the text that is returned.
pub fn resolve_vector_dimension(raw: Option<&str>, requested: usize) -> (r: HiveResult<
    Option<String>,
>)
    ensures
        match raw {
            Some(raw) => match r {
                Ok(record) => dimension_error(raw@, requested) is None && record is None,
                Err(error) => dimension_error(raw@, requested) == Some(error.deep_view()),
            },
            None => match r {
                Ok(Some(record)) => record@ == "{\"vector_dimension\":"@ + decimal(
                    requested as nat,
                ) + "}"@,
                _ => false,
            },
        },
{
    match raw {
        Some(raw) => match parse_json(raw) {
            Ok(meta) => match meta.unsigned_field("vector_dimension") {
                Some(stored) => if stored != requested as u64 {
                    let head = join3(
                        "database was created with vector_dimension=",
                        u64_text(stored).as_str(),
                        ", cannot reopen with vector_dimension=",
                    );
                    Err(
                        HiveError::InvalidInput(
                            join2(head.as_str(), usize_text(requested).as_str()),
                        ),
                    )
                } else {
                    Ok(None)
                },
                None => Err(
                    HiveError::InvalidInput(
                        "corrupt meta.json: missing vector_dimension".to_owned(),
                    ),
                ),
            },
            Err(message) => Err(
                HiveError::InvalidInput(join2("corrupt meta.json: ", message.as_str())),
            ),
        },
        None => Ok(
            Some(join3("{\"vector_dimension\":", usize_text(requested).as_str(), "}")),
        ),
    }
}

/// An index error as an error of the engine.
pub open spec fn as_engine_error(error: IndexErrorModel) -> ErrorModel {
    ErrorModel::InvalidInput(error.message())
}

/// An index error as an error of the engine.
pub fn engine_error(error: &IndexError) -> (r: HiveError)
    ensures
        r.deep_view() == as_engine_error(error.deep_view()),
{
    HiveError::InvalidInput(error.to_string())
}

/// Result of an authorization check.
#[derive(Clone, Copy, Debug, PartialEq, Eq)]
pub struct Decision {
    allowed: bool,
    intent_log_seq: Option<u64>,
}

impl Decision {
    pub closed spec fn is_allowed(&self) -> bool {
        self.allowed
    }

    pub closed spec fn logged_at(&self) -> Option<u64> {
        self.intent_log_seq
    }

    /// True if the action is authorized.
    pub fn allowed(&self) -> (r: bool)
        ensures
            r == self.is_allowed(),
    {
        self.allowed
    }

    /// Sequence number of the `IntentLogged` event recording this decision.
    pub fn intent_log_seq(&self) -> (r: Option<u64>)
        ensures
            r == self.logged_at(),
    {
        self.intent_log_seq
    }
}


/// What a database holds.
#[verifier::ext_equal]
pub struct DbModel {
    pub log: LogModel,
    pub working: WorkingModel,
    pub semantic: SemanticModel,
    pub collections: ColModel,
    pub reactive: EngineModel,
    /// Events that wait to be delivered to subscriptions.
    pub outbox: Seq<(u64, EventModel)>,
}

/// An event for each of several subscriptions.
pub open spec fn deliveries(ids: Seq<u64>, event: EventModel) -> Seq<(u64, EventModel)> {
    Seq::new(ids.len(), |i: int| (ids[i], event))
}

/// A database is what another one becomes when an input is appended: the event is in
/// the log, stamped with the time of the clock, and goes to the subscriptions that it
/// fits.
pub open spec fn is_append(
    before: DbModel,
    after: DbModel,
    input: InputModel,
    frozen_at: Option<u64>,
    event: EventModel,
    ids: Seq<u64>,
) -> bool {
    &&& event == input.event(before.log.next_seq, event.timestamp)
    &&& frozen_at is Some ==> event.timestamp == frozen_at->0
    &&& follows(before.log, after.log, event)
    &&& ids.no_duplicates()
    &&& forall|id: u64| #[trigger] ids.contains(id) <==> before.reactive.delivers(id, event)
    &&& after == (DbModel {
        log: after.log,
        outbox: before.outbox + deliveries(ids, event),
        ..before
    })
}

/// One database becomes another by an append.
pub open spec fn is_appended(
    before: DbModel,
    after: DbModel,
    input: InputModel,
    event: EventModel,
) -> bool {
    exists|frozen_at: Option<u64>, ids: Seq<u64>| #[trigger]
        is_append(before, after, input, frozen_at, event, ids)
}

/// A run of appends, whichever agents and streams write: each database becomes the next
/// by one of the inputs.
pub open spec fn is_run(
    dbs: Seq<DbModel>,
    inputs: Seq<InputModel>,
    events: Seq<EventModel>,
) -> bool {
    &&& dbs.len() == events.len() + 1
    &&& inputs.len() == events.len()
    &&& forall|i: int|
        0 <= i < events.len() ==> is_appended(dbs[i], dbs[i + 1], inputs[i], #[trigger] events[i])
}

/// Sequence numbers rise by one with every append, whoever appends: the `i`-th event of
/// a run gets the `i`-th number after the last one that was assigned before, and holds
/// what was handed in. A database without events starts at one.
pub proof fn law_seqs_rise_by_one(
    dbs: Seq<DbModel>,
    inputs: Seq<InputModel>,
    events: Seq<EventModel>,
    i: int,
)
    requires
        is_run(dbs, inputs, events),
        0 <= i < events.len(),
    ensures
        events[i].seq == dbs[0].log.next_seq + i,
        events[i] == inputs[i].event(events[i].seq, events[i].timestamp),
        dbs[i + 1].log.next_seq - 1 == events[i].seq,
        forall|config: Option<ConfigModel>|
            dbs[0].log == (#[trigger] blank_db(config)).log ==> events[i].seq == i + 1,
{
    lemma_run(dbs, inputs, events, i + 1);
    lemma_run(dbs, inputs, events, i);
    assert(is_appended(dbs[i], dbs[i + 1], inputs[i], events[i]));
}

proof fn lemma_run(dbs: Seq<DbModel>, inputs: Seq<InputModel>, events: Seq<EventModel>, n: int)
    requires
        is_run(dbs, inputs, events),
        0 <= n <= events.len(),
    ensures
        dbs[n].log.next_seq == dbs[0].log.next_seq + n,
        dbs[n].log.history == dbs[0].log.history + events.take(n),
        seqs_ascend(dbs[0].log.history) && last_seq_of(
            dbs[0].log.history,
        ) < dbs[0].log.next_seq ==> seqs_ascend(dbs[n].log.history)
            && last_seq_of(dbs[n].log.history) < dbs[n].log.next_seq,
    decreases n,
{
    if n == 0 {
        assert(dbs[0].log.history + events.take(0) =~= dbs[0].log.history);
    } else {
        lemma_run(dbs, inputs, events, n - 1);
        assert(is_appended(dbs[n - 1], dbs[n], inputs[n - 1], events[n - 1]));
        let before = dbs[n - 1].log.history;
        let after = dbs[n].log.history;
        assert(after == before.push(events[n - 1]));
        assert(dbs[0].log.history + events.take(n) =~= before.push(events[n - 1]));
        if seqs_ascend(before) && last_seq_of(before)
            < dbs[n - 1].log.next_seq {
            assert forall|x: int, y: int| 0 <= x < y < after.len() implies (#[trigger] after[x]).seq
                < (#[trigger] after[y]).seq by {
                if y == before.len() && x < before.len() - 1 {
                    assert(before[x].seq < before[before.len() - 1].seq);
                }
            }
        }
    }
}

/// An appended event stays readable and unchanged: after any later appends it is the one
/// event under its sequence number, and so it is in a log that is opened from the
/// shards that hold the events.
pub proof fn law_appended_events_stay_readable(
    dbs: Seq<DbModel>,
    inputs: Seq<InputModel>,
    events: Seq<EventModel>,
    i: int,
    shards: Seq<(Seq<char>, ShardModel)>,
    restored: Seq<EventModel>,
    found: EventModel,
)
    requires
        seqs_ascend(dbs[0].log.history),
        last_seq_of(dbs[0].log.history) < dbs[0].log.next_seq,
        is_run(dbs, inputs, events),
        0 <= i < events.len(),
    ensures
        dbs.last().log.history.contains(events[i]),
        dbs.last().log.history.contains(found) && found.seq == events[i].seq ==> found == events[i],
        is_history(dbs.last().log.history, shards) && is_history(restored, shards) ==> {
            &&& restored.contains(events[i])
            &&& restored.contains(found) && found.seq == events[i].seq ==> found == events[i]
        },
{
    let n = events.len() as int;
    let history = dbs[n].log.history;
    lemma_run(dbs, inputs, events, n);
    assert(history[dbs[0].log.history.len() + i] == events[i]);
    if history.contains(found) && found.seq == events[i].seq {
        law_one_event_per_seq(history, found, events[i]);
    }
    if is_history(history, shards) && is_history(restored, shards) {
        law_reopening_restores_events(history, restored, shards);
    }
}

/// Puts an event into the outbox for each of several subscriptions.
fn address(outbox: &mut Vec<(u64, Event)>, ids: &Vec<u64>, event: &Event)
    ensures
        final(outbox).deep_view() == old(outbox).deep_view() + deliveries(ids@, event.deep_view()),
{
    let ghost base = outbox.deep_view();
    let ghost more = deliveries(ids@, event.deep_view());
    let mut i: usize = 0;
    assert(base + more.take(0) =~= base);
    while i < ids.len()
        invariant
            i <= ids.len(),
            more == deliveries(ids@, event.deep_view()),
            outbox.deep_view() == base + more.take(i as int),
        decreases ids.len() - i,
    {
        let ghost was = outbox.deep_view();
        outbox.push((ids[i], event.replica()));
        assert(outbox.deep_view() =~= was.push(more[i as int]));
        assert(was.push(more[i as int]) =~= base + more.take(i + 1));
        i += 1;
    }
    assert(more.take(i as int) =~= more);
}

/// The intent that an authorization check logs.
pub open spec fn intent_of(
    agent: Seq<char>,
    action: Seq<char>,
    resource: Seq<char>,
    authorized_by: Option<u64>,
) -> InputModel {
    InputModel {
        agent_id: agent,
        stream_id: "consent"@,
        kind: KindModel::IntentLogged {
            actor: agent,
            intent: action + ":"@ + resource,
            authorized_by,
        },
        causation: None,
        correlation: None,
        payload: JsonModel::Null,
    }
}

/// `found` is what the grants in force at `now` say about a request.
pub open spec fn is_verdict(
    before: DbModel,
    agent: Seq<char>,
    action: Seq<char>,
    resource: Seq<char>,
    now: u64,
    found: Option<u64>,
) -> bool {
    is_first_authorizing(
        fold::<ConsentGraph>(before.log.history),
        found,
        agent,
        set![agent],
        Request { scope: ScopeModel { action, resource }, now },
    )
}

/// Public handle to a database.
///
/// All writes to the log happen through [`HiveDB::append`]; the log is immutable once an
/// event receives a `seq`.
pub struct HiveDB<C: Clock> {
    log: EventLog,
    working: WorkingMemory,
    semantic: SemanticIndex,
    collections: Collections,
    reactive: ReactiveEngine,
    outbox: Vec<(u64, Event)>,
    clock: C,
}

impl<C: Clock> DeepView for HiveDB<C> {
    type V = DbModel;

    closed spec fn deep_view(&self) -> DbModel {
        DbModel {
            log: self.log.deep_view(),
            working: self.working.deep_view(),
            semantic: self.semantic.deep_view(),
            collections: self.collections.deep_view(),
            reactive: self.reactive.deep_view(),
            outbox: self.outbox.deep_view(),
        }
    }
}

/// What a database holds before anything was stored.
pub open spec fn blank_db(config: Option<ConfigModel>) -> DbModel {
    DbModel {
        log: LogModel {
            history: Seq::empty(),
            agents: Seq::empty(),
            next_seq: 1,
            global_checkpoint: 0,
            meta: LogMeta { next_seq: Some(1), clean_shutdown: false },
        },
        working: Map::empty(),
        semantic: (SemanticModel {
            docs: Map::empty(),
            generation: 0,
            config,
            tokens: Map::empty(),
            graph: None,
            derived: 0,
        }).rebuilt(),
        collections: ColModel::empty(),
        reactive: EngineModel { subscribers: Map::empty(), next_id: 1 },
        outbox: Seq::empty(),
    }
}

impl<C: Clock> HiveDB<C> {
    pub closed spec fn wf(&self) -> bool {
        &&& self.log.wf()
        &&& self.semantic.deep_view().is_valid()
        &&& self.collections.wf()
        &&& self.reactive.deep_view().is_valid()
    }

    /// The time source of the database.
    pub closed spec fn time_source(&self) -> C {
        self.clock
    }

    /// In every state the parts of a database are valid.
    pub proof fn law_parts_are_valid(&self)
        requires
            self.wf(),
        ensures
            self.deep_view().semantic.is_valid(),
            self.deep_view().collections.is_consistent(),
            self.deep_view().reactive.is_valid(),
            seqs_ascend(self.deep_view().log.history),
            last_seq_of(self.deep_view().log.history)
                < self.deep_view().log.next_seq,
    {
        self.log.law_log_in_order();
        self.collections.law_unique_indexes_hold();
    }

    /// Open a database from its stored parts.
    pub fn from_parts(
        log: EventLog,
        collections: Collections,
        semantic: SemanticIndex,
        clock: C,
    ) -> (r: Self)
        requires
            log.wf(),
            collections.wf(),
            semantic.deep_view().is_valid(),
        ensures
            r.wf(),
            r.time_source() == clock,
            r.deep_view() == (DbModel {
                log: log.deep_view(),
                working: Map::empty(),
                semantic: semantic.deep_view(),
                collections: collections.deep_view(),
                reactive: EngineModel { subscribers: Map::empty(), next_id: 1 },
                outbox: Seq::empty(),
            }),
    {
        let outbox: Vec<(u64, Event)> = Vec::new();
        assert(outbox.deep_view() =~= Seq::empty());
        HiveDB {
            log,
            working: WorkingMemory::new(),
            semantic,
            collections,
            reactive: ReactiveEngine::new(),
            outbox,
            clock,
        }
    }

    /// Open a temporary database with an explicit clock source and options.
    pub fn open_temp_with_clock_and_options(clock: C, options: OpenOptions) -> (r: HiveResult<Self>)
        ensures
            match r {
                Ok(db) => {
                    &&& config_error(config_of(options)) is None
                    &&& db.wf()
                    &&& db.time_source() == clock
                    &&& db.deep_view() == blank_db(config_of(options))
                },
                Err(error) => config_error(config_of(options)) is Some && error.deep_view()
                    == as_engine_error(config_error(config_of(options))->0),
            },
    {
        let ghost config = config_of(options);
        let vector_config: Option<VectorConfig> = match options.vector {
            Some(vector) => Some(
                VectorConfig { dimension: vector.dimension, space_id: vector.space_id },
            ),
            None => None,
        };
        assert(vector_config.deep_view() == config);
        let documents: Vec<IndexDoc> = Vec::new();
        assert(documents.deep_view() =~= Seq::empty());
        match SemanticIndex::open(vector_config, documents, 0) {
            Ok((semantic, placed)) => {
                let db = Self::from_parts(EventLog::new(), Collections::new(), semantic, clock);
                assert(db.deep_view().semantic =~= blank_db(config_of(options)).semantic);
                Ok(db)
            },
            Err(error) => Err(engine_error(&error)),
        }
    }

    /// Open a temporary database with an explicit clock source.
    pub fn open_temp_with_clock(clock: C) -> (r: HiveResult<Self>)
        ensures
            match r {
                Ok(db) => db.wf() && db.time_source() == clock && db.deep_view() == blank_db(
                    usual_config(),
                ),
                Err(_) => false,
            },
    {
        proof {
            reveal_strlit("default");
            assert(!white_space("default"@[0]));
        }
        Self::open_temp_with_clock_and_options(clock, OpenOptions::default())
    }

    /// Advance the clock to `timestamp_ms`.
    ///
    /// For test clocks this moves time forward. For the system clock it is a no-op.
    pub fn advance_clock_to(&mut self, timestamp_ms: u64)
        requires
            old(self).wf(),
            old(self).time_source().can_reach(timestamp_ms),
        ensures
            final(self).wf(),
            final(self).deep_view() == old(self).deep_view(),
            old(self).time_source().frozen_at() is Some
                ==> final(self).time_source().frozen_at() == Some(timestamp_ms),
            old(self).time_source().frozen_at() is None
                ==> final(self).time_source().frozen_at() is None,
    {
        self.clock.advance_clock_to(timestamp_ms);
    }

    /// Append a new event to the log.
    ///
    /// Returns the engine-assigned global sequence number. The event waits in the outbox
    /// for every subscription that it fits.
    pub fn append(&mut self, input: EventInput) -> (r: HiveResult<u64>)
        requires
            old(self).wf(),
            forall|timestamp: u64| #[trigger]
                old(self).deep_view().log.can_append(input.deep_view(), timestamp),
        ensures
            final(self).wf(),
            final(self).time_source() == old(self).time_source(),
            r is Ok,
            exists|event: EventModel, ids: Seq<u64>| #[trigger]
                is_append(
                    old(self).deep_view(),
                    final(self).deep_view(),
                    input.deep_view(),
                    old(self).time_source().frozen_at(),
                    event,
                    ids,
                ) && r->Ok_0 == event.seq,
            r->Ok_0 == old(self).deep_view().log.next_seq,
            final(self).deep_view().log.next_seq == r->Ok_0 + 1,
    {
        let ghost before = self.deep_view();
        let ghost what = input.deep_view();
        let timestamp: u64 = self.clock.now_ms();
        assert(self.log.deep_view().can_append(what, timestamp));
        let event = self.log.append(input, timestamp);
        let ids = self.reactive.dispatch(&event);
        address(&mut self.outbox, &ids, &event);
        assert(is_append(
            before,
            self.deep_view(),
            what,
            old(self).time_source().frozen_at(),
            event.deep_view(),
            ids@,
        ));
        Ok(event.seq)
    }

    /// Returns true if `agent` is authorized to perform `action` on `resource`
    /// according to the current consent graph.
    ///
    /// This method appends an `IntentLogged` event to the log for audit purposes. The
    /// returned `Decision` contains the sequence number of that event, which names the
    /// grant that authorized it.
    pub fn can<A: IntoText, B: IntoText, D: IntoText>(
        &mut self,
        agent: A,
        action: B,
        resource: D,
    ) -> (r: HiveResult<Decision>)
        requires
            old(self).wf(),
            old(self).deep_view().log.next_seq < u64::MAX,
        ensures
            final(self).wf(),
            final(self).time_source() == old(self).time_source(),
            r is Ok,
            exists|now: u64, found: Option<u64>, event: EventModel, ids: Seq<u64>|
                #[trigger] is_verdict(
                    old(self).deep_view(),
                    agent.text(),
                    action.text(),
                    resource.text(),
                    now,
                    found,
                ) && #[trigger] is_append(
                    old(self).deep_view(),
                    final(self).deep_view(),
                    intent_of(agent.text(), action.text(), resource.text(), found),
                    old(self).time_source().frozen_at(),
                    event,
                    ids,
                ) && (old(self).time_source().frozen_at() is Some ==> now == old(
                    self,
                ).time_source().frozen_at()->0) && r->Ok_0.is_allowed() == (found is Some)
                    && r->Ok_0.logged_at() == Some(event.seq),
    {
        let ghost before = self.deep_view();
        let agent = AgentId(agent.into_text());
        let action = action.into_text();
        let resource = resource.into_text();
        let now: u64 = self.clock.now_ms();
        let authorized_by = self.log.grants().find_active_grant(
            &agent,
            action.as_str(),
            resource.as_str(),
            now,
        );
        let ghost who = agent.deep_view();
        let kind = EventKind::IntentLogged {
            actor: agent.replica(),
            intent: join3(action.as_str(), ":", resource.as_str()),
            authorized_by,
        };
        let input = EventInput::new(agent, "consent", kind);
        proof {
            assert(input.deep_view() =~= intent_of(who, action@, resource@, authorized_by));
            assert forall|timestamp: u64| #[trigger]
                self.deep_view().log.can_append(input.deep_view(), timestamp) by {
                self.log.lemma_can_append(input.deep_view(), timestamp);
            }
            assert(is_verdict(before, who, action@, resource@, now, authorized_by));
        }
        let intent_seq = self.append(input)?;
        Ok(
            Decision { allowed: authorized_by.is_some(), intent_log_seq: Some(intent_seq) },
        )
    }
}


/// The state of a database with new stored documents.
pub open spec fn with_index(before: DbModel, semantic: SemanticModel) -> DbModel {
    DbModel { semantic, ..before }
}

/// A result in terms of models.
pub open spec fn work_view(result: HiveResult<Work>) -> Result<WorkModel, ErrorModel> {
    match result {
        Ok(work) => Ok(work.deep_view()),
        Err(error) => Err(error.deep_view()),
    }
}

/// The result of a change to the index, as a result of the engine.
pub open spec fn engine_result(result: Result<WorkModel, IndexErrorModel>) -> Result<
    WorkModel,
    ErrorModel,
> {
    match result {
        Ok(work) => Ok(work),
        Err(error) => Err(as_engine_error(error)),
    }
}

fn to_engine(result: Result<Work, IndexError>) -> (r: HiveResult<Work>)
    ensures
        work_view(r) == engine_result(result_view(result)),
{
    match result {
        Ok(work) => Ok(work),
        Err(error) => Err(engine_error(&error)),
    }
}

/// The causal thread of a task.
pub open spec fn task_thread(log: LogModel, task: Seq<char>) -> CausalModel {
    causal_of(leading_thread(log.history.filter(of_stream(task))))
}

/// The episodes that a context takes in: none where they are not asked for.
pub open spec fn episodes_used(request: AgentContextRequest, episodes: Seq<EpisodeModel>) -> Seq<
    EpisodeModel,
> {
    if request.strategy.episodic_similarity is Some {
        episodes
    } else {
        Seq::empty()
    }
}

/// The ledger's entry for a tool.
pub open spec fn stats_in(ledger: Map<Seq<char>, StatsModel>, tool: Seq<char>) -> Option<StatsModel> {
    if ledger.contains_key(tool) {
        Some(ledger[tool])
    } else {
        None
    }
}

impl<C: Clock> HiveDB<C> {
    /// Read a single event by sequence number.
    pub fn read(&self, seq: u64) -> (r: HiveResult<Event>)
        requires
            self.wf(),
        ensures
            match r {
                Ok(event) => event.seq == seq && self.deep_view().log.history.contains(
                    event.deep_view(),
                ),
                Err(error) => !self.deep_view().log.has_seq(seq) && error.deep_view()
                    == ErrorModel::NotFound("event seq="@ + decimal(seq as nat)),
            },
            forall|event: EventModel| #[trigger]
                self.deep_view().log.history.contains(event) && event.seq == seq ==> r is Ok
                    && r->Ok_0.deep_view() == event,
    {
        self.log.read(seq)
    }

    /// Query the current state of a projection.
    pub fn project<P: Registered>(&self) -> (r: HiveResult<P::State>)
        requires
            self.wf(),
            P::fits(P::across(self.deep_view().log, self.deep_view().log.agents)),
        ensures
            r is Ok,
            r->Ok_0.deep_view() == P::across(self.deep_view().log, self.deep_view().log.agents),
    {
        Ok(self.log.project::<P>())
    }

    /// Query the current state of a projection, restricted to a list of agents.
    pub fn project_for_agents<P: Registered>(&self, agents: &Vec<AgentId>) -> (r: HiveResult<
        P::State,
    >)
        requires
            self.wf(),
            P::fits(P::across(self.deep_view().log, agents.deep_view())),
        ensures
            r is Ok,
            r->Ok_0.deep_view() == P::across(self.deep_view().log, agents.deep_view()),
    {
        Ok(self.log.project_for_agents::<P>(agents))
    }

    /// Returns the last sequence number applied to a projection.
    pub fn projection_checkpoint<P: Registered>(&self) -> (r: HiveResult<u64>)
        requires
            self.wf(),
        ensures
            r is Ok,
            r->Ok_0 == P::checkpoint_in(self.deep_view().log),
    {
        Ok(self.log.projection_checkpoint::<P>())
    }

    /// Returns aggregated statistics for a tool, if any `ToolCall` events have been
    /// recorded for it.
    pub fn tool_stats(&self, tool: &str) -> (r: HiveResult<Option<ToolStats>>)
        requires
            self.wf(),
            ToolLedger::fits(
                ToolLedger::across(self.deep_view().log, self.deep_view().log.agents),
            ),
        ensures
            r is Ok,
            r->Ok_0.deep_view() == stats_in(
                ToolLedger::across(self.deep_view().log, self.deep_view().log.agents),
                tool@,
            ),
    {
        let state = self.log.project::<ToolLedger>();
        match state.get(tool) {
            Some(stats) => Ok(Some(stats.replica())),
            None => Ok(None),
        }
    }

    /// Returns aggregated statistics for a tool over a list of agents.
    pub fn tool_stats_for_agents(&self, tool: &str, agents: &Vec<AgentId>) -> (r: HiveResult<
        Option<ToolStats>,
    >)
        requires
            self.wf(),
            ToolLedger::fits(ToolLedger::across(self.deep_view().log, agents.deep_view())),
        ensures
            r is Ok,
            r->Ok_0.deep_view() == stats_in(
                ToolLedger::across(self.deep_view().log, agents.deep_view()),
                tool@,
            ),
    {
        let state = self.log.project_for_agents::<ToolLedger>(agents);
        match state.get(tool) {
            Some(stats) => Ok(Some(stats.replica())),
            None => Ok(None),
        }
    }

    /// Build the causal thread for a given stream.
    pub fn causal_thread<S: IntoText>(&self, stream_id: S) -> (r: HiveResult<CausalThread>)
        requires
            self.wf(),
        ensures
            r is Ok,
            r->Ok_0.deep_view() == causal_of(
                leading_thread(
                    self.deep_view().log.history.filter(of_stream(stream_id.text())),
                ),
            ),
    {
        let events = self.log.read_stream_all_agents(&StreamId(stream_id.into_text()));
        Ok(CausalThread::from_events(&events))
    }

    /// Build the causal thread for a given stream from the events of a list of agents.
    pub fn causal_thread_for_agents<S: IntoText>(
        &self,
        stream_id: S,
        agents: &Vec<AgentId>,
    ) -> (r: HiveResult<CausalThread>)
        requires
            self.wf(),
        ensures
            r is Ok,
            exists|events: Seq<EventModel>| #[trigger]
                is_reading(self.deep_view().log, agents.deep_view(), stream_id.text(), events)
                    && r->Ok_0.deep_view() == causal_of(leading_thread(events)),
    {
        let ghost stream = stream_id.text();
        let events = self.log.read_stream_for_agents(agents, &StreamId(stream_id.into_text()));
        assert(is_reading(
            self.deep_view().log,
            agents.deep_view(),
            stream,
            events.deep_view(),
        ));
        Ok(CausalThread::from_events(&events))
    }

    /// Build an adaptive, token-bounded context window for the current task, with the
    /// past episodes that resemble it.
    pub fn build_agent_context(
        &self,
        request: &AgentContextRequest,
        similar_episodes: Vec<Episode>,
    ) -> (r: HiveResult<AgentContext>)
        requires
            self.wf(),
        ensures
            r is Ok,
            exists|n: int| #[trigger]
                is_context(
                    r->Ok_0,
                    candidates(
                        task_thread(self.deep_view().log, request.task_id@),
                        *request,
                        episodes_used(*request, similar_episodes.deep_view()),
                    ),
                    episodes_used(*request, similar_episodes.deep_view()),
                    request.max_tokens,
                    n,
                ),
            tokens_of(r->Ok_0.items.deep_view()) <= request.max_tokens,
    {
        let thread = self.causal_thread(request.task_id.as_str())?;
        let ghost used = episodes_used(*request, similar_episodes.deep_view());
        let ghost model = task_thread(self.deep_view().log, request.task_id@);
        assert(thread.deep_view() == model);
        let episodes: Vec<Episode> = if request.strategy.episodic_similarity.is_some() {
            similar_episodes
        } else {
            Vec::new()
        };
        assert(episodes.deep_view() =~= used);
        let context = build_context(&thread, request, episodes);
        proof {
            let n = choose|n: int| #[trigger]
                is_context(
                    context,
                    candidates(thread.deep_view(), *request, episodes.deep_view()),
                    episodes.deep_view(),
                    request.max_tokens,
                    n,
                );
            assert(is_context(
                context,
                candidates(model, *request, used),
                used,
                request.max_tokens,
                n,
            ));
        }
        let r: HiveResult<AgentContext> = Ok(context);
        assert(r->Ok_0 == context);
        assert(exists|n: int| #[trigger]
                is_context(
                    r->Ok_0,
                    candidates(
                        task_thread(self.deep_view().log, request.task_id@),
                        *request,
                        used,
                    ),
                    used,
                    request.max_tokens,
                    n,
                ));
        r
    }

    /// Number of events currently stored in the log.
    pub fn log_len(&self) -> (r: HiveResult<u64>)
        requires
            self.wf(),
        ensures
            r is Ok,
            r->Ok_0 == self.deep_view().log.history.len(),
    {
        Ok(self.log.len())
    }

    /// Returns the highest assigned sequence number, or 0 if the log is empty.
    pub fn last_seq(&self) -> (r: HiveResult<u64>)
        requires
            self.wf(),
        ensures
            r is Ok,
            r->Ok_0 == self.deep_view().log.next_seq - 1,
    {
        Ok(self.log.last_seq())
    }

    /// Read all events for a given agent/stream in ascending order.
    pub fn read_stream(&self, agent_id: &AgentId, stream_id: &StreamId) -> (r: HiveResult<
        Vec<Event>,
    >)
        requires
            self.wf(),
        ensures
            r is Ok,
            r->Ok_0.deep_view() == self.deep_view().log.shard(agent_id.deep_view()).filter(
                of_stream(stream_id.deep_view()),
            ),
    {
        Ok(self.log.read_stream(agent_id, stream_id))
    }

    /// Wipe all materialized projection state and rebuild it from the log.
    pub fn wipe_projections_and_rebuild(&mut self) -> (r: HiveResult<()>)
        requires
            old(self).wf(),
        ensures
            final(self).wf(),
            final(self).time_source() == old(self).time_source(),
            r is Ok,
            final(self).deep_view() == (DbModel {
                log: LogModel {
                    global_checkpoint: (old(self).deep_view().log.next_seq - 1) as u64,
                    ..old(self).deep_view().log
                },
                ..old(self).deep_view()
            }),
    {
        self.log.wipe_projections_and_rebuild();
        Ok(())
    }

    /// Flushes the next sequence number, so that the next opening need not scan every
    /// shard.
    pub fn close(&mut self)
        requires
            old(self).wf(),
        ensures
            final(self).wf(),
            final(self).deep_view() == (DbModel {
                log: LogModel {
                    meta: LogMeta {
                        next_seq: Some(old(self).deep_view().log.next_seq),
                        clean_shutdown: true,
                    },
                    ..old(self).deep_view().log
                },
                ..old(self).deep_view()
            }),
    {
        self.log.flush_next_seq();
    }

    /// The log of the database.
    pub fn log(&self) -> (r: &EventLog)
        requires
            self.wf(),
        ensures
            r.wf(),
            r.deep_view() == self.deep_view().log,
    {
        &self.log
    }

    /// Subscribe to a pattern of events.
    pub fn subscribe(&mut self, pattern: EventPattern) -> (r: u64)
        requires
            old(self).wf(),
            old(self).deep_view().reactive.next_id < u64::MAX,
        ensures
            final(self).wf(),
            final(self).time_source() == old(self).time_source(),
            r == old(self).deep_view().reactive.next_id,
            final(self).deep_view() == (DbModel {
                reactive: EngineModel {
                    subscribers: old(self).deep_view().reactive.subscribers.insert(
                        r,
                        pattern.deep_view(),
                    ),
                    next_id: (r + 1) as u64,
                },
                ..old(self).deep_view()
            }),
    {
        self.reactive.subscribe(pattern)
    }

    /// End a subscription.
    pub fn cancel(&mut self, id: u64)
        requires
            old(self).wf(),
        ensures
            final(self).wf(),
            final(self).time_source() == old(self).time_source(),
            final(self).deep_view() == (DbModel {
                reactive: EngineModel {
                    subscribers: old(self).deep_view().reactive.subscribers.remove(id),
                    ..old(self).deep_view().reactive
                },
                ..old(self).deep_view()
            }),
    {
        self.reactive.cancel(id);
    }

    /// Takes the events that wait to be delivered, in the order of their append.
    pub fn take_outbox(&mut self) -> (r: Vec<(u64, Event)>)
        requires
            old(self).wf(),
        ensures
            final(self).wf(),
            final(self).time_source() == old(self).time_source(),
            r.deep_view() == old(self).deep_view().outbox,
            final(self).deep_view() == (DbModel { outbox: Seq::empty(), ..old(self).deep_view() }),
    {
        let mut taken: Vec<(u64, Event)> = Vec::new();
        std::mem::swap(&mut taken, &mut self.outbox);
        assert(self.outbox.deep_view() =~= Seq::empty());
        taken
    }

    /// Store a value in working memory with an optional lifetime. Times are milliseconds
    /// of a clock that does not go back.
    pub fn working_set<A: IntoText, K: IntoText>(
        &mut self,
        agent_id: A,
        key: K,
        value: Json,
        ttl: Option<u64>,
        now: u64,
    )
        requires
            old(self).wf(),
            ttl is Some ==> now + ttl->0 <= u64::MAX,
        ensures
            final(self).wf(),
            final(self).time_source() == old(self).time_source(),
            final(self).deep_view() == (DbModel {
                working: old(self).deep_view().working.insert(
                    (agent_id.text(), key.text()),
                    WorkingEntryModel {
                        value: value.deep_view(),
                        expires_at: match ttl {
                            Some(span) => Some((now + span) as u64),
                            None => None,
                        },
                    },
                ),
                ..old(self).deep_view()
            }),
            forall|then: u64| #[trigger]
                is_live(
                    final(self).deep_view().working,
                    agent_id.text(),
                    key.text(),
                    then,
                ) <==> (ttl is None || then <= now + ttl->0),
    {
        self.working.set(AgentId(agent_id.into_text()), key.into_text(), value, ttl, now);
    }

    /// Retrieve a value from working memory, returning `None` if expired.
    pub fn working_get<A: IntoText>(&mut self, agent_id: A, key: &str, now: u64) -> (r: Option<Json>)
        requires
            old(self).wf(),
        ensures
            final(self).wf(),
            final(self).time_source() == old(self).time_source(),
            match r {
                Some(value) => is_live(old(self).deep_view().working, agent_id.text(), key@, now)
                    && value.deep_view() == old(self).deep_view().working[(
                    agent_id.text(),
                    key@,
                )].value,
                None => !is_live(old(self).deep_view().working, agent_id.text(), key@, now),
            },
            final(self).deep_view() == (DbModel {
                working: if is_live(old(self).deep_view().working, agent_id.text(), key@, now) {
                    old(self).deep_view().working
                } else {
                    old(self).deep_view().working.remove((agent_id.text(), key@))
                },
                ..old(self).deep_view()
            }),
    {
        self.working.get(&AgentId(agent_id.into_text()), key, now)
    }

    /// Return all non-expired keys for an agent, each once, in no particular order, and
    /// remove the agent's expired entries.
    pub fn working_keys<A: IntoText>(&mut self, agent_id: A, now: u64) -> (r: Vec<String>)
        requires
            old(self).wf(),
        ensures
            final(self).wf(),
            final(self).time_source() == old(self).time_source(),
            r.deep_view().no_duplicates(),
            forall|key: Seq<char>| #[trigger]
                r.deep_view().contains(key) <==> is_live(
                    old(self).deep_view().working,
                    agent_id.text(),
                    key,
                    now,
                ),
            final(self).deep_view() == (DbModel {
                working: pruned(old(self).deep_view().working, agent_id.text(), now),
                ..old(self).deep_view()
            }),
    {
        self.working.keys(&AgentId(agent_id.into_text()), now)
    }

    /// The search index of the database.
    pub fn semantic(&self) -> (r: &SemanticIndex)
        requires
            self.wf(),
        ensures
            r.deep_view() == self.deep_view().semantic,
            r.deep_view().is_valid(),
    {
        &self.semantic
    }

    /// Insert or replace a document in the semantic index.
    pub fn upsert_doc(&mut self, doc: &IndexDoc, report: &EngineReport) -> (r: HiveResult<Work>)
        requires
            old(self).wf(),
        ensures
            final(self).wf(),
            final(self).time_source() == old(self).time_source(),
            ({
                let settled = upserted(
                    old(self).deep_view().semantic,
                    seq![doc.deep_view()],
                    *report,
                );
                &&& final(self).deep_view() == with_index(old(self).deep_view(), settled.model)
                &&& work_view(r) == engine_result(settled.result)
            }),
    {
        to_engine(self.semantic.upsert(doc, report))
    }

    /// Insert or replace a batch of documents under a single commit.
    pub fn upsert_batch(&mut self, docs: &Vec<IndexDoc>, report: &EngineReport) -> (r: HiveResult<
        Work,
    >)
        requires
            old(self).wf(),
        ensures
            final(self).wf(),
            final(self).time_source() == old(self).time_source(),
            ({
                let settled = upserted(
                    old(self).deep_view().semantic,
                    docs.deep_view(),
                    *report,
                );
                &&& final(self).deep_view() == with_index(old(self).deep_view(), settled.model)
                &&& work_view(r) == engine_result(settled.result)
            }),
    {
        to_engine(self.semantic.upsert_batch(docs, report))
    }

    /// Delete a document from the semantic index. Missing ids are a no-op.
    pub fn delete_doc(&mut self, id: &str, report: &EngineReport) -> (r: HiveResult<Work>)
        requires
            old(self).wf(),
        ensures
            final(self).wf(),
            final(self).time_source() == old(self).time_source(),
            ({
                let settled = deleted(old(self).deep_view().semantic, id@, *report);
                &&& final(self).deep_view() == with_index(old(self).deep_view(), settled.model)
                &&& work_view(r) == engine_result(settled.result)
            }),
    {
        to_engine(self.semantic.delete(id, report))
    }

    /// Delete every indexed document carrying the given scalar filter.
    pub fn delete_by_filter(&mut self, filter: &ScalarFilter, report: &EngineReport) -> (r:
        HiveResult<Work>)
        requires
            old(self).wf(),
        ensures
            final(self).wf(),
            final(self).time_source() == old(self).time_source(),
            ({
                let settled = filtered_out(
                    old(self).deep_view().semantic,
                    filter.deep_view(),
                    *report,
                );
                &&& final(self).deep_view() == with_index(old(self).deep_view(), settled.model)
                &&& work_view(r) == engine_result(settled.result)
            }),
    {
        to_engine(self.semantic.delete_by_filter(filter, report))
    }

    /// Remove every document from the semantic index.
    pub fn clear_index(&mut self, report: &EngineReport) -> (r: HiveResult<Work>)
        requires
            old(self).wf(),
        ensures
            final(self).wf(),
            final(self).time_source() == old(self).time_source(),
            ({
                let settled = cleared(old(self).deep_view().semantic, *report);
                &&& final(self).deep_view() == with_index(old(self).deep_view(), settled.model)
                &&& work_view(r) == engine_result(settled.result)
            }),
    {
        to_engine(self.semantic.clear(report))
    }

    /// Rebuild the derived indexes from the authoritative documents.
    pub fn compact_index(&mut self) -> (r: Vec<Placed>)
        requires
            old(self).wf(),
        ensures
            final(self).wf(),
            final(self).time_source() == old(self).time_source(),
            final(self).deep_view() == with_index(
                old(self).deep_view(),
                old(self).deep_view().semantic.rebuilt(),
            ),
            r.deep_view() == old(self).deep_view().semantic.fresh_work(),
    {
        self.semantic.compact()
    }

    /// Index a document for hybrid search: `text` maps to the `body` field.
    pub fn index_doc<I: IntoText, T: IntoText>(
        &mut self,
        id: I,
        text: T,
        vector: Vec<u32>,
        report: &EngineReport,
    ) -> (r: HiveResult<Work>)
        requires
            old(self).wf(),
        ensures
            final(self).wf(),
            final(self).time_source() == old(self).time_source(),
            ({
                let doc = DocModel {
                    body: Some(text.text()),
                    vector: Some(vector.deep_view()),
                    ..DocModel::blank(id.text())
                };
                let settled = upserted(old(self).deep_view().semantic, seq![doc], *report);
                &&& final(self).deep_view() == with_index(old(self).deep_view(), settled.model)
                &&& work_view(r) == engine_result(settled.result)
            }),
    {
        let filters: Vec<ScalarFilter> = Vec::new();
        assert(filters.deep_view() =~= Seq::empty());
        self.index_doc_with(id, text, vector, &filters, report)
    }

    /// Index a document with scalar filters for hybrid search: `text` maps to the `body`
    /// field.
    pub fn index_doc_with<I: IntoText, T: IntoText>(
        &mut self,
        id: I,
        text: T,
        vector: Vec<u32>,
        filters: &Vec<ScalarFilter>,
        report: &EngineReport,
    ) -> (r: HiveResult<Work>)
        requires
            old(self).wf(),
        ensures
            final(self).wf(),
            final(self).time_source() == old(self).time_source(),
            ({
                let doc = DocModel {
                    body: Some(text.text()),
                    vector: Some(vector.deep_view()),
                    filters: filters.deep_view(),
                    ..DocModel::blank(id.text())
                };
                let settled = upserted(old(self).deep_view().semantic, seq![doc], *report);
                &&& final(self).deep_view() == with_index(old(self).deep_view(), settled.model)
                &&& work_view(r) == engine_result(settled.result)
            }),
    {
        let doc = IndexDoc::new(id).with_body(text).with_vector(vector).with_filters(
            replica_list(filters),
        );
        self.upsert_doc(&doc, report)
    }
}

/// `events` is what reading a stream for a list of agents gives: each event as often
/// as its agent is listed, in order.
pub open spec fn is_reading(
    log: LogModel,
    agents: Seq<Seq<char>>,
    stream: Seq<char>,
    events: Seq<EventModel>,
) -> bool {
    &&& in_seq_order(events)
    &&& forall|event: EventModel| #[trigger]
        occurrences(events, event) == times_listed(log, agents, stream, event)
    &&& agents.no_duplicates() ==> events == log.history.filter(in_stream_of(agents, stream))
}

impl<C: Clock> HiveDB<C> {
    /// Insert or replace a JSON document in a collection. Returns the new version
    /// (starts at 1).
    pub fn col_put(&mut self, collection: &str, id: &str, doc: &Json, options: PutOptions) -> (r:
        HiveResult<u64>)
        requires
            old(self).wf(),
            old(self).deep_view().collections.version_of(collection@, id@) < u64::MAX,
        ensures
            final(self).wf(),
            final(self).time_source() == old(self).time_source(),
            ({
                let before = old(self).deep_view().collections;
                match r {
                    Ok(version) => {
                        &&& before.can_put(
                            collection@,
                            id@,
                            doc.deep_view(),
                            options.expected_version,
                        )
                        &&& version == before.version_of(collection@, id@) + 1
                        &&& final(self).deep_view() == (DbModel {
                            collections: before.after_put(collection@, id@, doc.deep_view()),
                            ..old(self).deep_view()
                        })
                    },
                    Err(error) => {
                        &&& !before.can_put(
                            collection@,
                            id@,
                            doc.deep_view(),
                            options.expected_version,
                        )
                        &&& before.put_error(
                            collection@,
                            id@,
                            doc.deep_view(),
                            options.expected_version,
                            error.deep_view(),
                        )
                        &&& final(self).deep_view() == old(self).deep_view()
                    },
                }
            }),
    {
        self.collections.put(collection, id, doc, options)
    }

    /// Read a document by id. A document that is nested too deep cannot be read.
    pub fn col_get(&self, collection: &str, id: &str) -> (r: HiveResult<Option<DocEntry>>)
        ensures
            read_view(r) == self.deep_view().collections.read(collection@, id@),
    {
        self.collections.get(collection, id)
    }

    /// A document as it is persisted, also where it cannot be read.
    pub fn col_row(&self, collection: &str, id: &str) -> (r: Option<DocRow>)
        ensures
            match r {
                Some(row) => {
                    &&& self.deep_view().collections.docs.contains_key((collection@, id@))
                    &&& row.deep_view() == (
                        (collection@, id@),
                        self.deep_view().collections.docs[(collection@, id@)],
                    )
                },
                None => !self.deep_view().collections.docs.contains_key((collection@, id@)),
            },
    {
        self.collections.row(collection, id)
    }

    /// Delete a document. Returns `true` if it existed. A document that cannot be read
    /// stays.
    pub fn col_delete(&mut self, collection: &str, id: &str) -> (r: HiveResult<bool>)
        requires
            old(self).wf(),
        ensures
            final(self).wf(),
            final(self).time_source() == old(self).time_source(),
            ({
                let before = old(self).deep_view().collections;
                match r {
                    Ok(existed) => {
                        &&& before.can_read(collection@, id@)
                        &&& existed == before.docs.contains_key((collection@, id@))
                        &&& final(self).deep_view() == (DbModel {
                            collections: before.after_delete(collection@, id@),
                            ..old(self).deep_view()
                        })
                    },
                    Err(error) => {
                        &&& !before.can_read(collection@, id@)
                        &&& error.deep_view() == ErrorModel::Json(
                            refusal_of(before.docs[(collection@, id@)].doc),
                        )
                        &&& final(self).deep_view() == old(self).deep_view()
                    },
                }
            }),
    {
        self.collections.delete(collection, id)
    }

    /// Scan a collection in id order. It fails where a document that it goes through
    /// cannot be read.
    pub fn col_scan(&self, collection: &str, options: &ScanOptions) -> (r: HiveResult<
        Vec<DocEntry>,
    >)
        ensures
            page_view(r) == scanned(self.deep_view().collections.listing(collection@), *options),
    {
        self.collections.scan(collection, options)
    }

    /// Number of documents in a collection.
    pub fn col_count(&self, collection: &str) -> (r: HiveResult<u64>)
        ensures
            r is Ok,
            r->Ok_0 == self.deep_view().collections.listing(collection@).len(),
    {
        self.collections.count(collection)
    }

    /// Create an equality index on a top-level field (optionally unique).
    pub fn col_create_index(&mut self, collection: &str, field: &str, unique: bool) -> (r:
        HiveResult<()>)
        requires
            old(self).wf(),
        ensures
            final(self).wf(),
            final(self).time_source() == old(self).time_source(),
            old(self).deep_view().collections.indexing(
                collection@,
                field@,
                unique,
                unit_view(r),
                final(self).deep_view().collections,
            ),
            final(self).deep_view() == (DbModel {
                collections: final(self).deep_view().collections,
                ..old(self).deep_view()
            }),
    {
        self.collections.create_index(collection, field, unique)
    }

    /// Look up documents whose indexed field equals `value`.
    pub fn col_find_by(&self, collection: &str, field: &str, value: &Json, options: &ScanOptions) -> (r:
        HiveResult<Vec<DocEntry>>)
        requires
            self.wf(),
        ensures
            page_view(r) == self.deep_view().collections.find(
                collection@,
                field@,
                value.deep_view(),
                *options,
            ),
    {
        self.collections.find_by(collection, field, value, options)
    }

    /// Apply several puts/deletes atomically across collections.
    pub fn col_batch(&mut self, ops: &Vec<ColOp>) -> (r: HiveResult<()>)
        requires
            old(self).wf(),
            old(self).deep_view().collections.versions_below(ops.len() as int),
        ensures
            final(self).wf(),
            final(self).time_source() == old(self).time_source(),
            ({
                let before = old(self).deep_view().collections;
                match r {
                    Ok(_) => {
                        &&& before.can_apply_first(ops.deep_view(), ops.len() as nat)
                        &&& final(self).deep_view() == (DbModel {
                            collections: before.after_ops(ops.deep_view(), ops.len() as nat),
                            ..old(self).deep_view()
                        })
                    },
                    Err(error) => final(self).deep_view() == old(self).deep_view() && exists|i: int|
                        #[trigger] batch_stops(before, ops.deep_view(), i, error.deep_view()),
                }
            }),
    {
        self.collections.batch(ops)
    }
}

/// An authorization follows from the log: the grant that is found was logged, to the agent,
/// for that very action and resource, had not run out, and was not revoked later in the
/// log.
pub proof fn law_authorizations_follow_from_the_log(
    db: DbModel,
    agent: Seq<char>,
    action: Seq<char>,
    resource: Seq<char>,
    now: u64,
    found: u64,
)
    requires
        seqs_ascend(db.log.history),
        is_verdict(db, agent, action, resource, now, Some(found)),
    ensures
        exists|i: int|
            {
                &&& 0 <= i < db.log.history.len()
                &&& (#[trigger] db.log.history[i]).seq == found
                &&& db.log.history[i].kind is ConsentGranted
                &&& db.log.history[i].kind->to == agent
                &&& db.log.history[i].kind->scope.action == action
                &&& db.log.history[i].kind->scope.resource == resource
                &&& db.log.history[i].kind->expires matches Some(end) ==> now < end
                &&& !is_revoked_after(db.log.history, i, found)
            },
{
    let history = db.log.history;
    let grants = fold::<ConsentGraph>(history);
    let ask = Request { scope: ScopeModel { action, resource }, now };
    assert forall|a: int, b: int| 0 <= a < b < history.len() implies (#[trigger] history[a]).seq
        != (#[trigger] history[b]).seq by {
        assert(history[a].seq < history[b].seq);
    }
    law_grants_replay_the_log(history);
    law_grants_cover_their_scope_only(grants, found, agent, set![agent], ask);
    let i = choose|i: int|
        0 <= i < history.len() && (#[trigger] history[i]).seq == found
            && history[i].kind is ConsentGranted;
    assert(makes_grant(history[i], grants[history[i].seq]));
}

/// A grant that was logged authorizes: one to the agent for the action and the resource that
/// has neither run out nor been revoked later in the log, from an agent that was itself
/// never granted them, is enough.
pub proof fn law_logged_grants_authorize(
    db: DbModel,
    agent: Seq<char>,
    action: Seq<char>,
    resource: Seq<char>,
    now: u64,
    found: Option<u64>,
    i: int,
)
    requires
        seqs_ascend(db.log.history),
        is_verdict(db, agent, action, resource, now, found),
        0 <= i < db.log.history.len(),
        db.log.history[i].kind is ConsentGranted,
        db.log.history[i].kind->to == agent,
        db.log.history[i].kind->scope.action == action,
        db.log.history[i].kind->scope.resource == resource,
        db.log.history[i].kind->expires matches Some(end) ==> now < end,
        !is_revoked_after(db.log.history, i, db.log.history[i].seq),
        forall|j: int|
            0 <= j < db.log.history.len() && (
            #[trigger] db.log.history[j]).kind is ConsentGranted ==> !(db.log.history[j].kind->to
                == db.log.history[i].kind->from && db.log.history[j].kind->scope.action == action
                && db.log.history[j].kind->scope.resource == resource),
    ensures
        found is Some,
        found->0 <= db.log.history[i].seq,
{
    let history = db.log.history;
    let grants = fold::<ConsentGraph>(history);
    let ask = Request { scope: ScopeModel { action, resource }, now };
    let seq = history[i].seq;
    assert forall|a: int, b: int| 0 <= a < b < history.len() implies (#[trigger] history[a]).seq
        != (#[trigger] history[b]).seq by {
        assert(history[a].seq < history[b].seq);
    }
    law_grants_replay_the_log(history);
    assert(makes_grant(history[i], grants[history[i].seq]));
    let grantor = grants[seq].from;
    if has_received(grants, grantor, ask) {
        let link = choose|link: u64| #[trigger]
            grants.contains_key(link) && grants[link].to == grantor && grants[link].scope.action
                == ask.scope.action && grants[link].scope.resource == ask.scope.resource;
        let j = choose|j: int|
            0 <= j < history.len() && (#[trigger] history[j]).seq == link
                && history[j].kind is ConsentGranted;
        assert(makes_grant(history[j], grants[history[j].seq]));
    }
    if grantor == agent {
        assert(grants.contains_key(seq) && grants[seq].to == agent);
        assert(has_received(grants, grantor, ask));
    }
    let links = seq![seq];
    assert(links.last() == seq);
    assert(is_delegation(grants, links, agent, ask));
    law_the_earliest_grant_is_found(grants, found, agent, ask);
}

/// The intent that an authorization check logs tells who asked for what, and which grant
/// authorized it, if any.
pub proof fn law_intents_record_the_verdict(
    agent: Seq<char>,
    action: Seq<char>,
    resource: Seq<char>,
    found: Option<u64>,
)
    ensures
        ({
            let intent = intent_of(agent, action, resource, found);
            &&& intent.agent_id == agent
            &&& intent.stream_id == "consent"@
            &&& intent.kind is IntentLogged
            &&& intent.kind->actor == agent
            &&& intent.kind->authorized_by == found
            &&& intent.kind->intent == action + ":"@ + resource
            &&& intent.causation is None && intent.correlation is None
        }),
{
}

/// An appended event goes to every subscription that it fits, and to no other; what was
/// waiting for delivery still waits, and nothing but the log changes beside.
pub proof fn law_appended_events_are_delivered(
    before: DbModel,
    after: DbModel,
    input: InputModel,
    frozen_at: Option<u64>,
    event: EventModel,
    ids: Seq<u64>,
    id: u64,
)
    requires
        is_append(before, after, input, frozen_at, event, ids),
    ensures
        before.outbox.is_prefix_of(after.outbox),
        after.outbox.skip(before.outbox.len() as int).contains((id, event))
            <==> before.reactive.subscribers.contains_key(id)
            && before.reactive.subscribers[id].fits(event),
        forall|k: int|
            before.outbox.len() <= k < after.outbox.len() ==> (#[trigger] after.outbox[k]).1
                == event,
        after.working == before.working,
        after.collections == before.collections,
        after.semantic == before.semantic,
        after.reactive == before.reactive,
        after.log.history == before.log.history.push(event),
        event.agent_id == input.agent_id,
        event.stream_id == input.stream_id,
        event.kind == input.kind,
        event.payload == input.payload,
{
    let new = after.outbox.skip(before.outbox.len() as int);
    assert(new =~= deliveries(ids, event));
    if new.contains((id, event)) {
        let k = choose|k: int| 0 <= k < new.len() && new[k] == (id, event);
        assert(ids[k] == id);
        assert(ids.contains(id));
    }
    if before.reactive.delivers(id, event) {
        assert(ids.contains(id));
        let k = choose|k: int| 0 <= k < ids.len() && ids[k] == id;
        assert(new[k] == (id, event));
    }
}

/// A task's causal thread is made of the events of its stream, whoever logged them.
pub proof fn law_task_threads_come_from_the_log(log: LogModel, task: Seq<char>, event: EventModel)
    requires
        seqs_ascend(log.history),
        log.history.contains(event),
        event.stream_id == task,
    ensures
        event.kind is ToolCall ==> exists|k: int|
            {
                &&& 0 <= k < task_thread(log, task).tool_calls.len()
                &&& (#[trigger] task_thread(log, task).tool_calls[k]).seq == event.seq
                &&& task_thread(log, task).tool_calls[k].tool == event.kind->tool
                &&& task_thread(log, task).tool_calls[k].agent == event.agent_id
                &&& task_thread(log, task).tool_calls[k].caused_by == event.causation
            },
        event.kind is StateTransition && (event.payload.field("description"@) matches Some(
            JsonModel::String(_),
        )) ==> exists|k: int|
            {
                &&& 0 <= k < task_thread(log, task).decisions.len()
                &&& (#[trigger] task_thread(log, task).decisions[k]).seq == event.seq
                &&& task_thread(log, task).decisions[k].agent == event.agent_id
                &&& task_thread(log, task).decisions[k].caused_by == event.causation
                &&& event.payload.field("description"@) == Some(
                    JsonModel::String(task_thread(log, task).decisions[k].description),
                )
            },
{
    let events = log.history.filter(of_stream(task));
    law_readings_are_exact(log.history, Seq::empty(), event.agent_id, task, event);
    assert(events.contains(event));
    let i = choose|i: int| 0 <= i < events.len() && events[i] == event;
    assert forall|a: int, b: int| 0 <= a < b < events.len() implies (#[trigger] events[a]).seq != (
    #[trigger] events[b]).seq by {
        assert(events[a].seq < events[b].seq);
    }
    assert forall|a: int| 0 <= a < events.len() implies (#[trigger] events[a]).stream_id
        == task by {
        law_readings_are_exact(log.history, Seq::empty(), event.agent_id, task, events[a]);
        assert(events.contains(events[a]));
    }
    law_threads_show_what_was_logged(events, task, i);
    let causal = causal_of(leading_thread(events));
    assert(causal == task_thread(log, task));
    if event.kind is ToolCall {
        let k = choose|k: int|
            {
                &&& 0 <= k < causal.tool_calls.len()
                &&& (#[trigger] causal.tool_calls[k]).seq == events[i].seq
                &&& causal.tool_calls[k].agent == events[i].agent_id
                &&& causal.tool_calls[k].tool == events[i].kind->tool
                &&& causal.tool_calls[k].outcome == outcome_of(events[i].payload)
                &&& causal.tool_calls[k].caused_by == events[i].causation
                &&& causal.tool_calls[k].correlation == events[i].correlation
            };
        assert(task_thread(log, task).tool_calls[k].seq == event.seq);
    }
}

/// A base can be opened with a dimension exactly if its record is JSON and names that very
/// dimension.
pub proof fn law_dimensions_must_agree(raw: Seq<char>, requested: usize)
    ensures
        dimension_error(raw, requested) is None <==> match parsed_json(raw) {
            Ok(meta) => match meta.field("vector_dimension"@) {
                Some(JsonModel::Number(number)) => number.unsigned == Some(requested as u64),
                _ => false,
            },
            Err(_) => false,
        },
{
}

/// Past episodes come into a context only where they are asked for, and then all of them.
/// A tool has statistics exactly if the ledger has an entry for it.
pub proof fn law_lookups_pass_on_what_is_there(
    request: AgentContextRequest,
    episodes: Seq<EpisodeModel>,
    ledger: Map<Seq<char>, StatsModel>,
    tool: Seq<char>,
)
    ensures
        request.strategy.episodic_similarity is None ==> episodes_used(request, episodes).len()
            == 0,
        request.strategy.episodic_similarity is Some ==> episodes_used(request, episodes)
            == episodes,
        stats_in(ledger, tool) is Some <==> ledger.contains_key(tool),
        ledger.contains_key(tool) ==> stats_in(ledger, tool) == Some(ledger[tool]),
{
}

/// Reading a stream for several agents gives each of its events as often as its agent is
/// listed, in the order of the log; with every agent listed once, each event once.
pub proof fn law_streams_are_read_for_their_agents(
    log: LogModel,
    agents: Seq<Seq<char>>,
    stream: Seq<char>,
    events: Seq<EventModel>,
    event: EventModel,
)
    requires
        is_reading(log, agents, stream, events),
    ensures
        events.contains(event) <==> log.history.contains(event) && event.stream_id == stream
            && agents.contains(event.agent_id),
        forall|i: int, j: int|
            0 <= i < j < events.len() ==> (#[trigger] events[i]).seq <= (#[trigger] events[j]).seq,
        log.history.contains(event) && event.stream_id == stream ==> occurrences(events, event)
            == occurrences(agents, event.agent_id),
{
    lemma_occurrences_absent(events, event);
    lemma_occurrences_absent(agents, event.agent_id);
    assert(occurrences(events, event) == times_listed(log, agents, stream, event));
}

/// A change to the index leaves everything else in the database as it was, and its errors
/// are errors of the input.
pub proof fn law_index_changes_stay_in_the_index(
    before: DbModel,
    semantic: SemanticModel,
    error: IndexErrorModel,
)
    ensures
        with_index(before, semantic).semantic == semantic,
        with_index(before, semantic).log == before.log,
        with_index(before, semantic).collections == before.collections,
        with_index(before, semantic).working == before.working,
        with_index(before, semantic).reactive == before.reactive,
        with_index(before, semantic).outbox == before.outbox,
        engine_result(Err(error)) == Err::<WorkModel, ErrorModel>(
            ErrorModel::InvalidInput(error.message()),
        ),
{
}

/// Options ask for vectors of a dimension in a space, or for none; where nothing is said,
/// for 384 coordinates in the default space, which is an acceptable configuration.
pub proof fn law_options_name_the_configuration(options: OpenOptions)
    ensures
        options.vector is None <==> config_of(options) is None,
        options.vector matches Some(vector) ==> config_of(options)->0.dimension == vector.dimension
            && config_of(options)->0.space_id == vector.space_id@,
        usual_config()->0.dimension == 384,
        usual_config()->0.space_id == "default"@,
        config_error(usual_config()) is None,
{
    reveal_strlit("default");
    assert(!white_space("default"@[0]));
}

} // verus!
