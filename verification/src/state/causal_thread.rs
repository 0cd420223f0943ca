//! The raw material of causal threads: decisions, tool calls and intents by
//! stream.

use crate::event::{AgentId, Event, EventKind, EventModel, KindModel};
use crate::json::{Json, JsonModel};
use crate::projection::{fold, Projection, ProjectionScope};
use crate::sorted::{
    ascending, lemma_map_of_domain, map_of, Replica, SortKey, SortedMap,
};
use crate::text::text_same;
use vstd::prelude::*;

verus! {

/// Outcome of a tool invocation, parsed from the event payload.
#[derive(Debug, PartialEq)]
pub enum ToolOutcome {
    Succeeded,
    Failed(String),
    Timeout,
}

#[verifier::ext_equal]
pub enum OutcomeModel {
    Succeeded,
    Failed(Seq<char>),
    Timeout,
}

impl DeepView for ToolOutcome {
    type V = OutcomeModel;

    open spec fn deep_view(&self) -> OutcomeModel {
        match self {
            ToolOutcome::Succeeded => OutcomeModel::Succeeded,
            ToolOutcome::Failed(message) => OutcomeModel::Failed(message@),
            ToolOutcome::Timeout => OutcomeModel::Timeout,
        }
    }
}

impl Replica for ToolOutcome {
    fn replica(&self) -> (r: Self) {
        match self {
            ToolOutcome::Succeeded => ToolOutcome::Succeeded,
            ToolOutcome::Failed(message) => ToolOutcome::Failed(message.clone()),
            ToolOutcome::Timeout => ToolOutcome::Timeout,
        }
    }
}

impl Clone for ToolOutcome {
    fn clone(&self) -> (r: Self)
        ensures
            r.deep_view() == self.deep_view(),
    {
        self.replica()
    }
}

/// The canonical reading of a tool call's `outcome`: `"Ok"`, `"Timeout"`, or an
/// object with an `Err` message. Anything else is a success.
pub open spec fn outcome_of(payload: JsonModel) -> OutcomeModel {
    match payload.field("outcome"@) {
        Some(outcome) => if outcome == JsonModel::String("Ok"@) {
            OutcomeModel::Succeeded
        } else if outcome == JsonModel::String("Timeout"@) {
            OutcomeModel::Timeout
        } else if outcome.field("Err"@) is Some {
            OutcomeModel::Failed(
                match outcome.text_field("Err"@) {
                    Some(message) => message,
                    None => Seq::empty(),
                },
            )
        } else {
            OutcomeModel::Succeeded
        },
        None => OutcomeModel::Succeeded,
    }
}

/// Raw event data kept per stream.
#[derive(Debug, PartialEq)]
pub enum ThreadEvent {
    Decision {
        agent: AgentId,
        description: String,
        phase: Option<String>,
        caused_by: Option<u64>,
        correlation: Option<u128>,
    },
    ToolCall {
        agent: AgentId,
        tool: String,
        outcome: ToolOutcome,
        caused_by: Option<u64>,
        correlation: Option<u128>,
    },
    Intent { agent: AgentId, intent: String, correlation: Option<u128> },
}

#[verifier::ext_equal]
pub enum ThreadEventModel {
    Decision {
        agent: Seq<char>,
        description: Seq<char>,
        phase: Option<Seq<char>>,
        caused_by: Option<u64>,
        correlation: Option<u128>,
    },
    ToolCall {
        agent: Seq<char>,
        tool: Seq<char>,
        outcome: OutcomeModel,
        caused_by: Option<u64>,
        correlation: Option<u128>,
    },
    Intent { agent: Seq<char>, intent: Seq<char>, correlation: Option<u128> },
}

impl DeepView for ThreadEvent {
    type V = ThreadEventModel;

    open spec fn deep_view(&self) -> ThreadEventModel {
        match self {
            ThreadEvent::Decision { agent, description, phase, caused_by, correlation } => {
                ThreadEventModel::Decision {
                    agent: agent.deep_view(),
                    description: description@,
                    phase: phase.deep_view(),
                    caused_by: *caused_by,
                    correlation: *correlation,
                }
            },
            ThreadEvent::ToolCall { agent, tool, outcome, caused_by, correlation } => {
                ThreadEventModel::ToolCall {
                    agent: agent.deep_view(),
                    tool: tool@,
                    outcome: outcome.deep_view(),
                    caused_by: *caused_by,
                    correlation: *correlation,
                }
            },
            ThreadEvent::Intent { agent, intent, correlation } => ThreadEventModel::Intent {
                agent: agent.deep_view(),
                intent: intent@,
                correlation: *correlation,
            },
        }
    }
}

/// A copy of an optional text.
pub fn replica_text(text: &Option<String>) -> (r: Option<String>)
    ensures
        r.deep_view() == text.deep_view(),
{
    match text {
        Some(s) => Some(s.clone()),
        None => None,
    }
}

impl Replica for ThreadEvent {
    fn replica(&self) -> (r: Self) {
        match self {
            ThreadEvent::Decision { agent, description, phase, caused_by, correlation } => {
                ThreadEvent::Decision {
                    agent: agent.replica(),
                    description: description.clone(),
                    phase: replica_text(phase),
                    caused_by: *caused_by,
                    correlation: *correlation,
                }
            },
            ThreadEvent::ToolCall { agent, tool, outcome, caused_by, correlation } => {
                ThreadEvent::ToolCall {
                    agent: agent.replica(),
                    tool: tool.clone(),
                    outcome: outcome.replica(),
                    caused_by: *caused_by,
                    correlation: *correlation,
                }
            },
            ThreadEvent::Intent { agent, intent, correlation } => ThreadEvent::Intent {
                agent: agent.replica(),
                intent: intent.clone(),
                correlation: *correlation,
            },
        }
    }
}

impl Clone for ThreadEvent {
    fn clone(&self) -> (r: Self)
        ensures
            r.deep_view() == self.deep_view(),
    {
        self.replica()
    }
}

/// Events of one stream by sequence number.
pub type ThreadModel = Map<u64, ThreadEventModel>;

/// Events indexed by sequence number inside a single stream.
#[derive(Debug, PartialEq)]
pub struct StreamThread {
    pub events: SortedMap<u64, ThreadEvent>,
}

impl DeepView for StreamThread {
    type V = ThreadModel;

    open spec fn deep_view(&self) -> ThreadModel {
        self.events.deep_view()
    }
}

impl Replica for StreamThread {
    fn replica(&self) -> (r: Self) {
        StreamThread { events: self.events.replica() }
    }
}

impl Clone for StreamThread {
    fn clone(&self) -> (r: Self)
        ensures
            r.deep_view() == self.deep_view(),
    {
        self.replica()
    }
}

impl StreamThread {
    pub fn new() -> (r: Self)
        ensures
            r.deep_view() == Map::<u64, ThreadEventModel>::empty(),
    {
        StreamThread { events: SortedMap::new() }
    }
}

/// One `StreamThread` per `stream_id`.
#[derive(Debug, PartialEq)]
pub struct CausalThreadState {
    pub streams: SortedMap<String, StreamThread>,
}

impl DeepView for CausalThreadState {
    type V = Map<Seq<char>, ThreadModel>;

    open spec fn deep_view(&self) -> Map<Seq<char>, ThreadModel> {
        self.streams.deep_view()
    }
}

impl Replica for CausalThreadState {
    fn replica(&self) -> (r: Self) {
        CausalThreadState { streams: self.streams.replica() }
    }
}

impl Clone for CausalThreadState {
    fn clone(&self) -> (r: Self)
        ensures
            r.deep_view() == self.deep_view(),
    {
        self.replica()
    }
}

impl Default for CausalThreadState {
    fn default() -> (r: Self)
        ensures
            r.deep_view() == CausalThreadProjection::initial(),
    {
        CausalThreadProjection::empty_state()
    }
}

/// What an event contributes to its stream's thread: a state transition with a
/// description is a decision; tool calls and intents are kept as they are.
pub open spec fn thread_event_of(event: EventModel) -> Option<ThreadEventModel> {
    match event.kind {
        KindModel::StateTransition => match event.payload.text_field("description"@) {
            Some(description) => Some(
                ThreadEventModel::Decision {
                    agent: event.agent_id,
                    description,
                    phase: event.payload.text_field("phase"@),
                    caused_by: event.causation,
                    correlation: event.correlation,
                },
            ),
            None => None,
        },
        KindModel::ToolCall { tool } => Some(
            ThreadEventModel::ToolCall {
                agent: event.agent_id,
                tool,
                outcome: outcome_of(event.payload),
                caused_by: event.causation,
                correlation: event.correlation,
            },
        ),
        KindModel::IntentLogged { actor, intent, .. } => Some(
            ThreadEventModel::Intent { agent: actor, intent, correlation: event.correlation },
        ),
        _ => None,
    }
}

/// A stream's thread after one more event.
pub open spec fn thread_step(thread: ThreadModel, event: EventModel) -> ThreadModel {
    match thread_event_of(event) {
        Some(entry) => thread.insert(event.seq, entry),
        None => thread,
    }
}

/// The thread of a stream, or an empty one.
pub open spec fn thread_of(streams: Map<Seq<char>, ThreadModel>, stream: Seq<char>) -> ThreadModel {
    if streams.contains_key(stream) {
        streams[stream]
    } else {
        Map::empty()
    }
}

/// Parses a `ToolCall` payload's `outcome` field. This is the single source of
/// truth for the `outcome` contract: every projection that reads `ToolCall`
/// payloads goes through it, so they agree on what counts as a failure.
pub fn parse_tool_outcome(payload: &Json) -> (r: ToolOutcome)
    ensures
        r.deep_view() == outcome_of(payload.deep_view()),
{
    match payload.get("outcome") {
        Some(outcome) => {
            if let Some(s) = outcome.as_str() {
                if text_same(s.as_str(), "Ok") {
                    return ToolOutcome::Succeeded;
                }
                if text_same(s.as_str(), "Timeout") {
                    return ToolOutcome::Timeout;
                }
            }
            if outcome.get("Err").is_some() {
                match outcome.text_field("Err") {
                    Some(message) => ToolOutcome::Failed(message),
                    None => ToolOutcome::Failed(String::new()),
                }
            } else {
                ToolOutcome::Succeeded
            }
        },
        None => ToolOutcome::Succeeded,
    }
}

/// Apply a single event to a `StreamThread`.
pub fn apply_to_thread(thread: &mut StreamThread, event: &Event)
    ensures
        final(thread).deep_view() == thread_step(old(thread).deep_view(), event.deep_view()),
{
    match &event.kind {
        EventKind::StateTransition => {
            if let Some(description) = event.payload.text_field("description") {
                let phase = event.payload.text_field("phase");
                thread.events.insert(
                    event.seq,
                    ThreadEvent::Decision {
                        agent: event.agent_id.clone(),
                        description,
                        phase,
                        caused_by: event.causation,
                        correlation: event.correlation,
                    },
                );
            }
        },
        EventKind::ToolCall { tool } => {
            let outcome = parse_tool_outcome(&event.payload);
            thread.events.insert(
                event.seq,
                ThreadEvent::ToolCall {
                    agent: event.agent_id.clone(),
                    tool: tool.clone(),
                    outcome,
                    caused_by: event.causation,
                    correlation: event.correlation,
                },
            );
        },
        EventKind::IntentLogged { actor, intent, .. } => {
            thread.events.insert(
                event.seq,
                ThreadEvent::Intent {
                    agent: actor.clone(),
                    intent: intent.clone(),
                    correlation: event.correlation,
                },
            );
        },
        _ => {},
    }
}

/// Marker type for the `CausalThread` projection: the material of
/// [`crate::causal::CausalThread`], one thread per stream.
pub struct CausalThreadProjection;

impl Projection for CausalThreadProjection {
    type State = CausalThreadState;

    open spec fn initial() -> Map<Seq<char>, ThreadModel> {
        Map::empty()
    }

    open spec fn step(
        state: Map<Seq<char>, ThreadModel>,
        event: EventModel,
    ) -> Map<Seq<char>, ThreadModel> {
        state.insert(event.stream_id, thread_step(thread_of(state, event.stream_id), event))
    }

    open spec fn combined(
        whole: Map<Seq<char>, ThreadModel>,
        part: Map<Seq<char>, ThreadModel>,
    ) -> Map<Seq<char>, ThreadModel> {
        Map::new(
            |stream: Seq<char>| whole.contains_key(stream) || part.contains_key(stream),
            |stream: Seq<char>|
                thread_of(whole, stream).union_prefer_right(thread_of(part, stream)),
        )
    }

    open spec fn fits(state: Map<Seq<char>, ThreadModel>) -> bool {
        true
    }

    open spec fn lives_in() -> ProjectionScope {
        ProjectionScope::Agent
    }

    open spec fn registered_as() -> Seq<char> {
        "CausalThread"@
    }

    proof fn fits_before_step(state: Map<Seq<char>, ThreadModel>, event: EventModel) {
    }

    proof fn state_fits(state: &CausalThreadState) {
    }

    proof fn fits_before_combined(
        whole: Map<Seq<char>, ThreadModel>,
        part: Map<Seq<char>, ThreadModel>,
    ) {
    }

    fn name() -> (r: &'static str) {
        "CausalThread"
    }

    fn scope() -> (r: ProjectionScope) {
        // One sub-thread per agent shard; they are merged by stream so that
        // cross-agent causation chains remain intact.
        ProjectionScope::Agent
    }

    fn empty_state() -> (r: CausalThreadState) {
        CausalThreadState { streams: SortedMap::new() }
    }

    fn apply(state: &mut CausalThreadState, event: &Event) {
        let ghost before = state.deep_view();
        let mut thread = match state.streams.remove(&event.stream_id.0) {
            Some(thread) => thread,
            None => StreamThread::new(),
        };
        apply_to_thread(&mut thread, event);
        let ghost v = thread.deep_view();
        state.streams.insert(event.stream_id.0.clone(), thread);
        assert(state.deep_view() =~= before.insert(event.stream_id.deep_view(), v));
    }

    fn merge(whole: &mut CausalThreadState, part: &CausalThreadState) {
        let ghost start = whole.deep_view();
        let ghost pairs = part.streams.pairs();
        let n: usize = part.streams.len();
        let mut i: usize = 0;
        proof {
            assert forall|stream: Seq<char>| start.contains_key(stream) implies start[stream]
                == #[trigger] thread_of(start, stream).union_prefer_right(
                thread_of(map_of(pairs.take(0)), stream),
            ) by {
                assert(start[stream] =~= thread_of(start, stream).union_prefer_right(
                    thread_of(map_of(pairs.take(0)), stream),
                ));
            }
            assert(Self::combined(start, map_of(pairs.take(0))) =~= start);
        }
        while i < n
            invariant
                i <= n,
                n == pairs.len(),
                pairs == part.streams.pairs(),
                ascending::<String, ThreadModel>(pairs),
                whole.deep_view() == Self::combined(start, map_of(pairs.take(i as int))),
            decreases n - i,
        {
            let key = part.streams.key_at(i).replica();
            let extra = &part.streams.value_at(i).events;
            let ghost k = key.deep_view();
            let ghost done = map_of(pairs.take(i as int));
            let ghost now = whole.deep_view();
            let mut thread = match whole.streams.remove(&key) {
                Some(thread) => thread,
                None => StreamThread::new(),
            };
            let ghost base = thread.deep_view();
            let ghost rows = extra.pairs();
            let m: usize = extra.len();
            let mut j: usize = 0;
            assert(base.union_prefer_right(map_of(rows.take(0))) =~= base);
            while j < m
                invariant
                    j <= m,
                    m == rows.len(),
                    rows == extra.pairs(),
                    thread.deep_view() == base.union_prefer_right(map_of(rows.take(j as int))),
                decreases m - j,
            {
                proof {
                    let next = rows.take(j + 1);
                    assert(next.drop_last() =~= rows.take(j as int));
                    assert(base.union_prefer_right(map_of(next)) =~= base.union_prefer_right(
                        map_of(rows.take(j as int)),
                    ).insert(rows[j as int].0, rows[j as int].1));
                }
                thread.events.insert(*extra.key_at(j), extra.value_at(j).replica());
                j += 1;
            }
            assert(rows.take(j as int) =~= rows);
            let ghost v = thread.deep_view();
            whole.streams.insert(key, thread);
            proof {
                let next = pairs.take(i + 1);
                assert(next.drop_last() =~= pairs.take(i as int));
                assert(map_of(next) == done.insert(k, extra.deep_view()));
                if done.contains_key(k) {
                    lemma_map_of_domain(pairs.take(i as int), k);
                    let x = choose|x: int|
                        0 <= x < i && (#[trigger] pairs.take(i as int)[x]).0 == k;
                    assert(pairs[x].0 == k);
                    <String as SortKey>::before_irreflexive(k);
                    assert(<String as SortKey>::before(pairs[x].0, pairs[i as int].0));
                }
                assert(base =~= thread_of(start, k));
                assert(v == thread_of(start, k).union_prefer_right(thread_of(map_of(next), k)));
                assert(whole.deep_view() =~= now.insert(k, v));
                assert(whole.deep_view() =~= Self::combined(start, map_of(next)));
            }
            i += 1;
        }
        assert(pairs.take(i as int) =~= pairs);
    }
}

/// A tool call failed exactly if its outcome holds an `Err`, and timed out exactly if it
/// says so; everything else, a missing outcome too, is a success. The message of a failure
/// is the text of its `Err`.
pub proof fn law_outcomes_are_canonical(payload: JsonModel)
    ensures
        match payload.field("outcome"@) {
            None => outcome_of(payload) is Succeeded,
            Some(said) => {
                &&& outcome_of(payload) is Timeout <==> said == JsonModel::String("Timeout"@)
                &&& outcome_of(payload) is Failed <==> said.field("Err"@) is Some
                &&& said.field("Err"@) matches Some(JsonModel::String(message)) ==> outcome_of(
                    payload,
                ) == OutcomeModel::Failed(message)
                &&& said.field("Err"@) is Some && !(said.field("Err"@)->0 is String) ==> outcome_of(
                    payload,
                ) == OutcomeModel::Failed(Seq::empty())
            },
        },
{
    reveal_strlit("Ok");
    reveal_strlit("Timeout");
    assert("Ok"@.len() != "Timeout"@.len());
}

/// What a stream's thread keeps of one event: of a state transition with a description
/// the decision, of a tool call the call, of an intent the intent, of other events nothing.
pub open spec fn keeps_event(thread: ThreadModel, event: EventModel) -> bool {
    match event.kind {
        KindModel::StateTransition => match event.payload.field("description"@) {
            Some(JsonModel::String(said)) => {
                &&& thread.contains_key(event.seq)
                &&& thread[event.seq] is Decision
                &&& thread[event.seq]->Decision_agent == event.agent_id
                &&& thread[event.seq]->Decision_description == said
                &&& thread[event.seq]->Decision_phase == (match event.payload.field("phase"@) {
                    Some(JsonModel::String(phase)) => Some(phase),
                    _ => None,
                })
                &&& thread[event.seq]->Decision_caused_by == event.causation
                &&& thread[event.seq]->Decision_correlation == event.correlation
            },
            _ => !thread.contains_key(event.seq),
        },
        KindModel::ToolCall { tool } => {
            &&& thread.contains_key(event.seq)
            &&& thread[event.seq] is ToolCall
            &&& thread[event.seq]->ToolCall_agent == event.agent_id
            &&& thread[event.seq]->ToolCall_tool == tool
            &&& thread[event.seq]->ToolCall_outcome == outcome_of(event.payload)
            &&& thread[event.seq]->ToolCall_caused_by == event.causation
            &&& thread[event.seq]->ToolCall_correlation == event.correlation
        },
        KindModel::IntentLogged { actor, intent, .. } => {
            &&& thread.contains_key(event.seq)
            &&& thread[event.seq] is Intent
            &&& thread[event.seq]->Intent_agent == actor
            &&& thread[event.seq]->Intent_intent == intent
            &&& thread[event.seq]->Intent_correlation == event.correlation
        },
        _ => !thread.contains_key(event.seq),
    }
}

/// The thread of a stream holds what the events of that stream contribute, and nothing of
/// other streams.
pub proof fn law_threads_keep_their_stream(events: Seq<EventModel>, stream: Seq<char>)
    requires
        forall|i: int, j: int|
            0 <= i < j < events.len() ==> (#[trigger] events[i]).seq != (#[trigger] events[j]).seq,
    ensures
        ({
            let thread = thread_of(fold::<CausalThreadProjection>(events), stream);
            &&& forall|i: int|
                0 <= i < events.len() && (#[trigger] events[i]).stream_id == stream ==> keeps_event(
                    thread,
                    events[i],
                )
            &&& forall|seq: u64| #[trigger]
                thread.contains_key(seq) ==> exists|i: int|
                    0 <= i < events.len() && (#[trigger] events[i]).seq == seq
                        && events[i].stream_id == stream
        }),
    decreases events.len(),
{
    if events.len() > 0 {
        let rest = events.drop_last();
        let last = events.last();
        let before = thread_of(fold::<CausalThreadProjection>(rest), stream);
        let after = thread_of(fold::<CausalThreadProjection>(events), stream);
        assert forall|i: int, j: int| 0 <= i < j < rest.len() implies (#[trigger] rest[i]).seq != (
        #[trigger] rest[j]).seq by {
            assert(events[i] == rest[i] && events[j] == rest[j]);
        }
        law_threads_keep_their_stream(rest, stream);
        if before.contains_key(last.seq) {
            let i = choose|i: int|
                0 <= i < rest.len() && (#[trigger] rest[i]).seq == last.seq && rest[i].stream_id
                    == stream;
            assert(events[i].seq == events[events.len() - 1].seq);
        }
        assert forall|i: int| 0 <= i < events.len() && (#[trigger] events[i]).stream_id
            == stream implies keeps_event(after, events[i]) by {
            if i < rest.len() {
                assert(rest[i] == events[i]);
                assert(keeps_event(before, rest[i]));
                assert(events[i].seq != events[events.len() - 1].seq);
            }
        }
        assert forall|seq: u64| #[trigger] after.contains_key(seq) implies exists|i: int|
            0 <= i < events.len() && (#[trigger] events[i]).seq == seq && events[i].stream_id
                == stream by {
            if before.contains_key(seq) {
                let i = choose|i: int|
                    0 <= i < rest.len() && (#[trigger] rest[i]).seq == seq && rest[i].stream_id
                        == stream;
                assert(events[i] == rest[i]);
            } else {
                assert(events[events.len() - 1].seq == seq);
            }
        }
    }
}

/// Threads of several shards combined hold what each of them holds, stream by stream.
pub proof fn law_combined_threads_hold_all(
    whole: Map<Seq<char>, ThreadModel>,
    part: Map<Seq<char>, ThreadModel>,
    stream: Seq<char>,
    seq: u64,
)
    ensures
        ({
            let all = thread_of(CausalThreadProjection::combined(whole, part), stream);
            let left = thread_of(whole, stream);
            let right = thread_of(part, stream);
            &&& all.contains_key(seq) <==> left.contains_key(seq) || right.contains_key(seq)
            &&& right.contains_key(seq) ==> all[seq] == right[seq]
            &&& left.contains_key(seq) && !right.contains_key(seq) ==> all[seq] == left[seq]
        }),
{
}

} // verus!
