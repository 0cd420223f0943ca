//! Causal thread analysis for long-running agent tasks.

use crate::event::{AgentId, Event, EventModel, StreamId};
use crate::json::JsonModel;
use crate::lists::{
    first_seen, lemma_filter_has, lemma_filter_order, lemma_filter_push, lemma_first_seen,
    lemma_occurrences_absent, lemma_occurrences_push, occurrences,
};
use crate::projection::{fold, Projection};
use crate::sorted::{
    lemma_finite_rows, lemma_map_of_domain, lemma_map_of_pair, rows_of, Replica, SortedMap,
};
use crate::state::causal_thread::{
    keeps_event, law_threads_keep_their_stream, outcome_of, replica_text, thread_of,
    CausalThreadProjection, CausalThreadState, OutcomeModel, StreamThread, ThreadEvent,
    ThreadEventModel, ThreadModel, ToolOutcome,
};
use vstd::prelude::*;

verus! {

/// A decision node inside a causal thread.
#[derive(Debug, PartialEq)]
pub struct DecisionNode {
    pub seq: u64,
    pub agent: AgentId,
    pub description: String,
    pub phase: Option<String>,
    pub caused_by: Option<u64>,
    pub caused: Vec<u64>,
    pub correlation: Option<u128>,
}

/// A tool-call node inside a causal thread.
#[derive(Debug, PartialEq)]
pub struct ToolCallNode {
    pub seq: u64,
    pub agent: AgentId,
    pub tool: String,
    pub outcome: ToolOutcome,
    pub caused_by: Option<u64>,
    pub correlation: Option<u128>,
}

/// Kinds of anomaly that can be detected in a causal thread.
#[derive(Clone, Copy, Debug, PartialEq, Eq, Structural)]
pub enum AnomalyKind {
    ErrorLoop,
    ObjectiveDrift,
}

/// Detected anomaly with provenance information.
#[derive(Debug, PartialEq)]
pub struct Anomaly {
    pub kind: AnomalyKind,
    pub repetitions: u32,
    pub tool: Option<String>,
    pub original_intent_seq: Option<u64>,
}

/// Complete causal thread for a single `stream_id`.
#[derive(Debug, PartialEq)]
pub struct CausalThread {
    pub decisions: Vec<DecisionNode>,
    pub tool_calls: Vec<ToolCallNode>,
    pub anomalies: Vec<Anomaly>,
}

#[verifier::ext_equal]
pub struct DecisionModel {
    pub seq: u64,
    pub agent: Seq<char>,
    pub description: Seq<char>,
    pub phase: Option<Seq<char>>,
    pub caused_by: Option<u64>,
    pub caused: Seq<u64>,
    pub correlation: Option<u128>,
}

#[verifier::ext_equal]
pub struct CallModel {
    pub seq: u64,
    pub agent: Seq<char>,
    pub tool: Seq<char>,
    pub outcome: OutcomeModel,
    pub caused_by: Option<u64>,
    pub correlation: Option<u128>,
}

#[verifier::ext_equal]
pub struct AnomalyModel {
    pub kind: AnomalyKind,
    pub repetitions: u32,
    pub tool: Option<Seq<char>>,
    pub original_intent_seq: Option<u64>,
}

#[verifier::ext_equal]
pub struct CausalModel {
    pub decisions: Seq<DecisionModel>,
    pub tool_calls: Seq<CallModel>,
    pub anomalies: Seq<AnomalyModel>,
}

impl DeepView for DecisionNode {
    type V = DecisionModel;

    open spec fn deep_view(&self) -> DecisionModel {
        DecisionModel {
            seq: self.seq,
            agent: self.agent.deep_view(),
            description: self.description@,
            phase: self.phase.deep_view(),
            caused_by: self.caused_by,
            caused: self.caused@,
            correlation: self.correlation,
        }
    }
}

impl DeepView for ToolCallNode {
    type V = CallModel;

    open spec fn deep_view(&self) -> CallModel {
        CallModel {
            seq: self.seq,
            agent: self.agent.deep_view(),
            tool: self.tool@,
            outcome: self.outcome.deep_view(),
            caused_by: self.caused_by,
            correlation: self.correlation,
        }
    }
}

impl DeepView for Anomaly {
    type V = AnomalyModel;

    open spec fn deep_view(&self) -> AnomalyModel {
        AnomalyModel {
            kind: self.kind,
            repetitions: self.repetitions,
            tool: self.tool.deep_view(),
            original_intent_seq: self.original_intent_seq,
        }
    }
}

impl DeepView for CausalThread {
    type V = CausalModel;

    open spec fn deep_view(&self) -> CausalModel {
        CausalModel {
            decisions: self.decisions.deep_view(),
            tool_calls: self.tool_calls.deep_view(),
            anomalies: self.anomalies.deep_view(),
        }
    }
}

/// A thread's events in ascending order.
pub type ThreadRows = Seq<(u64, ThreadEventModel)>;

/// What directly caused an event of a thread. Intents have no cause.
pub open spec fn cause_of(event: ThreadEventModel) -> Option<u64> {
    match event {
        ThreadEventModel::Decision { caused_by, .. } => caused_by,
        ThreadEventModel::ToolCall { caused_by, .. } => caused_by,
        ThreadEventModel::Intent { .. } => None,
    }
}

/// The events that `seq` directly caused, in ascending order.
pub open spec fn effects_of(rows: ThreadRows, seq: u64) -> Seq<u64>
    decreases rows.len(),
{
    if rows.len() == 0 {
        Seq::empty()
    } else {
        let before = effects_of(rows.drop_last(), seq);
        if cause_of(rows.last().1) == Some(seq) {
            before.push(rows.last().0)
        } else {
            before
        }
    }
}

/// The decisions among `part`, each with its effects among `rows`.
pub open spec fn decisions_of(part: ThreadRows, rows: ThreadRows) -> Seq<DecisionModel>
    decreases part.len(),
{
    if part.len() == 0 {
        Seq::empty()
    } else {
        let before = decisions_of(part.drop_last(), rows);
        match part.last().1 {
            ThreadEventModel::Decision { agent, description, phase, caused_by, correlation } => {
                before.push(
                    DecisionModel {
                        seq: part.last().0,
                        agent,
                        description,
                        phase,
                        caused_by,
                        caused: effects_of(rows, part.last().0),
                        correlation,
                    },
                )
            },
            _ => before,
        }
    }
}

/// The tool calls of a thread.
pub open spec fn calls_of(rows: ThreadRows) -> Seq<CallModel>
    decreases rows.len(),
{
    if rows.len() == 0 {
        Seq::empty()
    } else {
        let before = calls_of(rows.drop_last());
        match rows.last().1 {
            ThreadEventModel::ToolCall { agent, tool, outcome, caused_by, correlation } => {
                before.push(
                    CallModel {
                        seq: rows.last().0,
                        agent,
                        tool,
                        outcome,
                        caused_by,
                        correlation,
                    },
                )
            },
            _ => before,
        }
    }
}

/// The failed tool calls of a thread, as tool and error message.
pub open spec fn failures_of(rows: ThreadRows) -> Seq<(Seq<char>, Seq<char>)>
    decreases rows.len(),
{
    if rows.len() == 0 {
        Seq::empty()
    } else {
        let before = failures_of(rows.drop_last());
        match rows.last().1 {
            ThreadEventModel::ToolCall {
                tool,
                outcome: OutcomeModel::Failed(message),
                ..
            } => before.push((tool, message)),
            _ => before,
        }
    }
}

/// How often the same failure makes an error loop.
pub const ERROR_LOOP_LENGTH: u32 = 3;

/// How many unrelated decisions make a drift.
pub const DRIFT_LENGTH: u32 = 5;

/// The error loops among the first `n` of the different failures: those that
/// occurred often enough among all failures.
pub open spec fn loops_among(
    different: Seq<(Seq<char>, Seq<char>)>,
    failures: Seq<(Seq<char>, Seq<char>)>,
    n: nat,
) -> Seq<AnomalyModel>
    decreases n,
{
    if n == 0 {
        Seq::empty()
    } else {
        let before = loops_among(different, failures, (n - 1) as nat);
        let count = occurrences(failures, different[n - 1]);
        if count >= ERROR_LOOP_LENGTH {
            before.push(
                AnomalyModel {
                    kind: AnomalyKind::ErrorLoop,
                    repetitions: count as u32,
                    tool: Some(different[n - 1].0),
                    original_intent_seq: None,
                },
            )
        } else {
            before
        }
    }
}

/// The error loops of a thread, in the order in which their failures first
/// occurred.
pub open spec fn error_loops_of(rows: ThreadRows) -> Seq<AnomalyModel> {
    let failures = failures_of(rows);
    loops_among(first_seen(failures), failures, first_seen(failures).len())
}

/// The first intent logged in a thread: its sequence number and correlation.
pub open spec fn first_intent(rows: ThreadRows) -> Option<(u64, Option<u128>)>
    decreases rows.len(),
{
    if rows.len() == 0 {
        None
    } else {
        match rows[0].1 {
            ThreadEventModel::Intent { correlation, .. } => Some((rows[0].0, correlation)),
            _ => first_intent(rows.drop_first()),
        }
    }
}

/// The number of decisions that have a correlation, and another one than
/// `correlation`. A decision without one cannot be compared and does not count.
pub open spec fn strays(rows: ThreadRows, correlation: Option<u128>) -> nat
    decreases rows.len(),
{
    if rows.len() == 0 {
        0
    } else {
        strays(rows.drop_last(), correlation) + (match rows.last().1 {
            ThreadEventModel::Decision { correlation: own, .. } => if own is Some && own
                != correlation {
                1nat
            } else {
                0nat
            },
            _ => 0nat,
        })
    }
}

/// The drift of a thread from its original intent, where there is one.
pub open spec fn drift_of(rows: ThreadRows) -> Seq<AnomalyModel> {
    match first_intent(rows) {
        Some((seq, correlation)) => {
            let count = strays(rows, correlation);
            if count >= DRIFT_LENGTH {
                seq![
                    AnomalyModel {
                        kind: AnomalyKind::ObjectiveDrift,
                        repetitions: count as u32,
                        tool: None,
                        original_intent_seq: Some(seq),
                    },
                ]
            } else {
                Seq::empty()
            }
        },
        None => Seq::empty(),
    }
}

/// The anomalies of a thread: its error loops, then its drift.
pub open spec fn anomalies_of(rows: ThreadRows) -> Seq<AnomalyModel> {
    error_loops_of(rows) + drift_of(rows)
}

/// The causal thread that a stream's events make.
pub open spec fn causal_of(thread: ThreadModel) -> CausalModel {
    let rows = rows_of::<u64, ThreadEventModel>(thread);
    CausalModel {
        decisions: decisions_of(rows, rows),
        tool_calls: calls_of(rows),
        anomalies: anomalies_of(rows),
    }
}

/// The thread of the first stream, in ascending order, that the events belong
/// to.
pub open spec fn leading_thread(events: Seq<EventModel>) -> ThreadModel {
    let streams = fold::<CausalThreadProjection>(events);
    let rows = rows_of::<String, ThreadModel>(streams);
    if rows.len() == 0 {
        thread_of(streams, ""@)
    } else {
        thread_of(streams, rows[0].0)
    }
}

impl Replica for DecisionNode {
    fn replica(&self) -> (r: Self) {
        let mut caused: Vec<u64> = Vec::new();
        let mut i: usize = 0;
        while i < self.caused.len()
            invariant
                i <= self.caused.len(),
                caused@ == self.caused@.take(i as int),
            decreases self.caused.len() - i,
        {
            caused.push(self.caused[i]);
            assert(caused@ =~= self.caused@.take(i + 1));
            i += 1;
        }
        assert(caused@ =~= self.caused@);
        DecisionNode {
            seq: self.seq,
            agent: self.agent.replica(),
            description: self.description.clone(),
            phase: replica_text(&self.phase),
            caused_by: self.caused_by,
            caused,
            correlation: self.correlation,
        }
    }
}

impl Clone for DecisionNode {
    fn clone(&self) -> (r: Self)
        ensures
            r.deep_view() == self.deep_view(),
    {
        self.replica()
    }
}

impl Replica for ToolCallNode {
    fn replica(&self) -> (r: Self) {
        ToolCallNode {
            seq: self.seq,
            agent: self.agent.replica(),
            tool: self.tool.clone(),
            outcome: self.outcome.replica(),
            caused_by: self.caused_by,
            correlation: self.correlation,
        }
    }
}

impl Clone for ToolCallNode {
    fn clone(&self) -> (r: Self)
        ensures
            r.deep_view() == self.deep_view(),
    {
        self.replica()
    }
}

impl Replica for Anomaly {
    fn replica(&self) -> (r: Self) {
        Anomaly {
            kind: self.kind,
            repetitions: self.repetitions,
            tool: replica_text(&self.tool),
            original_intent_seq: self.original_intent_seq,
        }
    }
}

impl Clone for Anomaly {
    fn clone(&self) -> (r: Self)
        ensures
            r.deep_view() == self.deep_view(),
    {
        self.replica()
    }
}

/// A copy of a list.
pub fn replica_list<T: Replica>(items: &Vec<T>) -> (r: Vec<T>)
    ensures
        r.deep_view() == items.deep_view(),
{
    let mut out: Vec<T> = Vec::new();
    let mut i: usize = 0;
    while i < items.len()
        invariant
            i <= items.len(),
            out.deep_view() == items.deep_view().take(i as int),
        decreases items.len() - i,
    {
        let ghost was = out.deep_view();
        out.push(items[i].replica());
        assert(out.deep_view() =~= was.push(items.deep_view()[i as int]));
        assert(items.deep_view().take(i + 1) =~= was.push(items.deep_view()[i as int]));
        i += 1;
    }
    assert(out.deep_view() =~= items.deep_view());
    out
}

impl Replica for CausalThread {
    fn replica(&self) -> (r: Self) {
        CausalThread {
            decisions: replica_list(&self.decisions),
            tool_calls: replica_list(&self.tool_calls),
            anomalies: replica_list(&self.anomalies),
        }
    }
}

impl Clone for CausalThread {
    fn clone(&self) -> (r: Self)
        ensures
            r.deep_view() == self.deep_view(),
    {
        self.replica()
    }
}

impl Default for CausalThread {
    fn default() -> (r: Self)
        ensures
            r.deep_view() == (CausalModel {
                decisions: Seq::empty(),
                tool_calls: Seq::empty(),
                anomalies: Seq::empty(),
            }),
    {
        let r = CausalThread {
            decisions: Vec::new(),
            tool_calls: Vec::new(),
            anomalies: Vec::new(),
        };
        assert(r.decisions.deep_view() =~= Seq::empty());
        assert(r.tool_calls.deep_view() =~= Seq::empty());
        assert(r.anomalies.deep_view() =~= Seq::empty());
        r
    }
}

/// Notes that `seq` was caused by `parent`.
fn note_effect(effects: &mut SortedMap<u64, Vec<u64>>, parent: u64, seq: u64)
    ensures
        final(effects).deep_view() == old(effects).deep_view().insert(
            parent,
            (if old(effects).deep_view().contains_key(parent) {
                old(effects).deep_view()[parent]
            } else {
                Seq::empty()
            }).push(seq),
        ),
{
    let ghost before = effects.deep_view();
    let mut list: Vec<u64> = match effects.remove(&parent) {
        Some(list) => list,
        None => Vec::new(),
    };
    let ghost was = list.deep_view();
    assert(was =~= (if before.contains_key(parent) {
        before[parent]
    } else {
        Seq::empty()
    }));
    list.push(seq);
    assert(list.deep_view() =~= was.push(seq));
    let ghost now = list.deep_view();
    effects.insert(parent, list);
    assert(effects.deep_view() =~= before.insert(parent, now));
}

/// The effects noted for `parent`.
spec fn noted(effects: Map<u64, Seq<u64>>, parent: u64) -> Seq<u64> {
    if effects.contains_key(parent) {
        effects[parent]
    } else {
        Seq::empty()
    }
}

/// The effects noted are those among `rows`.
spec fn effects_noted(effects: Map<u64, Seq<u64>>, rows: ThreadRows) -> bool {
    forall|parent: u64| #[trigger] noted(effects, parent) == effects_of(rows, parent)
}

impl CausalThread {
    /// Build a causal thread from a slice of events (on-demand rebuild).
    pub fn from_events(events: &Vec<Event>) -> (r: Self)
        ensures
            r.deep_view() == causal_of(leading_thread(events.deep_view())),
    {
        let mut state = CausalThreadProjection::empty_state();
        let ghost all = events.deep_view();
        let mut i: usize = 0;
        assert(all.take(0) =~= Seq::empty());
        while i < events.len()
            invariant
                i <= events.len(),
                all == events.deep_view(),
                state.deep_view() == fold::<CausalThreadProjection>(all.take(i as int)),
            decreases events.len() - i,
        {
            proof {
                let next = all.take(i + 1);
                assert(next.drop_last() =~= all.take(i as int));
                assert(next.last() == events@[i as int].deep_view());
            }
            CausalThreadProjection::apply(&mut state, &events[i]);
            i += 1;
        }
        assert(all.take(i as int) =~= all);
        let stream_id = if state.streams.len() > 0 {
            StreamId(state.streams.key_at(0).clone())
        } else {
            StreamId("".to_owned())
        };
        Self::from_state(&state, &stream_id)
    }

    /// Build a causal thread from the projection state for the given stream.
    pub fn from_state(state: &CausalThreadState, stream_id: &StreamId) -> (r: Self)
        ensures
            r.deep_view() == causal_of(thread_of(state.deep_view(), stream_id.deep_view())),
    {
        match state.streams.get(&stream_id.0) {
            Some(thread) => Self::from_thread(thread),
            None => Self::from_thread(&StreamThread::new()),
        }
    }

    /// Build a causal thread from the events of one stream.
    pub fn from_thread(thread: &StreamThread) -> (r: Self)
        ensures
            r.deep_view() == causal_of(thread.deep_view()),
    {
        let n: usize = thread.events.len();
        let ghost rows = thread.events.pairs();
        let mut decisions: Vec<DecisionNode> = Vec::new();
        let mut tool_calls: Vec<ToolCallNode> = Vec::new();
        let mut effects: SortedMap<u64, Vec<u64>> = SortedMap::new();
        let ghost nothing: ThreadRows = Seq::empty();
        let mut i: usize = 0;
        proof {
            assert(rows.take(0) =~= nothing);
            assert(decisions.deep_view() =~= Seq::empty());
            assert(tool_calls.deep_view() =~= Seq::empty());
        }
        while i < n
            invariant
                i <= n,
                n == rows.len(),
                rows == thread.events.pairs(),
                nothing == Seq::<(u64, ThreadEventModel)>::empty(),
                decisions.deep_view() == decisions_of(rows.take(i as int), nothing),
                tool_calls.deep_view() == calls_of(rows.take(i as int)),
                effects_noted(effects.deep_view(), rows.take(i as int)),
            decreases n - i,
        {
            let seq: u64 = *thread.events.key_at(i);
            let ghost part = rows.take(i as int);
            let ghost next = rows.take(i + 1);
            let ghost was = decisions.deep_view();
            let ghost calls = tool_calls.deep_view();
            let ghost known = effects.deep_view();
            proof {
                assert(next.drop_last() =~= part);
                assert(next.last() == rows[i as int]);
            }
            match thread.events.value_at(i) {
                ThreadEvent::Decision { agent, description, phase, caused_by, correlation } => {
                    if let Some(parent) = caused_by {
                        note_effect(&mut effects, *parent, seq);
                    }
                    let caused: Vec<u64> = Vec::new();
                    assert(caused@ =~= effects_of(nothing, seq));
                    decisions.push(
                        DecisionNode {
                            seq,
                            agent: agent.clone(),
                            description: description.clone(),
                            phase: replica_text(phase),
                            caused_by: *caused_by,
                            caused,
                            correlation: *correlation,
                        },
                    );
                    assert(decisions.deep_view() =~= was.push(
                        decisions@[decisions@.len() - 1].deep_view(),
                    ));
                },
                ThreadEvent::ToolCall { agent, tool, outcome, caused_by, correlation } => {
                    if let Some(parent) = caused_by {
                        note_effect(&mut effects, *parent, seq);
                    }
                    tool_calls.push(
                        ToolCallNode {
                            seq,
                            agent: agent.clone(),
                            tool: tool.clone(),
                            outcome: outcome.clone(),
                            caused_by: *caused_by,
                            correlation: *correlation,
                        },
                    );
                    assert(tool_calls.deep_view() =~= calls.push(
                        tool_calls@[tool_calls@.len() - 1].deep_view(),
                    ));
                },
                ThreadEvent::Intent { .. } => {},
            }
            proof {
                assert forall|parent: u64| #[trigger]
                    noted(effects.deep_view(), parent) == effects_of(next, parent) by {
                    assert(noted(known, parent) == effects_of(part, parent));
                }
            }
            i += 1;
        }
        assert(rows.take(i as int) =~= rows);
        proof {
            lemma_decision_count(rows, nothing, rows);
        }
        let count: usize = decisions.len();
        let mut d: usize = 0;
        while d < count
            invariant
                d <= count,
                count == decisions.len(),
                effects_noted(effects.deep_view(), rows),
                decisions_of(rows, rows).len() == count,
                decisions_of(rows, nothing).len() == count,
                forall|j: int|
                    0 <= j < count ==> #[trigger] decisions_of(rows, rows)[j] == (DecisionModel {
                        caused: effects_of(rows, decisions_of(rows, nothing)[j].seq),
                        ..decisions_of(rows, nothing)[j]
                    }),
                forall|j: int|
                    0 <= j < d ==> (#[trigger] decisions@[j]).deep_view() == decisions_of(
                        rows,
                        rows,
                    )[j],
                forall|j: int|
                    d <= j < count ==> (#[trigger] decisions@[j]).deep_view() == decisions_of(
                        rows,
                        nothing,
                    )[j],
            decreases count - d,
        {
            let mut caused: Vec<u64> = Vec::new();
            match effects.get(&decisions[d].seq) {
                Some(list) => {
                    caused = replica_list(list);
                    assert(caused@ =~= caused.deep_view());
                },
                None => {},
            }
            let ghost parent = decisions@[d as int].seq;
            assert(noted(effects.deep_view(), parent) == effects_of(rows, parent));
            assert(caused@ =~= effects_of(rows, parent));
            decisions[d].caused = caused;
            d += 1;
        }
        assert(decisions.deep_view() =~= decisions_of(rows, rows));
        let anomalies = detect_anomalies(thread);
        CausalThread { decisions, tool_calls, anomalies }
    }
}

/// Decisions are found in the same places whatever their effects are looked up
/// in.
proof fn lemma_decision_count(part: ThreadRows, a: ThreadRows, b: ThreadRows)
    ensures
        decisions_of(part, a).len() == decisions_of(part, b).len(),
        forall|j: int|
            0 <= j < decisions_of(part, b).len() ==> #[trigger] decisions_of(part, b)[j] == (
            DecisionModel {
                caused: effects_of(b, decisions_of(part, a)[j].seq),
                ..decisions_of(part, a)[j]
            }),
    decreases part.len(),
{
    if part.len() > 0 {
        lemma_decision_count(part.drop_last(), a, b);
    }
}

/// Every anomaly of a thread: its error loops, then its drift.
pub fn detect_anomalies(thread: &StreamThread) -> (r: Vec<Anomaly>)
    ensures
        r.deep_view() == anomalies_of(rows_of::<u64, ThreadEventModel>(thread.deep_view())),
{
    let mut anomalies: Vec<Anomaly> = Vec::new();
    assert(anomalies.deep_view() =~= Seq::empty());
    detect_error_loops(thread, &mut anomalies);
    detect_objective_drift(thread, &mut anomalies);
    assert(anomalies.deep_view() =~= anomalies_of(
        rows_of::<u64, ThreadEventModel>(thread.deep_view()),
    ));
    anomalies
}

/// A failure with the number of times it has occurred.
struct Tally {
    tool: String,
    message: String,
    count: u64,
}

spec fn tally_key(tally: Tally) -> (Seq<char>, Seq<char>) {
    (tally.tool@, tally.message@)
}

/// Counts one more failure.
fn count_failure(tallies: &mut Vec<Tally>, tool: &String, message: &String, Ghost(failures): Ghost<
    Seq<(Seq<char>, Seq<char>)>,
>)
    requires
        failures.len() < u64::MAX,
        old(tallies)@.map_values(|t: Tally| tally_key(t)) == first_seen(failures),
        forall|i: int|
            0 <= i < old(tallies).len() ==> (#[trigger] old(tallies)@[i]).count == occurrences(
                failures,
                tally_key(old(tallies)@[i]),
            ),
    ensures
        final(tallies)@.map_values(|t: Tally| tally_key(t)) == first_seen(
            failures.push((tool@, message@)),
        ),
        forall|i: int|
            0 <= i < final(tallies).len() ==> (#[trigger] final(tallies)@[i]).count == occurrences(
                failures.push((tool@, message@)),
                tally_key(final(tallies)@[i]),
            ),
{
    let ghost key = (tool@, message@);
    let ghost keys = first_seen(failures);
    let ghost all = failures.push(key);
    let ghost was = tallies@;
    proof {
        assert(all.drop_last() =~= failures);
        lemma_first_seen(failures);
        lemma_occurrences_absent(failures, key);
    }
    let mut i: usize = 0;
    while i < tallies.len()
        invariant
            i <= tallies.len(),
            tallies@ == was,
            was.map_values(|t: Tally| tally_key(t)) == keys,
            key == (tool@, message@),
            failures.len() < u64::MAX,
            keys == first_seen(failures),
            all == failures.push(key),
            all.drop_last() == failures,
            keys.no_duplicates(),
            forall|j: int|
                0 <= j < was.len() ==> (#[trigger] was[j]).count == occurrences(
                    failures,
                    tally_key(was[j]),
                ),
            forall|j: int| 0 <= j < i ==> #[trigger] keys[j] != key,
        decreases tallies.len() - i,
    {
        assert(keys[i as int] == tally_key(was[i as int]));
        if tallies[i].tool == *tool && tallies[i].message == *message {
            let count: u64 = tallies[i].count;
            proof {
                lemma_occurrences_absent(failures, key);
                assert(keys.contains(keys[i as int]));
            }
            tallies[i].count = count + 1;
            proof {
                assert(tallies@.map_values(|t: Tally| tally_key(t)) =~= keys);
                assert forall|j: int|
                    0 <= j < tallies.len() implies (#[trigger] tallies@[j]).count == occurrences(
                    all,
                    tally_key(tallies@[j]),
                ) by {
                    if j != i {
                        assert(keys[j] == tally_key(was[j]));
                        assert(keys[j] != keys[i as int]);
                    }
                }
            }
            return ;
        }
        i += 1;
    }
    tallies.push(Tally { tool: tool.clone(), message: message.clone(), count: 1 });
    proof {
        assert(!keys.contains(key));
        assert(tallies@.map_values(|t: Tally| tally_key(t)) =~= keys.push(key));
        assert forall|j: int|
            0 <= j < tallies.len() implies (#[trigger] tallies@[j]).count == occurrences(
            all,
            tally_key(tallies@[j]),
        ) by {
            if j < was.len() {
                assert(tallies@[j] == was[j]);
                assert(keys[j] == tally_key(was[j]));
                assert(keys.contains(keys[j]));
            } else {
                assert(!failures.contains(key));
            }
        }
    }
}

/// Appends an anomaly for every failure (tool and message) that occurred at
/// least [`ERROR_LOOP_LENGTH`] times, in the order of first occurrence.
pub fn detect_error_loops(thread: &StreamThread, anomalies: &mut Vec<Anomaly>)
    ensures
        final(anomalies).deep_view() == old(anomalies).deep_view() + error_loops_of(
            rows_of::<u64, ThreadEventModel>(thread.deep_view()),
        ),
{
    let n: usize = thread.events.len();
    let ghost rows = thread.events.pairs();
    let ghost start = anomalies.deep_view();
    let mut tallies: Vec<Tally> = Vec::new();
    let mut i: usize = 0;
    proof {
        assert(rows.take(0) =~= Seq::empty());
        assert(tallies@.map_values(|t: Tally| tally_key(t)) =~= first_seen(
            failures_of(rows.take(0)),
        ));
    }
    while i < n
        invariant
            i <= n,
            n == rows.len(),
            rows == thread.events.pairs(),
            failures_of(rows.take(i as int)).len() <= i,
            tallies@.map_values(|t: Tally| tally_key(t)) == first_seen(
                failures_of(rows.take(i as int)),
            ),
            forall|j: int|
                0 <= j < tallies.len() ==> (#[trigger] tallies@[j]).count == occurrences(
                    failures_of(rows.take(i as int)),
                    tally_key(tallies@[j]),
                ),
        decreases n - i,
    {
        proof {
            let next = rows.take(i + 1);
            assert(next.drop_last() =~= rows.take(i as int));
            assert(next.last() == rows[i as int]);
        }
        if let ThreadEvent::ToolCall { tool, outcome, .. } = thread.events.value_at(i) {
            if let ToolOutcome::Failed(message) = outcome {
                count_failure(
                    &mut tallies,
                    tool,
                    message,
                    Ghost(failures_of(rows.take(i as int))),
                );
            }
        }
        i += 1;
    }
    assert(rows.take(i as int) =~= rows);
    let ghost failures = failures_of(rows);
    let ghost different = first_seen(failures);
    let mut j: usize = 0;
    assert(start + loops_among(different, failures, 0) =~= start);
    while j < tallies.len()
        invariant
            j <= tallies.len(),
            different == first_seen(failures),
            tallies@.map_values(|t: Tally| tally_key(t)) == different,
            forall|k: int|
                0 <= k < tallies.len() ==> (#[trigger] tallies@[k]).count == occurrences(
                    failures,
                    tally_key(tallies@[k]),
                ),
            anomalies.deep_view() == start + loops_among(different, failures, j as nat),
        decreases tallies.len() - j,
    {
        let ghost was = anomalies.deep_view();
        assert(different[j as int] == tally_key(tallies@[j as int]));
        if tallies[j].count >= ERROR_LOOP_LENGTH as u64 {
            #[verifier::truncate]
            let repetitions: u32 = tallies[j].count as u32;
            anomalies.push(
                Anomaly {
                    kind: AnomalyKind::ErrorLoop,
                    repetitions,
                    tool: Some(tallies[j].tool.clone()),
                    original_intent_seq: None,
                },
            );
            proof {
                let added = anomalies@[anomalies@.len() - 1].deep_view();
                assert(anomalies.deep_view() =~= was.push(added));
                assert(start + loops_among(different, failures, (j + 1) as nat) =~= was.push(
                    added,
                ));
            }
        }
        j += 1;
    }
}

/// Appends an anomaly if at least [`DRIFT_LENGTH`] decisions have a correlation other
/// than that of the first intent of the thread.
pub fn detect_objective_drift(thread: &StreamThread, anomalies: &mut Vec<Anomaly>)
    ensures
        final(anomalies).deep_view() == old(anomalies).deep_view() + drift_of(
            rows_of::<u64, ThreadEventModel>(thread.deep_view()),
        ),
{
    let n: usize = thread.events.len();
    let ghost rows = thread.events.pairs();
    let ghost start = anomalies.deep_view();
    let mut intent: Option<(u64, Option<u128>)> = None;
    let mut i: usize = 0;
    assert(rows.skip(0) =~= rows);
    while i < n && intent.is_none()
        invariant
            i <= n,
            n == rows.len(),
            rows == thread.events.pairs(),
            intent is None ==> first_intent(rows) == first_intent(rows.skip(i as int)),
            intent is Some ==> first_intent(rows) == intent,
        decreases n - i,
    {
        proof {
            assert(rows.skip(i as int)[0] == rows[i as int]);
            assert(rows.skip(i as int).drop_first() =~= rows.skip(i + 1));
        }
        if let ThreadEvent::Intent { correlation, .. } = thread.events.value_at(i) {
            intent = Some((*thread.events.key_at(i), *correlation));
        }
        i += 1;
    }
    match intent {
        Some((intent_seq, correlation)) => {
            let mut count: usize = 0;
            let mut j: usize = 0;
            assert(rows.take(0) =~= Seq::empty());
            while j < n
                invariant
                    j <= n,
                    n == rows.len(),
                    rows == thread.events.pairs(),
                    count <= j,
                    count == strays(rows.take(j as int), correlation),
                decreases n - j,
            {
                proof {
                    let next = rows.take(j + 1);
                    assert(next.drop_last() =~= rows.take(j as int));
                    assert(next.last() == rows[j as int]);
                }
                if let ThreadEvent::Decision { correlation: own, .. } = thread.events.value_at(j) {
                    if own.is_some() && *own != correlation {
                        count += 1;
                    }
                }
                j += 1;
            }
            assert(rows.take(j as int) =~= rows);
            if count >= DRIFT_LENGTH as usize {
                #[verifier::truncate]
                let repetitions: u32 = count as u32;
                anomalies.push(
                    Anomaly {
                        kind: AnomalyKind::ObjectiveDrift,
                        repetitions,
                        tool: None,
                        original_intent_seq: Some(intent_seq),
                    },
                );
                assert(anomalies.deep_view() =~= start + drift_of(rows));
            } else {
                assert(anomalies.deep_view() =~= start + drift_of(rows));
            }
        },
        None => {
            assert(rows.skip(i as int).len() == 0);
            assert(anomalies.deep_view() =~= start + drift_of(rows));
        },
    }
}

/// A decision's effects are exactly the events of the thread that name it as their
/// cause.
pub proof fn law_effects_are_exact(rows: ThreadRows, seq: u64, effect: u64)
    ensures
        effects_of(rows, seq).contains(effect) <==> exists|i: int|
            0 <= i < rows.len() && (#[trigger] rows[i]).0 == effect && cause_of(rows[i].1) == Some(
                seq,
            ),
    decreases rows.len(),
{
    if rows.len() > 0 {
        let rest = rows.drop_last();
        let before = effects_of(rest, seq);
        let all = effects_of(rows, seq);
        law_effects_are_exact(rest, seq, effect);
        if all.contains(effect) {
            let k = choose|k: int| 0 <= k < all.len() && all[k] == effect;
            if k < before.len() {
                assert(before[k] == effect);
                assert(before.contains(effect));
                let i = choose|i: int|
                    0 <= i < rest.len() && (#[trigger] rest[i]).0 == effect && cause_of(rest[i].1)
                        == Some(seq);
                assert(rows[i] == rest[i]);
            } else {
                assert(rows[rows.len() - 1].0 == effect);
            }
        }
        if exists|i: int|
            0 <= i < rows.len() && (#[trigger] rows[i]).0 == effect && cause_of(rows[i].1) == Some(
                seq,
            ) {
            let i = choose|i: int|
                0 <= i < rows.len() && (#[trigger] rows[i]).0 == effect && cause_of(rows[i].1)
                    == Some(seq);
            if i < rest.len() {
                assert(rest[i] == rows[i]);
                assert(before.contains(effect));
                let k = choose|k: int| 0 <= k < before.len() && before[k] == effect;
                assert(all[k] == effect);
            } else {
                assert(all[before.len() as int] == effect);
            }
        }
    }
}

proof fn lemma_loops_among(
    different: Seq<(Seq<char>, Seq<char>)>,
    failures: Seq<(Seq<char>, Seq<char>)>,
    n: nat,
    tool: Seq<char>,
)
    requires
        n <= different.len(),
    ensures
        (exists|k: int|
            0 <= k < loops_among(different, failures, n).len() && (#[trigger] loops_among(
                different,
                failures,
                n,
            )[k]).tool == Some(tool)) <==> (exists|i: int|
            0 <= i < n && (#[trigger] different[i]).0 == tool && occurrences(failures, different[i])
                >= ERROR_LOOP_LENGTH),
    decreases n,
{
    if n > 0 {
        let m = (n - 1) as nat;
        let before = loops_among(different, failures, m);
        let all = loops_among(different, failures, n);
        lemma_loops_among(different, failures, m, tool);
        if exists|k: int| 0 <= k < all.len() && (#[trigger] all[k]).tool == Some(tool) {
            let k = choose|k: int| 0 <= k < all.len() && (#[trigger] all[k]).tool == Some(tool);
            if k < before.len() {
                assert(before[k].tool == Some(tool));
            } else {
                assert(different[n - 1].0 == tool);
            }
        }
        if exists|i: int|
            0 <= i < n && (#[trigger] different[i]).0 == tool && occurrences(failures, different[i])
                >= ERROR_LOOP_LENGTH {
            let i = choose|i: int|
                0 <= i < n && (#[trigger] different[i]).0 == tool && occurrences(
                    failures,
                    different[i],
                ) >= ERROR_LOOP_LENGTH;
            if i < m {
                let k = choose|k: int|
                    0 <= k < before.len() && (#[trigger] before[k]).tool == Some(tool);
                assert(all[k].tool == Some(tool));
            } else {
                assert(all[before.len() as int].tool == Some(tool));
            }
        }
    }
}

/// A tool is in an error loop exactly if it failed with one message often enough.
pub proof fn law_error_loops_are_repeated_failures(rows: ThreadRows, tool: Seq<char>)
    ensures
        (exists|k: int|
            0 <= k < error_loops_of(rows).len() && (#[trigger] error_loops_of(rows)[k]).tool == Some(
                tool,
            )) <==> (exists|message: Seq<char>| #[trigger]
            occurrences(failures_of(rows), (tool, message)) >= ERROR_LOOP_LENGTH),
{
    let failures = failures_of(rows);
    let different = first_seen(failures);
    lemma_first_seen(failures);
    lemma_loops_among(different, failures, different.len(), tool);
    if exists|message: Seq<char>| #[trigger]
        occurrences(failures, (tool, message)) >= ERROR_LOOP_LENGTH {
        let message = choose|message: Seq<char>| #[trigger]
            occurrences(failures, (tool, message)) >= ERROR_LOOP_LENGTH;
        lemma_occurrences_absent(failures, (tool, message));
        assert(failures.contains((tool, message)));
        assert(different.contains((tool, message)));
        let i = choose|i: int| 0 <= i < different.len() && different[i] == (tool, message);
        assert(different[i].0 == tool);
    }
    if exists|i: int|
        0 <= i < different.len() && (#[trigger] different[i]).0 == tool && occurrences(
            failures,
            different[i],
        ) >= ERROR_LOOP_LENGTH {
        let i = choose|i: int|
            0 <= i < different.len() && (#[trigger] different[i]).0 == tool && occurrences(
                failures,
                different[i],
            ) >= ERROR_LOOP_LENGTH;
        assert(different[i] == (tool, different[i].1));
    }
}

/// A thread has drifted exactly if it has an intent and enough decisions whose
/// correlation is another one.
pub proof fn law_drift_needs_enough_strays(rows: ThreadRows)
    ensures
        drift_of(rows).len() <= 1,
        drift_of(rows).len() == 1 <==> first_intent(rows) is Some && strays(
            rows,
            (first_intent(rows)->0).1,
        ) >= DRIFT_LENGTH,
{
}

/// Decisions without a correlation are no sign of drift: a thread in which no decision
/// has one has not drifted.
pub proof fn law_uncorrelated_decisions_are_no_drift(rows: ThreadRows)
    requires
        forall|i: int|
            0 <= i < rows.len() && (#[trigger] rows[i]).1 is Decision
                ==> rows[i].1->Decision_correlation is None,
    ensures
        drift_of(rows) == Seq::<AnomalyModel>::empty(),
{
    if let Some((seq, correlation)) = first_intent(rows) {
        lemma_no_strays(rows, correlation);
    }
}

proof fn lemma_no_strays(rows: ThreadRows, correlation: Option<u128>)
    requires
        forall|i: int|
            0 <= i < rows.len() && (#[trigger] rows[i]).1 is Decision
                ==> rows[i].1->Decision_correlation is None,
    ensures
        strays(rows, correlation) == 0,
    decreases rows.len(),
{
    if rows.len() > 0 {
        let rest = rows.drop_last();
        assert forall|i: int| 0 <= i < rest.len() && (#[trigger] rest[i]).1 is Decision implies
            rest[i].1->Decision_correlation is None by {
            assert(rest[i] == rows[i]);
        }
        lemma_no_strays(rest, correlation);
        assert(rows[rows.len() - 1] == rows.last());
    }
}

/// A row tells that a tool failed with a message.
pub open spec fn tells_failure(
    row: (u64, ThreadEventModel),
    tool: Seq<char>,
    message: Seq<char>,
) -> bool {
    row.1 is ToolCall && row.1->ToolCall_tool == tool && row.1->ToolCall_outcome
        == OutcomeModel::Failed(message)
}

/// How often a tool failed with a message.
pub open spec fn times_failed(rows: ThreadRows, tool: Seq<char>, message: Seq<char>) -> nat {
    rows.filter(|row: (u64, ThreadEventModel)| tells_failure(row, tool, message)).len()
}

proof fn lemma_times_failed(rows: ThreadRows, tool: Seq<char>, message: Seq<char>)
    ensures
        occurrences(failures_of(rows), (tool, message)) == times_failed(rows, tool, message),
    decreases rows.len(),
{
    let keep = |row: (u64, ThreadEventModel)| tells_failure(row, tool, message);
    reveal(Seq::filter);
    if rows.len() > 0 {
        let rest = rows.drop_last();
        lemma_times_failed(rest, tool, message);
        assert(rows =~= rest.push(rows.last()));
        lemma_filter_push(rest, rows.last(), keep);
        let before = failures_of(rest);
        match rows.last().1 {
            ThreadEventModel::ToolCall { tool: own, outcome: OutcomeModel::Failed(text), .. } => {
                lemma_occurrences_push(before, (own, text), (tool, message));
            },
            _ => {},
        }
    }
}

proof fn lemma_kept_loops(
    different: Seq<(Seq<char>, Seq<char>)>,
    failures: Seq<(Seq<char>, Seq<char>)>,
    n: nat,
)
    requires
        n <= different.len(),
    ensures
        ({
            let keys = different.take(n as int).filter(
                |key: (Seq<char>, Seq<char>)| occurrences(failures, key) >= ERROR_LOOP_LENGTH,
            );
            let loops = loops_among(different, failures, n);
            &&& loops.len() == keys.len()
            &&& forall|k: int|
                0 <= k < loops.len() ==> #[trigger] loops[k] == (AnomalyModel {
                    kind: AnomalyKind::ErrorLoop,
                    repetitions: occurrences(failures, keys[k]) as u32,
                    tool: Some(keys[k].0),
                    original_intent_seq: None,
                })
        }),
    decreases n,
{
    let keep = |key: (Seq<char>, Seq<char>)| occurrences(failures, key) >= ERROR_LOOP_LENGTH;
    reveal(Seq::filter);
    if n > 0 {
        lemma_kept_loops(different, failures, (n - 1) as nat);
        let part = different.take(n - 1);
        assert(different.take(n as int) =~= part.push(different[n - 1]));
        lemma_filter_push(part, different[n - 1], keep);
    }
}

/// There is one error loop for every tool and message that the tool failed with at least
/// three times, and no other: it names the tool and tells how often it failed so.
pub proof fn law_error_loops_count_equal_failures(rows: ThreadRows)
    ensures
        exists|keys: Seq<(Seq<char>, Seq<char>)>|
            {
                &&& #[trigger] keys.no_duplicates()
                &&& forall|tool: Seq<char>, message: Seq<char>| #[trigger]
                    keys.contains((tool, message)) <==> times_failed(rows, tool, message) >= 3
                &&& keys.len() == error_loops_of(rows).len()
                &&& forall|k: int|
                    0 <= k < keys.len() ==> #[trigger] error_loops_of(rows)[k] == (AnomalyModel {
                        kind: AnomalyKind::ErrorLoop,
                        repetitions: times_failed(rows, keys[k].0, keys[k].1) as u32,
                        tool: Some(keys[k].0),
                        original_intent_seq: None,
                    })
            },
{
    let failures = failures_of(rows);
    let different = first_seen(failures);
    let keep = |key: (Seq<char>, Seq<char>)| occurrences(failures, key) >= ERROR_LOOP_LENGTH;
    let keys = different.filter(keep);
    lemma_first_seen(failures);
    lemma_kept_loops(different, failures, different.len());
    assert(different.take(different.len() as int) =~= different);
    lemma_filter_distinct(different, keep);
    assert forall|tool: Seq<char>, message: Seq<char>| #[trigger]
        keys.contains((tool, message)) <==> times_failed(rows, tool, message) >= 3 by {
        lemma_times_failed(rows, tool, message);
        lemma_filter_has(different, keep);
        lemma_occurrences_absent(failures, (tool, message));
    }
    assert forall|k: int| 0 <= k < keys.len() implies #[trigger] error_loops_of(rows)[k] == (
    AnomalyModel {
        kind: AnomalyKind::ErrorLoop,
        repetitions: times_failed(rows, keys[k].0, keys[k].1) as u32,
        tool: Some(keys[k].0),
        original_intent_seq: None,
    }) by {
        lemma_times_failed(rows, keys[k].0, keys[k].1);
    }
    assert(keys.no_duplicates());
}

proof fn lemma_filter_distinct(
    keys: Seq<(Seq<char>, Seq<char>)>,
    keep: spec_fn((Seq<char>, Seq<char>)) -> bool,
)
    requires
        keys.no_duplicates(),
    ensures
        keys.filter(keep).no_duplicates(),
    decreases keys.len(),
{
    reveal(Seq::filter);
    if keys.len() > 0 {
        let rest = keys.drop_last();
        assert(keys =~= rest.push(keys.last()));
        lemma_filter_distinct(rest, keep);
        lemma_filter_push(rest, keys.last(), keep);
        lemma_filter_has(rest, keep);
        if rest.contains(keys.last()) {
            let i = choose|i: int| 0 <= i < rest.len() && rest[i] == keys.last();
            assert(keys[i] == keys[keys.len() - 1]);
        }
        let before = rest.filter(keep);
        let all = keys.filter(keep);
        assert forall|i: int, j: int| 0 <= i < j < all.len() implies all[i] != all[j] by {
            if j == before.len() {
                assert(before[i] == all[i]);
                assert(before.contains(all[i]));
            }
        }
    }
}

/// The `k`-th row is the first intent.
pub open spec fn is_first_intent(rows: ThreadRows, k: int) -> bool {
    &&& 0 <= k < rows.len()
    &&& rows[k].1 is Intent
    &&& forall|j: int| 0 <= j < k ==> !((#[trigger] rows[j]).1 is Intent)
}

proof fn lemma_first_intent(rows: ThreadRows, k: int)
    requires
        is_first_intent(rows, k),
    ensures
        first_intent(rows) == Some((rows[k].0, rows[k].1->Intent_correlation)),
    decreases rows.len(),
{
    if k > 0 {
        let rest = rows.drop_first();
        assert(!(rows[0].1 is Intent));
        assert forall|j: int| 0 <= j < k - 1 implies !((#[trigger] rest[j]).1 is Intent) by {
            assert(rest[j] == rows[j + 1]);
        }
        assert(rest[k - 1] == rows[k]);
        lemma_first_intent(rest, k - 1);
    }
}

proof fn lemma_no_intent(rows: ThreadRows)
    requires
        forall|j: int| 0 <= j < rows.len() ==> !((#[trigger] rows[j]).1 is Intent),
    ensures
        first_intent(rows) is None,
    decreases rows.len(),
{
    if rows.len() > 0 {
        let rest = rows.drop_first();
        assert(!(rows[0].1 is Intent));
        assert forall|j: int| 0 <= j < rest.len() implies !((#[trigger] rest[j]).1 is Intent) by {
            assert(rest[j] == rows[j + 1]);
        }
        lemma_no_intent(rest);
    }
}

/// A row is a decision under another correlation than the given one.
pub open spec fn tells_divergence(
    row: (u64, ThreadEventModel),
    correlation: Option<u128>,
) -> bool {
    row.1 is Decision && row.1->Decision_correlation is Some && row.1->Decision_correlation
        != correlation
}

proof fn lemma_strays_counted(rows: ThreadRows, correlation: Option<u128>)
    ensures
        strays(rows, correlation) == rows.filter(
            |row: (u64, ThreadEventModel)| tells_divergence(row, correlation),
        ).len(),
    decreases rows.len(),
{
    let keep = |row: (u64, ThreadEventModel)| tells_divergence(row, correlation);
    reveal(Seq::filter);
    if rows.len() > 0 {
        let rest = rows.drop_last();
        lemma_strays_counted(rest, correlation);
        assert(rows =~= rest.push(rows.last()));
        lemma_filter_push(rest, rows.last(), keep);
    }
}

/// A thread has drifted exactly if at least five of its decisions have a correlation that
/// is not the one of its first intent. The anomaly tells how many there are and names
/// that intent; later intents do not matter.
pub proof fn law_drift_counts_divergent_decisions(rows: ThreadRows, k: int)
    requires
        is_first_intent(rows, k),
    ensures
        ({
            let divergent = rows.filter(
                |row: (u64, ThreadEventModel)|
                    tells_divergence(row, rows[k].1->Intent_correlation),
            );
            drift_of(rows) == (if divergent.len() >= 5 {
                seq![
                    AnomalyModel {
                        kind: AnomalyKind::ObjectiveDrift,
                        repetitions: divergent.len() as u32,
                        tool: None,
                        original_intent_seq: Some(rows[k].0),
                    },
                ]
            } else {
                Seq::empty()
            })
        }),
{
    lemma_first_intent(rows, k);
    lemma_strays_counted(rows, rows[k].1->Intent_correlation);
}

/// A thread without an intent has nothing to drift from.
pub proof fn law_no_drift_without_intent(rows: ThreadRows)
    requires
        forall|j: int| 0 <= j < rows.len() ==> !((#[trigger] rows[j]).1 is Intent),
    ensures
        drift_of(rows) == Seq::<AnomalyModel>::empty(),
{
    lemma_no_intent(rows);
}

/// A thread all of whose decisions have the correlation of its first intent has not
/// drifted.
pub proof fn law_decisions_on_the_objective_are_no_drift(rows: ThreadRows, k: int)
    requires
        is_first_intent(rows, k),
        forall|i: int|
            0 <= i < rows.len() && (#[trigger] rows[i]).1 is Decision
                ==> rows[i].1->Decision_correlation == rows[k].1->Intent_correlation,
    ensures
        drift_of(rows) == Seq::<AnomalyModel>::empty(),
{
    lemma_first_intent(rows, k);
    lemma_none_stray(rows, rows[k].1->Intent_correlation);
}

proof fn lemma_none_stray(rows: ThreadRows, correlation: Option<u128>)
    requires
        forall|i: int|
            0 <= i < rows.len() && (#[trigger] rows[i]).1 is Decision
                ==> rows[i].1->Decision_correlation == correlation,
    ensures
        strays(rows, correlation) == 0,
    decreases rows.len(),
{
    if rows.len() > 0 {
        let rest = rows.drop_last();
        assert forall|i: int| 0 <= i < rest.len() && (#[trigger] rest[i]).1 is Decision implies
            rest[i].1->Decision_correlation == correlation by {
            assert(rest[i] == rows[i]);
        }
        lemma_none_stray(rest, correlation);
        assert(rows[rows.len() - 1] == rows.last());
    }
}

/// A row holds the decision: everything about it but its effects.
pub open spec fn holds_decision(row: (u64, ThreadEventModel), decision: DecisionModel) -> bool {
    &&& row.0 == decision.seq
    &&& row.1 is Decision
    &&& row.1->Decision_agent == decision.agent
    &&& row.1->Decision_description == decision.description
    &&& row.1->Decision_phase == decision.phase
    &&& row.1->Decision_caused_by == decision.caused_by
    &&& row.1->Decision_correlation == decision.correlation
}

/// A row holds the tool call.
pub open spec fn holds_call(row: (u64, ThreadEventModel), call: CallModel) -> bool {
    &&& row.0 == call.seq
    &&& row.1 is ToolCall
    &&& row.1->ToolCall_agent == call.agent
    &&& row.1->ToolCall_tool == call.tool
    &&& row.1->ToolCall_outcome == call.outcome
    &&& row.1->ToolCall_caused_by == call.caused_by
    &&& row.1->ToolCall_correlation == call.correlation
}

proof fn lemma_decisions_kept(part: ThreadRows, rows: ThreadRows)
    ensures
        ({
            let kept = part.filter(|row: (u64, ThreadEventModel)| row.1 is Decision);
            let decisions = decisions_of(part, rows);
            &&& decisions.len() == kept.len()
            &&& forall|k: int|
                0 <= k < decisions.len() ==> holds_decision(kept[k], #[trigger] decisions[k])
        }),
    decreases part.len(),
{
    let keep = |row: (u64, ThreadEventModel)| row.1 is Decision;
    reveal(Seq::filter);
    if part.len() > 0 {
        lemma_decisions_kept(part.drop_last(), rows);
        assert(part =~= part.drop_last().push(part.last()));
        lemma_filter_push(part.drop_last(), part.last(), keep);
    }
}

proof fn lemma_calls_kept(rows: ThreadRows)
    ensures
        ({
            let kept = rows.filter(|row: (u64, ThreadEventModel)| row.1 is ToolCall);
            let calls = calls_of(rows);
            &&& calls.len() == kept.len()
            &&& forall|k: int| 0 <= k < calls.len() ==> holds_call(kept[k], #[trigger] calls[k])
        }),
    decreases rows.len(),
{
    let keep = |row: (u64, ThreadEventModel)| row.1 is ToolCall;
    reveal(Seq::filter);
    if rows.len() > 0 {
        lemma_calls_kept(rows.drop_last());
        assert(rows =~= rows.drop_last().push(rows.last()));
        lemma_filter_push(rows.drop_last(), rows.last(), keep);
    }
}

/// A causal thread shows every decision and every tool call of its stream once, in the
/// order of the stream, each as it was recorded.
pub proof fn law_threads_show_every_node(thread: ThreadModel)
    ensures
        ({
            let rows = rows_of::<u64, ThreadEventModel>(thread);
            let decided = rows.filter(|row: (u64, ThreadEventModel)| row.1 is Decision);
            let called = rows.filter(|row: (u64, ThreadEventModel)| row.1 is ToolCall);
            let causal = causal_of(thread);
            &&& causal.decisions.len() == decided.len()
            &&& forall|k: int|
                0 <= k < decided.len() ==> holds_decision(decided[k], #[trigger] causal.decisions[k])
            &&& causal.tool_calls.len() == called.len()
            &&& forall|k: int|
                0 <= k < called.len() ==> holds_call(called[k], #[trigger] causal.tool_calls[k])
        }),
{
    let rows = rows_of::<u64, ThreadEventModel>(thread);
    lemma_decisions_kept(rows, rows);
    lemma_calls_kept(rows);
}

/// A row names an event as its cause.
pub open spec fn names_cause(row: (u64, ThreadEventModel), cause: u64) -> bool {
    ||| row.1 is Decision && row.1->Decision_caused_by == Some(cause)
    ||| row.1 is ToolCall && row.1->ToolCall_caused_by == Some(cause)
}

proof fn lemma_effects_kept(rows: ThreadRows, cause: u64)
    ensures
        ({
            let kept = rows.filter(|row: (u64, ThreadEventModel)| names_cause(row, cause));
            let effects = effects_of(rows, cause);
            &&& effects.len() == kept.len()
            &&& forall|k: int| 0 <= k < effects.len() ==> #[trigger] effects[k] == kept[k].0
        }),
    decreases rows.len(),
{
    let keep = |row: (u64, ThreadEventModel)| names_cause(row, cause);
    reveal(Seq::filter);
    if rows.len() > 0 {
        lemma_effects_kept(rows.drop_last(), cause);
        assert(rows =~= rows.drop_last().push(rows.last()));
        lemma_filter_push(rows.drop_last(), rows.last(), keep);
    }
}

proof fn lemma_decisions_have_effects(part: ThreadRows, rows: ThreadRows, k: int)
    requires
        0 <= k < decisions_of(part, rows).len(),
    ensures
        decisions_of(part, rows)[k].caused == effects_of(rows, decisions_of(part, rows)[k].seq),
    decreases part.len(),
{
    if part.len() > 0 && k < decisions_of(part.drop_last(), rows).len() {
        lemma_decisions_have_effects(part.drop_last(), rows, k);
    }
}

/// Causes and effects mirror each other: the effects listed with a decision are the
/// decisions and tool calls that name it as their cause, in the order of the stream.
pub proof fn law_effects_mirror_causes(thread: ThreadModel, k: int)
    requires
        0 <= k < causal_of(thread).decisions.len(),
    ensures
        ({
            let rows = rows_of::<u64, ThreadEventModel>(thread);
            let decision = causal_of(thread).decisions[k];
            let effects = rows.filter(
                |row: (u64, ThreadEventModel)| names_cause(row, decision.seq),
            );
            &&& decision.caused.len() == effects.len()
            &&& forall|i: int|
                0 <= i < effects.len() ==> #[trigger] decision.caused[i] == effects[i].0
        }),
{
    let rows = rows_of::<u64, ThreadEventModel>(thread);
    lemma_decisions_have_effects(rows, rows, k);
    lemma_effects_kept(rows, causal_of(thread).decisions[k].seq);
}

/// The anomalies of a causal thread are its error loops, then its drift, and nothing else.
pub proof fn law_anomalies_are_loops_and_drift(thread: ThreadModel, i: int)
    ensures
        ({
            let rows = rows_of::<u64, ThreadEventModel>(thread);
            let loops = error_loops_of(rows);
            let drift = drift_of(rows);
            let all = causal_of(thread).anomalies;
            &&& all.len() == loops.len() + drift.len()
            &&& 0 <= i < loops.len() ==> all[i] == loops[i] && all[i].kind == AnomalyKind::ErrorLoop
            &&& loops.len() <= i < all.len() ==> all[i] == drift[i - loops.len()] && all[i].kind
                == AnomalyKind::ObjectiveDrift
        }),
{
    let rows = rows_of::<u64, ThreadEventModel>(thread);
    let failures = failures_of(rows);
    lemma_kept_loops(first_seen(failures), failures, first_seen(failures).len());
}

/// Every event is one node of the thread: no two decisions, no two tool calls, and no
/// decision and tool call have the same sequence number.
pub open spec fn is_numbered(thread: CausalModel) -> bool {
    &&& forall|i: int, j: int|
        0 <= i < j < thread.decisions.len() ==> (#[trigger] thread.decisions[i]).seq != (
        #[trigger] thread.decisions[j]).seq
    &&& forall|i: int, j: int|
        0 <= i < j < thread.tool_calls.len() ==> (#[trigger] thread.tool_calls[i]).seq != (
        #[trigger] thread.tool_calls[j]).seq
    &&& forall|i: int, j: int|
        0 <= i < thread.decisions.len() && 0 <= j < thread.tool_calls.len() ==> (
        #[trigger] thread.decisions[i]).seq != (#[trigger] thread.tool_calls[j]).seq
}

/// A decision of the thread has the sequence number.
pub open spec fn is_decision(thread: CausalModel, seq: u64) -> bool {
    exists|k: int| 0 <= k < thread.decisions.len() && (#[trigger] thread.decisions[k]).seq == seq
}

/// The decision or the tool call of that sequence number records the cause.
pub open spec fn records_cause(thread: CausalModel, seq: u64, cause: u64) -> bool {
    ||| exists|k: int|
        0 <= k < thread.decisions.len() && (#[trigger] thread.decisions[k]).seq == seq
            && thread.decisions[k].caused_by == Some(cause)
    ||| exists|k: int|
        0 <= k < thread.tool_calls.len() && (#[trigger] thread.tool_calls[k]).seq == seq
            && thread.tool_calls[k].caused_by == Some(cause)
}

/// A trail: each event records the next one as its cause.
pub open spec fn is_trail(thread: CausalModel, trail: Seq<u64>) -> bool {
    &&& trail.len() > 0
    &&& forall|i: int, j: int|
        0 <= i && j == i + 1 && j < trail.len() ==> records_cause(
            thread,
            #[trigger] trail[i],
            #[trigger] trail[j],
        )
}

/// A trail of recorded causes leads from one event to another.
pub open spec fn traces_to(thread: CausalModel, from: u64, to: u64) -> bool {
    exists|trail: Seq<u64>| #[trigger]
        is_trail(thread, trail) && trail[0] == from && trail.last() == to
}

/// Every event traces to itself.
pub proof fn lemma_traces_to_itself(thread: CausalModel, seq: u64)
    ensures
        traces_to(thread, seq, seq),
{
    let trail = seq![seq];
    assert(is_trail(thread, trail) && trail[0] == seq && trail.last() == seq);
}

/// A trail goes on to the recorded cause of where it leads.
pub proof fn lemma_trail_goes_on(thread: CausalModel, from: u64, to: u64, cause: u64)
    requires
        traces_to(thread, from, to),
        records_cause(thread, to, cause),
    ensures
        traces_to(thread, from, cause),
{
    let trail = choose|trail: Seq<u64>| #[trigger]
        is_trail(thread, trail) && trail[0] == from && trail.last() == to;
    let longer = trail.push(cause);
    assert forall|i: int, j: int| 0 <= i && j == i + 1 && j < longer.len() implies records_cause(
        thread,
        #[trigger] longer[i],
        #[trigger] longer[j],
    ) by {
        if j < trail.len() {
            assert(records_cause(thread, trail[i], trail[j]));
        } else {
            assert(longer[i] == trail.last());
        }
    }
    assert(is_trail(thread, longer) && longer[0] == from && longer.last() == cause);
}

/// The thread that events of one stream lead to is the thread of that stream.
pub proof fn law_one_stream_makes_one_thread(events: Seq<EventModel>, stream: Seq<char>)
    requires
        forall|i: int| 0 <= i < events.len() ==> (#[trigger] events[i]).stream_id == stream,
    ensures
        leading_thread(events) == thread_of(fold::<CausalThreadProjection>(events), stream),
{
    let streams = fold::<CausalThreadProjection>(events);
    let rows = rows_of::<String, ThreadModel>(streams);
    lemma_one_stream(events, stream);
    assert(streams.dom().subset_of(set![stream]));
    vstd::set_lib::lemma_len_subset(streams.dom(), set![stream]);
    lemma_finite_rows::<String, ThreadModel>(streams);
    if rows.len() > 0 {
        lemma_map_of_domain(rows, rows[0].0);
        assert(streams.contains_key(rows[0].0));
    } else if streams.contains_key(stream) {
        lemma_map_of_domain(rows, stream);
    } else if streams.contains_key(""@) {
        lemma_map_of_domain(rows, ""@);
    }
}

proof fn lemma_one_stream(events: Seq<EventModel>, stream: Seq<char>)
    requires
        forall|i: int| 0 <= i < events.len() ==> (#[trigger] events[i]).stream_id == stream,
    ensures
        forall|other: Seq<char>| #[trigger]
            fold::<CausalThreadProjection>(events).contains_key(other) ==> other == stream,
    decreases events.len(),
{
    if events.len() > 0 {
        let rest = events.drop_last();
        assert forall|i: int| 0 <= i < rest.len() implies (#[trigger] rest[i]).stream_id
            == stream by {
            assert(rest[i] == events[i]);
        }
        lemma_one_stream(rest, stream);
        assert(events[events.len() - 1] == events.last());
        assert(fold::<CausalThreadProjection>(events) == CausalThreadProjection::step(
            fold::<CausalThreadProjection>(rest),
            events.last(),
        ));
    }
}

/// Every state transition with a description is a decision of its stream's causal thread,
/// and every tool call is a call of it, as they were logged.
pub proof fn law_threads_show_what_was_logged(
    events: Seq<EventModel>,
    stream: Seq<char>,
    i: int,
)
    requires
        forall|a: int, b: int|
            0 <= a < b < events.len() ==> (#[trigger] events[a]).seq != (#[trigger] events[b]).seq,
        forall|a: int| 0 <= a < events.len() ==> (#[trigger] events[a]).stream_id == stream,
        0 <= i < events.len(),
    ensures
        ({
            let causal = causal_of(leading_thread(events));
            &&& events[i].kind is StateTransition && (events[i].payload.field(
                "description"@,
            ) matches Some(JsonModel::String(_))) ==> exists|k: int|
                {
                    &&& 0 <= k < causal.decisions.len()
                    &&& (#[trigger] causal.decisions[k]).seq == events[i].seq
                    &&& causal.decisions[k].agent == events[i].agent_id
                    &&& events[i].payload.field("description"@) == Some(
                        JsonModel::String(causal.decisions[k].description),
                    )
                    &&& causal.decisions[k].caused_by == events[i].causation
                    &&& causal.decisions[k].correlation == events[i].correlation
                }
            &&& events[i].kind is ToolCall ==> exists|k: int|
                {
                    &&& 0 <= k < causal.tool_calls.len()
                    &&& (#[trigger] causal.tool_calls[k]).seq == events[i].seq
                    &&& causal.tool_calls[k].agent == events[i].agent_id
                    &&& causal.tool_calls[k].tool == events[i].kind->tool
                    &&& causal.tool_calls[k].outcome == outcome_of(events[i].payload)
                    &&& causal.tool_calls[k].caused_by == events[i].causation
                    &&& causal.tool_calls[k].correlation == events[i].correlation
                }
        }),
{
    let thread = leading_thread(events);
    let causal = causal_of(thread);
    let rows = rows_of::<u64, ThreadEventModel>(thread);
    let event = events[i];
    law_one_stream_makes_one_thread(events, stream);
    law_threads_keep_their_stream(events, stream);
    assert(keeps_event(thread, event));
    lemma_thread_finite(events, stream);
    lemma_finite_rows::<u64, ThreadEventModel>(thread);
    law_threads_show_every_node(thread);
    if thread.contains_key(event.seq) {
        lemma_map_of_pair(rows, event.seq);
        let r = choose|r: int| 0 <= r < rows.len() && #[trigger] rows[r] == (
            event.seq,
            thread[event.seq],
        );
        let row = rows[r];
        assert(rows.contains(row));
        let decisive = |row: (u64, ThreadEventModel)| row.1 is Decision;
        let calling = |row: (u64, ThreadEventModel)| row.1 is ToolCall;
        lemma_filter_has(rows, decisive);
        lemma_filter_has(rows, calling);
        if row.1 is Decision {
            let decided = rows.filter(decisive);
            assert(decided.contains(row));
            let k = choose|k: int| 0 <= k < decided.len() && decided[k] == row;
            assert(holds_decision(decided[k], causal.decisions[k]));
        }
        if row.1 is ToolCall {
            let called = rows.filter(calling);
            assert(called.contains(row));
            let k = choose|k: int| 0 <= k < called.len() && called[k] == row;
            assert(holds_call(called[k], causal.tool_calls[k]));
        }
    }
}

proof fn lemma_thread_finite(events: Seq<EventModel>, stream: Seq<char>)
    ensures
        thread_of(fold::<CausalThreadProjection>(events), stream).dom().finite(),
    decreases events.len(),
{
    if events.len() > 0 {
        lemma_thread_finite(events.drop_last(), stream);
        assert(fold::<CausalThreadProjection>(events) == CausalThreadProjection::step(
            fold::<CausalThreadProjection>(events.drop_last()),
            events.last(),
        ));
    }
}

/// One failure came before another: before every row that tells the second there is one that
/// tells the first.
pub open spec fn failed_before(
    rows: ThreadRows,
    first: (Seq<char>, Seq<char>),
    second: (Seq<char>, Seq<char>),
) -> bool {
    forall|q: int|
        0 <= q < rows.len() && tells_failure(#[trigger] rows[q], second.0, second.1)
            ==> has_failed(rows.take(q), first)
}

/// Some row tells the failure.
pub open spec fn has_failed(rows: ThreadRows, key: (Seq<char>, Seq<char>)) -> bool {
    exists|p: int| 0 <= p < rows.len() && tells_failure(#[trigger] rows[p], key.0, key.1)
}

proof fn lemma_has_failed(rows: ThreadRows, key: (Seq<char>, Seq<char>))
    ensures
        failures_of(rows).contains(key) <==> has_failed(rows, key),
{
    let keep = |row: (u64, ThreadEventModel)| tells_failure(row, key.0, key.1);
    lemma_times_failed(rows, key.0, key.1);
    lemma_occurrences_absent(failures_of(rows), key);
    lemma_filter_has(rows, keep);
    assert(key == (key.0, key.1));
    let kept = rows.filter(keep);
    if kept.len() > 0 {
        assert(kept.contains(kept[0]));
        let p = choose|p: int| 0 <= p < rows.len() && rows[p] == kept[0];
        assert(tells_failure(rows[p], key.0, key.1));
    }
    if has_failed(rows, key) {
        let p = choose|p: int| 0 <= p < rows.len() && tells_failure(#[trigger] rows[p], key.0, key.1);
        assert(rows.contains(rows[p]));
        assert(kept.contains(rows[p]));
    }
}

proof fn lemma_failures_in_order(rows: ThreadRows, i: int, j: int)
    requires
        0 <= i < j < first_seen(failures_of(rows)).len(),
    ensures
        failed_before(rows, first_seen(failures_of(rows))[i], first_seen(failures_of(rows))[j]),
    decreases rows.len(),
{
    let different = first_seen(failures_of(rows));
    let first = different[i];
    let second = different[j];
    if rows.len() > 0 {
        let rest = rows.drop_last();
        let n = rows.len() - 1;
        let before = first_seen(failures_of(rest));
        lemma_first_seen(failures_of(rest));
        lemma_first_seen(failures_of(rows));
        lemma_has_failed(rest, first);
        lemma_has_failed(rest, second);
        assert(before.is_prefix_of(different)) by {
            if failures_of(rows).len() > failures_of(rest).len() {
                assert(failures_of(rows).drop_last() =~= failures_of(rest));
            }
        }
        assert(different.len() <= before.len() + 1);
        assert(i < before.len());
        assert(before[i] == first);
        assert(before.contains(first));
        assert forall|q: int|
            0 <= q < rows.len() && tells_failure(#[trigger] rows[q], second.0, second.1) implies
            has_failed(rows.take(q), first) by {
            if q < n {
                assert(rest[q] == rows[q]);
                assert(rest.take(q) =~= rows.take(q));
                assert(has_failed(rest, second));
                assert(before.contains(second));
                if j < before.len() {
                    assert(before[j] == second);
                    lemma_failures_in_order(rest, i, j);
                    assert(failed_before(rest, first, second));
                } else {
                    let k = choose|k: int| 0 <= k < before.len() && before[k] == second;
                    assert(different[k] == second);
                }
            } else {
                assert(rows.take(q) =~= rest);
            }
        }
    }
}

/// Error loops come in the order in which their failures first occurred.
pub proof fn law_error_loops_come_in_order(rows: ThreadRows)
    ensures
        exists|keys: Seq<(Seq<char>, Seq<char>)>|
            {
                &&& #[trigger] keys.no_duplicates()
                &&& forall|tool: Seq<char>, message: Seq<char>| #[trigger]
                    keys.contains((tool, message)) <==> times_failed(rows, tool, message) >= 3
                &&& keys.len() == error_loops_of(rows).len()
                &&& forall|k: int|
                    0 <= k < keys.len() ==> (#[trigger] error_loops_of(rows)[k]).tool == Some(
                        keys[k].0,
                    )
                &&& forall|i: int, j: int|
                    0 <= i < j < keys.len() ==> failed_before(
                        rows,
                        #[trigger] keys[i],
                        #[trigger] keys[j],
                    )
            },
{
    let failures = failures_of(rows);
    let different = first_seen(failures);
    let keep = |key: (Seq<char>, Seq<char>)| occurrences(failures, key) >= ERROR_LOOP_LENGTH;
    let keys = different.filter(keep);
    lemma_first_seen(failures);
    lemma_kept_loops(different, failures, different.len());
    assert(different.take(different.len() as int) =~= different);
    lemma_filter_distinct(different, keep);
    assert forall|tool: Seq<char>, message: Seq<char>| #[trigger]
        keys.contains((tool, message)) <==> times_failed(rows, tool, message) >= 3 by {
        lemma_times_failed(rows, tool, message);
        lemma_filter_has(different, keep);
        lemma_occurrences_absent(failures, (tool, message));
    }
    let comes = |a: (Seq<char>, Seq<char>), b: (Seq<char>, Seq<char>)| failed_before(rows, a, b);
    assert forall|i: int, j: int| 0 <= i < j < different.len() implies comes(
        #[trigger] different[i],
        #[trigger] different[j],
    ) by {
        lemma_failures_in_order(rows, i, j);
    }
    lemma_filter_order(different, keep, comes);
    assert forall|i: int, j: int| 0 <= i < j < keys.len() implies failed_before(
        rows,
        #[trigger] keys[i],
        #[trigger] keys[j],
    ) by {
        assert(comes(different.filter(keep)[i], different.filter(keep)[j]));
    }
    assert(keys.no_duplicates());
}

} // verus!
