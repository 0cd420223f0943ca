//! Harness loop: evaluation of long-running agent task processes.
//!
//! [`HarnessLoop::assess`] reads findings, the root cause and drafts of learning
//! proposals off a causal thread. The caller turns the penalties and the basis of
//! each draft into numbers, and [`HarnessLoop::conclude`] applies the confidence
//! threshold to them.

use crate::bits::{double_at_least, double_nan, double_rank, double_reaches};
use crate::causal::{
    is_decision, is_numbered, is_trail, lemma_traces_to_itself, lemma_trail_goes_on,
    records_cause, traces_to, Anomaly, AnomalyKind, AnomalyModel, CallModel, CausalModel,
    CausalThread, DecisionModel, DecisionNode, ToolCallNode,
};
use crate::context::{call_at, find_call, lemma_call_found, option_text, show_option, speaks_of};
use crate::event::AgentId;
use crate::json::{json_text, Json, JsonModel};
use crate::lists::{
    lemma_filter_has, lemma_filter_push, lemma_occurrences_absent, lemma_occurrences_push,
    occurrences,
};
use crate::sorted::{ascending, lemma_map_of_domain, lemma_map_of_pair, map_of, Replica, SortedMap};
use crate::state::causal_thread::ToolOutcome;
use crate::text::{
    decimal, join2, join3, join_all, joined, lowercase, text_at, text_contains, text_has,
    text_lowercase, text_same, u64_text,
};
use std::collections::HashSet;
use vstd::prelude::*;

verus! {

broadcast use vstd::std_specs::hash::group_hash_axioms;

/// The bit pattern of the confidence threshold where none is given, one half.
pub const DEFAULT_MIN_CONFIDENCE: u64 = 0x3fe0_0000_0000_0000;

/// The bit pattern of the highest confidence, one.
pub const FULL_CONFIDENCE: u64 = 0x3ff0_0000_0000_0000;

/// Input to the harness evaluator. The threshold is the bit pattern of a
/// double-precision number.
#[derive(Clone, Debug)]
pub struct HarnessInput {
    pub causal_thread: CausalThread,
    pub similar_episodes: Vec<CausalThread>,
    pub original_intent: String,
    pub current_state: Option<Json>,
    pub min_confidence: u64,
}

impl Default for HarnessInput {
    fn default() -> (r: Self)
        ensures
            r.causal_thread.deep_view() == (CausalModel {
                decisions: Seq::empty(),
                tool_calls: Seq::empty(),
                anomalies: Seq::empty(),
            }),
            r.similar_episodes@.len() == 0,
            r.original_intent@.len() == 0,
            r.current_state is None,
            r.min_confidence == DEFAULT_MIN_CONFIDENCE,
    {
        let causal_thread = CausalThread {
            decisions: Vec::new(),
            tool_calls: Vec::new(),
            anomalies: Vec::new(),
        };
        assert(causal_thread.decisions.deep_view() =~= Seq::empty());
        assert(causal_thread.tool_calls.deep_view() =~= Seq::empty());
        assert(causal_thread.anomalies.deep_view() =~= Seq::empty());
        HarnessInput {
            causal_thread,
            similar_episodes: Vec::new(),
            original_intent: String::new(),
            current_state: None,
            min_confidence: DEFAULT_MIN_CONFIDENCE,
        }
    }
}

/// Classification of a finding.
#[derive(Clone, Copy, Debug, PartialEq, Eq, Structural)]
pub enum FindingKind {
    InefficientLoop,
    ObjectiveDrift,
    RootCause,
    InsufficientEvidence,
}

/// A single finding produced by the harness.
#[derive(Clone, Debug, PartialEq)]
pub struct Finding {
    pub kind: FindingKind,
    pub seq: Option<u64>,
    pub description: String,
}

#[verifier::ext_equal]
pub struct FindingModel {
    pub kind: FindingKind,
    pub seq: Option<u64>,
    pub description: Seq<char>,
}

impl DeepView for Finding {
    type V = FindingModel;

    open spec fn deep_view(&self) -> FindingModel {
        FindingModel { kind: self.kind, seq: self.seq, description: self.description@ }
    }
}

/// Identifies the earliest decision that originated a failure chain.
#[derive(Clone, Debug, PartialEq)]
pub struct RootCause {
    pub seq: u64,
    pub agent: AgentId,
}

#[verifier::ext_equal]
pub struct RootModel {
    pub seq: u64,
    pub agent: Seq<char>,
}

impl DeepView for RootCause {
    type V = RootModel;

    open spec fn deep_view(&self) -> RootModel {
        RootModel { seq: self.seq, agent: self.agent.deep_view() }
    }
}

/// What an anomaly costs the quality of the process: its kind, and how many times
/// the unit of that kind counts (one fifth for an error loop, one twentieth for a
/// drift).
#[derive(Clone, Copy, Debug, PartialEq, Eq, Structural)]
pub struct Penalty {
    pub kind: AnomalyKind,
    pub times: u32,
}

/// The quality of the output, as far as the state of the task tells.
#[derive(Clone, Copy, Debug, PartialEq, Eq, Structural)]
pub enum OutputQuality {
    Success,
    Failure,
    Unknown,
}

/// What past episodes say about a proposal.
#[derive(Clone, Copy, Debug, PartialEq, Eq, Structural)]
pub enum EpisodeSupport {
    /// There are none.
    Absent,
    /// They mention a concrete resolution.
    Resolved,
    /// There are some, without a concrete resolution.
    Unresolved,
}

/// A learning proposal before it is scored: the anomaly it answers, its evidence
/// and what past episodes say decide on its score.
#[derive(Debug, PartialEq)]
pub struct ProposalDraft {
    pub kind: AnomalyKind,
    pub support: EpisodeSupport,
    pub description: String,
    pub evidence_seqs: Vec<u64>,
    pub trigger_seq: Option<u64>,
}

#[verifier::ext_equal]
pub struct DraftModel {
    pub kind: AnomalyKind,
    pub support: EpisodeSupport,
    pub description: Seq<char>,
    pub evidence_seqs: Seq<u64>,
    pub trigger_seq: Option<u64>,
}

impl DeepView for ProposalDraft {
    type V = DraftModel;

    open spec fn deep_view(&self) -> DraftModel {
        DraftModel {
            kind: self.kind,
            support: self.support,
            description: self.description@,
            evidence_seqs: self.evidence_seqs@,
            trigger_seq: self.trigger_seq,
        }
    }
}

/// The score of a proposal, as bit patterns of double-precision numbers.
#[derive(Clone, Copy, Debug, PartialEq, Eq, Structural)]
pub struct Score {
    pub confidence: u64,
    pub specificity: u64,
}

/// A learning proposal with causal evidence.
#[derive(Clone, Debug, PartialEq)]
pub struct LearningProposal {
    pub description: String,
    pub evidence_seqs: Vec<u64>,
    pub trigger_seq: Option<u64>,
    pub confidence: u64,
    pub specificity: u64,
}

#[verifier::ext_equal]
pub struct ProposalModel {
    pub description: Seq<char>,
    pub evidence_seqs: Seq<u64>,
    pub trigger_seq: Option<u64>,
    pub confidence: u64,
    pub specificity: u64,
}

impl DeepView for LearningProposal {
    type V = ProposalModel;

    open spec fn deep_view(&self) -> ProposalModel {
        ProposalModel {
            description: self.description@,
            evidence_seqs: self.evidence_seqs@,
            trigger_seq: self.trigger_seq,
            confidence: self.confidence,
            specificity: self.specificity,
        }
    }
}

/// What the harness reads off a causal thread.
#[derive(Debug, PartialEq)]
pub struct Assessment {
    pub penalties: Vec<Penalty>,
    pub output_quality: OutputQuality,
    pub root_cause: Option<RootCause>,
    pub findings: Vec<Finding>,
    pub drafts: Vec<ProposalDraft>,
}

/// Result of evaluating a task with the harness loop.
#[derive(Clone, Debug, PartialEq)]
pub struct HarnessEvaluation {
    pub penalties: Vec<Penalty>,
    pub output_quality: OutputQuality,
    pub root_cause: Option<RootCause>,
    pub findings: Vec<Finding>,
    pub proposals: Vec<LearningProposal>,
}

/// A finding that stands for an anomaly.
pub open spec fn tells_anomaly() -> spec_fn(FindingModel) -> bool {
    |finding: FindingModel|
        finding.kind == FindingKind::InefficientLoop || finding.kind == FindingKind::ObjectiveDrift
}

impl HarnessEvaluation {
    /// Number of anomalies detected in the evaluation.
    pub fn anomaly_count(&self) -> (r: usize)
        ensures
            r == self.findings.deep_view().filter(tells_anomaly()).len(),
    {
        let ghost all = self.findings.deep_view();
        let mut count: usize = 0;
        let mut i: usize = 0;
        proof {
            reveal(Seq::filter);
            assert(all.take(0) =~= Seq::empty());
        }
        while i < self.findings.len()
            invariant
                i <= self.findings.len(),
                all == self.findings.deep_view(),
                count <= i,
                count == all.take(i as int).filter(tells_anomaly()).len(),
            decreases self.findings.len() - i,
        {
            proof {
                assert(all.take(i + 1) =~= all.take(i as int).push(all[i as int]));
                lemma_filter_push(all.take(i as int), all[i as int], tells_anomaly());
                assert(all[i as int] == self.findings@[i as int].deep_view());
            }
            match self.findings[i].kind {
                FindingKind::InefficientLoop => {
                    count += 1;
                },
                FindingKind::ObjectiveDrift => {
                    count += 1;
                },
                _ => {},
            }
            i += 1;
        }
        assert(all.take(i as int) =~= all);
        count
    }
}

/// What an anomaly costs.
pub open spec fn penalty_of(anomaly: AnomalyModel) -> Penalty {
    let cap: u32 = match anomaly.kind {
        AnomalyKind::ErrorLoop => 5,
        AnomalyKind::ObjectiveDrift => 10,
    };
    Penalty {
        kind: anomaly.kind,
        times: if anomaly.repetitions < cap {
            anomaly.repetitions
        } else {
            cap
        },
    }
}

/// The finding for an anomaly.
pub open spec fn finding_of(anomaly: AnomalyModel) -> FindingModel {
    match anomaly.kind {
        AnomalyKind::ErrorLoop => FindingModel {
            kind: FindingKind::InefficientLoop,
            seq: None,
            description: "Tool "@ + option_text(anomaly.tool) + " failed "@ + decimal(
                anomaly.repetitions as nat,
            ) + " times in a loop"@,
        },
        AnomalyKind::ObjectiveDrift => FindingModel {
            kind: FindingKind::ObjectiveDrift,
            seq: anomaly.original_intent_seq,
            description: "Objective drift: "@ + decimal(anomaly.repetitions as nat)
                + " decisions diverged from intent"@,
        },
    }
}

/// A tool call that failed with an error.
pub open spec fn is_failure() -> spec_fn(CallModel) -> bool {
    |call: CallModel| call.outcome is Failed
}

/// A failure of the given tool.
pub open spec fn is_failure_of(tool: Seq<char>) -> spec_fn(CallModel) -> bool {
    |call: CallModel| call.tool == tool && call.outcome is Failed
}

/// A decision that does not speak of the intent.
pub open spec fn strays_from(intent: Seq<char>) -> spec_fn(DecisionModel) -> bool {
    |decision: DecisionModel| intent.len() > 0 && !speaks_of(decision, intent)
}

/// The sequence numbers of tool calls.
pub open spec fn call_seqs(calls: Seq<CallModel>) -> Seq<u64> {
    Seq::new(calls.len(), |i: int| calls[i].seq)
}

/// The sequence numbers of decisions.
pub open spec fn decision_seqs(decisions: Seq<DecisionModel>) -> Seq<u64> {
    Seq::new(decisions.len(), |i: int| decisions[i].seq)
}

/// The last decision with the given sequence number.
pub open spec fn decided_at(decisions: Seq<DecisionModel>, seq: u64) -> Option<DecisionModel>
    decreases decisions.len(),
{
    if decisions.len() == 0 {
        None
    } else if decisions.last().seq == seq {
        Some(decisions.last())
    } else {
        decided_at(decisions.drop_last(), seq)
    }
}

/// What caused the tool call of that sequence number.
pub open spec fn call_cause(thread: CausalModel, seq: u64) -> Option<u64> {
    match call_at(thread.tool_calls, seq) {
        Some(call) => call.caused_by,
        None => None,
    }
}

/// Going from effect to cause, starting at `seq`, meets its first decision, which is
/// then the end, after `n` steps, or ends there because no cause is known.
pub open spec fn leads_to(thread: CausalModel, seq: u64, n: nat, root: Option<u64>) -> bool
    decreases n,
{
    if decided_at(thread.decisions, seq) is Some {
        n == 0 && root == Some(seq)
    } else {
        match call_cause(thread, seq) {
            Some(cause) => n > 0 && leads_to(thread, cause, (n - 1) as nat, root),
            None => n == 0 && root is None,
        }
    }
}

/// Going from effect to cause ends.
pub open spec fn is_grounded(thread: CausalModel, seq: u64) -> bool {
    exists|n: nat, root: Option<u64>| #[trigger] leads_to(thread, seq, n, root)
}

/// From every failure, going from effect to cause ends.
pub open spec fn failures_grounded(thread: CausalModel) -> bool {
    forall|i: int|
        0 <= i < thread.tool_calls.len() && (#[trigger] thread.tool_calls[i]).outcome is Failed
            ==> is_grounded(thread, thread.tool_calls[i].seq)
}

/// The first decision that going from effect to cause meets.
pub open spec fn nearest_decision(thread: CausalModel, seq: u64) -> Option<u64> {
    (choose|end: (nat, Option<u64>)| #[trigger] leads_to(thread, seq, end.0, end.1)).1
}

/// Going from effect to cause meets one first decision only.
proof fn lemma_one_end(
    thread: CausalModel,
    seq: u64,
    n: nat,
    root: Option<u64>,
    m: nat,
    other: Option<u64>,
)
    requires
        leads_to(thread, seq, n, root),
        leads_to(thread, seq, m, other),
    ensures
        n == m,
        root == other,
    decreases n,
{
    if decided_at(thread.decisions, seq) is None {
        if let Some(cause) = call_cause(thread, seq) {
            lemma_one_end(thread, cause, (n - 1) as nat, root, (m - 1) as nat, other);
        }
    }
}

proof fn lemma_nearest(thread: CausalModel, seq: u64, n: nat, root: Option<u64>)
    requires
        leads_to(thread, seq, n, root),
    ensures
        nearest_decision(thread, seq) == root,
{
    let end = (n, root);
    assert(leads_to(thread, seq, end.0, end.1));
    let chosen = choose|end: (nat, Option<u64>)| #[trigger] leads_to(thread, seq, end.0, end.1);
    lemma_one_end(thread, seq, n, root, chosen.0, chosen.1);
}

fn find_decided(decisions: &Vec<DecisionNode>, seq: u64) -> (r: Option<&DecisionNode>)
    ensures
        r.deep_view() == decided_at(decisions.deep_view(), seq),
{
    let ghost all = decisions.deep_view();
    let mut n: usize = decisions.len();
    assert(all.take(n as int) =~= all);
    while n > 0
        invariant
            n <= decisions.len(),
            all == decisions.deep_view(),
            decided_at(all, seq) == decided_at(all.take(n as int), seq),
        decreases n,
    {
        proof {
            assert(all.take(n as int).drop_last() =~= all.take(n - 1));
            assert(all.take(n as int).last() == decisions@[n - 1].deep_view());
        }
        if decisions[n - 1].seq == seq {
            return Some(&decisions[n - 1]);
        }
        n -= 1;
    }
    None
}

fn caused_by_of(thread: &CausalThread, seq: u64) -> (r: Option<u64>)
    ensures
        r == call_cause(thread.deep_view(), seq),
{
    match find_call(&thread.tool_calls, seq) {
        Some(call) => call.caused_by,
        None => None,
    }
}

/// The first decision that going from effect to cause meets.
fn find_nearest(thread: &CausalThread, seq: u64) -> (r: Option<u64>)
    requires
        is_grounded(thread.deep_view(), seq),
    ensures
        r == nearest_decision(thread.deep_view(), seq),
{
    let ghost model = thread.deep_view();
    let ghost end = choose|end: (nat, Option<u64>)| #[trigger] leads_to(model, seq, end.0, end.1);
    proof {
        let (n, root) = choose|n: nat, root: Option<u64>| #[trigger] leads_to(model, seq, n, root);
        let pair = (n, root);
        assert(leads_to(model, seq, pair.0, pair.1));
    }
    let ghost root = end.1;
    let ghost mut left: nat = end.0;
    let mut at: u64 = seq;
    loop
        invariant
            model == thread.deep_view(),
            leads_to(model, at, left, root),
            root == nearest_decision(model, seq),
        decreases left,
    {
        if let Some(decision) = find_decided(&thread.decisions, at) {
            return Some(at);
        }
        match caused_by_of(thread, at) {
            Some(cause) => {
                at = cause;
                proof {
                    left = (left - 1) as nat;
                }
            },
            None => {
                return None;
            },
        }
    }
}

/// Whether going from effect to cause ends.
fn check_grounded(thread: &CausalThread, seq: u64) -> (r: bool)
    ensures
        r == is_grounded(thread.deep_view(), seq),
{
    let ghost model = thread.deep_view();
    let mut visited: HashSet<u64> = HashSet::new();
    let ghost mut count: nat = 0;
    let ghost mut since: Map<u64, nat> = Map::empty();
    let mut at: u64 = seq;
    while !visited.contains(&at)
        invariant
            model == thread.deep_view(),
            visited@ == since.dom(),
            visited@.finite(),
            forall|node: u64| #[trigger] since.contains_key(node) ==> since[node] < count
                && call_at(model.tool_calls, node) is Some,
            forall|n: nat, root: Option<u64>| #[trigger]
                leads_to(model, seq, n, root) ==> n >= count && leads_to(
                    model,
                    at,
                    (n - count) as nat,
                    root,
                ),
            forall|n: nat, root: Option<u64>| #[trigger]
                leads_to(model, at, n, root) ==> leads_to(model, seq, n + count, root),
            forall|node: u64, n: nat, root: Option<u64>|
                since.contains_key(node) && #[trigger] leads_to(model, seq, n, root)
                    ==> n >= since[node] && #[trigger] leads_to(
                    model,
                    node,
                    (n - since[node]) as nat,
                    root,
                ),
        decreases unvisited(model.tool_calls, visited@),
    {
        if let Some(decision) = find_decided(&thread.decisions, at) {
            assert(leads_to(model, at, 0, Some(at)));
            assert(leads_to(model, seq, 0 + count, Some(at)));
            return true;
        }
        match caused_by_of(thread, at) {
            Some(cause) => {
                let ghost seen = visited@;
                visited.insert(at);
                proof {
                    lemma_unvisited(model.tool_calls, seen, at);
                    since = since.insert(at, count);
                    assert(visited@ =~= since.dom());
                    assert forall|n: nat, root: Option<u64>| #[trigger]
                        leads_to(model, cause, n, root) implies leads_to(
                        model,
                        seq,
                        n + (count + 1),
                        root,
                    ) by {
                        assert(leads_to(model, at, n + 1, root));
                        assert(leads_to(model, seq, (n + 1) + count, root));
                    }
                    count = count + 1;
                }
                at = cause;
            },
            None => {
                assert(leads_to(model, at, 0, None));
                assert(leads_to(model, seq, 0 + count, None));
                return true;
            },
        }
    }
    proof {
        if is_grounded(model, seq) {
            let (n, root) = choose|n: nat, root: Option<u64>| #[trigger]
                leads_to(model, seq, n, root);
            assert(leads_to(model, at, (n - count) as nat, root));
            assert(since.contains_key(at));
            assert(leads_to(model, at, (n - since[at]) as nat, root));
            lemma_one_end(
                model,
                at,
                (n - count) as nat,
                root,
                (n - since[at]) as nat,
                root,
            );
        }
    }
    false
}

/// The number of tool calls whose sequence number is not in the set.
spec fn unvisited(calls: Seq<CallModel>, visited: Set<u64>) -> nat
    decreases calls.len(),
{
    if calls.len() == 0 {
        0
    } else {
        unvisited(calls.drop_last(), visited) + (if visited.contains(calls.last().seq) {
            0nat
        } else {
            1nat
        })
    }
}

proof fn lemma_unvisited(calls: Seq<CallModel>, visited: Set<u64>, seq: u64)
    requires
        !visited.contains(seq),
    ensures
        unvisited(calls, visited.insert(seq)) <= unvisited(calls, visited),
        call_at(calls, seq) is Some ==> unvisited(calls, visited.insert(seq)) < unvisited(
            calls,
            visited,
        ),
    decreases calls.len(),
{
    if calls.len() > 0 {
        lemma_unvisited(calls.drop_last(), visited, seq);
    }
}

/// The nearest decisions of several events, as far as they have one.
pub open spec fn nearest_decisions(thread: CausalModel, seqs: Seq<u64>) -> Seq<u64>
    decreases seqs.len(),
{
    if seqs.len() == 0 {
        Seq::empty()
    } else {
        let before = nearest_decisions(thread, seqs.drop_last());
        match nearest_decision(thread, seqs.last()) {
            Some(root) => before.push(root),
            None => before,
        }
    }
}

/// The root that comes most often; among those that come equally often, the
/// earliest.
pub open spec fn is_main_root(roots: Seq<u64>, best: u64) -> bool {
    &&& roots.contains(best)
    &&& forall|other: u64| #[trigger]
        roots.contains(other) ==> occurrences(roots, other) < occurrences(roots, best) || (
        occurrences(roots, other) == occurrences(roots, best) && best <= other)
}

/// What caused an event of the thread: a tool call or a decision.
pub open spec fn cause_in(thread: CausalModel, seq: u64) -> Option<u64> {
    match call_cause(thread, seq) {
        Some(cause) => Some(cause),
        None => match decided_at(thread.decisions, seq) {
            Some(decision) => decision.caused_by,
            None => None,
        },
    }
}

/// Where `n` steps from effect to cause lead.
pub open spec fn steps_back(thread: CausalModel, seq: u64, n: nat) -> Option<u64>
    decreases n,
{
    if n == 0 {
        Some(seq)
    } else {
        match steps_back(thread, seq, (n - 1) as nat) {
            Some(at) => cause_in(thread, at),
            None => None,
        }
    }
}

/// Some number of steps from effect to cause leads from one event to another.
pub open spec fn goes_back_to(thread: CausalModel, seq: u64, origin: u64) -> bool {
    exists|n: nat| #[trigger] steps_back(thread, seq, n) == Some(origin)
}

/// A decision in the chain of causes of an event.
pub open spec fn is_in_chain(thread: CausalModel, seq: u64, decision: u64) -> bool {
    decided_at(thread.decisions, decision) is Some && goes_back_to(thread, seq, decision)
}

/// The earliest decision in the chain of causes of an event.
pub open spec fn is_origin(thread: CausalModel, seq: u64, origin: u64) -> bool {
    &&& is_in_chain(thread, seq, origin)
    &&& forall|other: u64| #[trigger] is_in_chain(thread, seq, other) ==> origin <= other
}

/// The earliest decision in the chain of causes of an event, where there is one.
pub open spec fn origin_of(thread: CausalModel, seq: u64) -> Option<u64> {
    if exists|decision: u64| #[trigger] is_in_chain(thread, seq, decision) {
        Some(choose|origin: u64| #[trigger] is_origin(thread, seq, origin))
    } else {
        None
    }
}

/// The origins of several events, as far as they have one.
pub open spec fn origins_of(thread: CausalModel, seqs: Seq<u64>) -> Seq<u64>
    decreases seqs.len(),
{
    if seqs.len() == 0 {
        Seq::empty()
    } else {
        let before = origins_of(thread, seqs.drop_last());
        match origin_of(thread, seqs.last()) {
            Some(origin) => before.push(origin),
            None => before,
        }
    }
}

/// The roots of a thread's failures: the earliest decisions of their chains.
pub open spec fn failure_roots(thread: CausalModel) -> Seq<u64> {
    origins_of(thread, call_seqs(thread.tool_calls.filter(is_failure())))
}

/// The decision that most failures of a thread go back to.
pub open spec fn root_cause_of(thread: CausalModel) -> Option<RootModel> {
    let roots = failure_roots(thread);
    if roots.len() == 0 {
        None
    } else {
        let best = choose|best: u64| #[trigger] is_main_root(roots, best);
        Some(RootModel { seq: best, agent: decided_at(thread.decisions, best)->0.agent })
    }
}

proof fn lemma_main_root(roots: Seq<u64>, best: u64)
    requires
        is_main_root(roots, best),
    ensures
        best == choose|best: u64| #[trigger] is_main_root(roots, best),
{
    let other = choose|best: u64| #[trigger] is_main_root(roots, best);
    assert(is_main_root(roots, other));
    assert(roots.contains(best) && roots.contains(other));
}

proof fn lemma_step_back(thread: CausalModel, seq: u64, at: u64)
    requires
        goes_back_to(thread, seq, at),
    ensures
        cause_in(thread, at) is Some ==> goes_back_to(thread, seq, cause_in(thread, at)->0),
{
    let n = choose|n: nat| #[trigger] steps_back(thread, seq, n) == Some(at);
    assert(steps_back(thread, seq, n + 1) == cause_in(thread, at));
}

/// A set that holds an event, and with every event its cause, holds the whole chain.
proof fn lemma_chain_within(thread: CausalModel, seq: u64, seen: Set<u64>, n: nat)
    requires
        seen.contains(seq),
        forall|node: u64| #[trigger]
            seen.contains(node) && cause_in(thread, node) is Some ==> seen.contains(
                cause_in(thread, node)->0,
            ),
        steps_back(thread, seq, n) is Some,
    ensures
        seen.contains(steps_back(thread, seq, n)->0),
    decreases n,
{
    if n > 0 {
        lemma_chain_within(thread, seq, seen, (n - 1) as nat);
    }
}

/// The smallest decision of such a set, all of which lies in the chain, is the origin.
proof fn lemma_origin(thread: CausalModel, seq: u64, seen: Set<u64>, found: Option<u64>)
    requires
        seen.contains(seq),
        forall|node: u64| #[trigger]
            seen.contains(node) && cause_in(thread, node) is Some ==> seen.contains(
                cause_in(thread, node)->0,
            ),
        forall|node: u64| #[trigger] seen.contains(node) ==> goes_back_to(thread, seq, node),
        is_least_decision(thread, seen, found),
    ensures
        origin_of(thread, seq) == found,
{
    assert forall|other: u64| #[trigger] is_in_chain(thread, seq, other) implies seen.contains(
        other,
    ) by {
        let n = choose|n: nat| #[trigger] steps_back(thread, seq, n) == Some(other);
        lemma_chain_within(thread, seq, seen, n);
    }
    if let Some(origin) = found {
        assert(is_in_chain(thread, seq, origin));
        assert(is_origin(thread, seq, origin));
        let chosen = choose|origin: u64| #[trigger] is_origin(thread, seq, origin);
        assert(is_origin(thread, seq, chosen));
        assert(is_in_chain(thread, seq, chosen));
    }
}

/// The smallest decision among the events of a set.
spec fn is_least_decision(thread: CausalModel, seen: Set<u64>, found: Option<u64>) -> bool {
    match found {
        Some(origin) => seen.contains(origin) && decided_at(thread.decisions, origin) is Some
            && forall|other: u64| #[trigger]
            seen.contains(other) && decided_at(thread.decisions, other) is Some ==> origin <= other,
        None => forall|other: u64| #[trigger]
            seen.contains(other) ==> decided_at(thread.decisions, other) is None,
    }
}

/// The number of decisions whose sequence number is not in the set.
spec fn undecided(decisions: Seq<DecisionModel>, visited: Set<u64>) -> nat
    decreases decisions.len(),
{
    if decisions.len() == 0 {
        0
    } else {
        undecided(decisions.drop_last(), visited) + (if visited.contains(decisions.last().seq) {
            0nat
        } else {
            1nat
        })
    }
}

proof fn lemma_undecided(decisions: Seq<DecisionModel>, visited: Set<u64>, seq: u64)
    requires
        !visited.contains(seq),
    ensures
        undecided(decisions, visited.insert(seq)) <= undecided(decisions, visited),
        decided_at(decisions, seq) is Some ==> undecided(decisions, visited.insert(seq))
            < undecided(decisions, visited),
    decreases decisions.len(),
{
    if decisions.len() > 0 {
        lemma_undecided(decisions.drop_last(), visited, seq);
    }
}

/// The earliest decision in the chain of causes of an event. A chain that runs in a
/// circle is followed once round.
fn find_origin(thread: &CausalThread, seq: u64) -> (r: Option<u64>)
    ensures
        r == origin_of(thread.deep_view(), seq),
{
    let ghost model = thread.deep_view();
    let mut visited: HashSet<u64> = HashSet::new();
    let mut found: Option<u64> = None;
    let mut at: u64 = seq;
    assert(steps_back(model, seq, 0) == Some(seq));
    while !visited.contains(&at)
        invariant
            model == thread.deep_view(),
            visited@.finite(),
            visited@.contains(seq) || at == seq,
            goes_back_to(model, seq, at),
            forall|node: u64| #[trigger] visited@.contains(node) ==> goes_back_to(model, seq, node),
            forall|node: u64| #[trigger]
                visited@.contains(node) && cause_in(model, node) is Some ==> visited@.contains(
                    cause_in(model, node)->0,
                ) || cause_in(model, node)->0 == at,
            is_least_decision(model, visited@, found),
        decreases unvisited(model.tool_calls, visited@) + undecided(model.decisions, visited@),
    {
        let ghost seen = visited@;
        let mut cause: Option<u64> = caused_by_of(thread, at);
        if let Some(decision) = find_decided(&thread.decisions, at) {
            found = match found {
                Some(before) => if at < before {
                    Some(at)
                } else {
                    Some(before)
                },
                None => Some(at),
            };
            if cause.is_none() {
                cause = decision.caused_by;
            }
        }
        assert(cause == cause_in(model, at));
        visited.insert(at);
        proof {
            lemma_unvisited(model.tool_calls, seen, at);
            lemma_undecided(model.decisions, seen, at);
            lemma_step_back(model, seq, at);
        }
        match cause {
            Some(next) => {
                at = next;
            },
            None => {
                proof {
                    lemma_origin(model, seq, visited@, found);
                }
                return found;
            },
        }
    }
    proof {
        lemma_origin(model, seq, visited@, found);
    }
    found
}

proof fn lemma_origin_of_some(thread: CausalModel, seqs: Seq<u64>, root: u64)
    requires
        origins_of(thread, seqs).contains(root),
    ensures
        exists|j: int| 0 <= j < seqs.len() && is_origin(thread, #[trigger] seqs[j], root),
    decreases seqs.len(),
{
    let roots = origins_of(thread, seqs);
    let rest = seqs.drop_last();
    let before = origins_of(thread, rest);
    let i = choose|i: int| 0 <= i < roots.len() && roots[i] == root;
    if i < before.len() {
        assert(before[i] == root);
        assert(before.contains(root));
        lemma_origin_of_some(thread, rest, root);
        let j = choose|j: int| 0 <= j < rest.len() && is_origin(thread, #[trigger] rest[j], root);
        assert(is_origin(thread, seqs[j], root));
    } else {
        lemma_has_origin(thread, seqs.last());
        assert(is_origin(thread, seqs[seqs.len() - 1], root));
    }
}

/// One root comes more often than another, or as often and earlier.
spec fn outweighs(roots: Seq<u64>, best: u64, other: u64) -> bool {
    occurrences(roots, other) < occurrences(roots, best) || (occurrences(roots, other)
        == occurrences(roots, best) && best <= other)
}

/// Among the first few roots there is one that outweighs the others.
proof fn lemma_best_among(roots: Seq<u64>, n: int) -> (best: u64)
    requires
        0 < n <= roots.len(),
    ensures
        roots.contains(best),
        forall|j: int| 0 <= j < n ==> outweighs(roots, best, #[trigger] roots[j]),
    decreases n,
{
    if n == 1 {
        roots[0]
    } else {
        let before = lemma_best_among(roots, n - 1);
        if outweighs(roots, before, roots[n - 1]) {
            before
        } else {
            roots[n - 1]
        }
    }
}

/// The root cause of a thread is the earliest decision in the chain of causes of some
/// failure, and there is one exactly if some failure goes back to a decision.
pub proof fn law_root_cause_is_earliest(thread: CausalModel)
    ensures
        match root_cause_of(thread) {
            Some(cause) => exists|i: int|
                0 <= i < thread.tool_calls.len() && (#[trigger] thread.tool_calls[i]).outcome is Failed
                    && is_origin(thread, thread.tool_calls[i].seq, cause.seq),
            None => forall|i: int, decision: u64|
                0 <= i < thread.tool_calls.len() && thread.tool_calls[i].outcome is Failed
                    ==> !#[trigger] is_in_chain(thread, thread.tool_calls[i].seq, decision),
        },
{
    let failures = thread.tool_calls.filter(is_failure());
    let seqs = call_seqs(failures);
    let roots = origins_of(thread, seqs);
    lemma_filter_has(thread.tool_calls, is_failure());
    if roots.len() > 0 {
        let best = lemma_best_among(roots, roots.len() as int);
        assert forall|other: u64| #[trigger] roots.contains(other) implies outweighs(
            roots,
            best,
            other,
        ) by {
            let j = choose|j: int| 0 <= j < roots.len() && roots[j] == other;
            assert(outweighs(roots, best, roots[j]));
        }
        assert(is_main_root(roots, best));
        lemma_main_root(roots, best);
        lemma_origin_of_some(thread, seqs, best);
        let j = choose|j: int| 0 <= j < seqs.len() && is_origin(thread, #[trigger] seqs[j], best);
        assert(failures.contains(failures[j]));
        assert(thread.tool_calls.contains(failures[j]));
        let i = choose|i: int|
            0 <= i < thread.tool_calls.len() && thread.tool_calls[i] == failures[j];
        assert(is_origin(thread, thread.tool_calls[i].seq, best));
    } else {
        assert forall|i: int, decision: u64|
            0 <= i < thread.tool_calls.len() && thread.tool_calls[i].outcome is Failed implies
            !#[trigger] is_in_chain(thread, thread.tool_calls[i].seq, decision) by {
            assert(thread.tool_calls.contains(thread.tool_calls[i]));
            assert(failures.contains(thread.tool_calls[i]));
            let j = choose|j: int| 0 <= j < failures.len() && failures[j] == thread.tool_calls[i];
            lemma_no_origins(thread, seqs, j, decision);
        }
    }
}

proof fn lemma_no_origins(thread: CausalModel, seqs: Seq<u64>, j: int, decision: u64)
    requires
        origins_of(thread, seqs).len() == 0,
        0 <= j < seqs.len(),
    ensures
        !is_in_chain(thread, seqs[j], decision),
    decreases seqs.len(),
{
    if j < seqs.len() - 1 {
        lemma_no_origins(thread, seqs.drop_last(), j, decision);
    } else if is_in_chain(thread, seqs[j], decision) {
        assert(origin_of(thread, seqs.last()) is Some);
    }
}

/// Where there is a decision in the chain, there is an earliest one.
proof fn lemma_has_origin(thread: CausalModel, seq: u64)
    requires
        exists|decision: u64| #[trigger] is_in_chain(thread, seq, decision),
    ensures
        is_origin(thread, seq, origin_of(thread, seq)->0),
{
    let some = choose|decision: u64| #[trigger] is_in_chain(thread, seq, decision);
    lemma_earliest(thread, seq, some);
    let origin = choose|origin: u64| #[trigger] is_origin(thread, seq, origin);
    assert(is_origin(thread, seq, origin));
}

proof fn lemma_earliest(thread: CausalModel, seq: u64, bound: u64)
    requires
        is_in_chain(thread, seq, bound),
    ensures
        exists|origin: u64| #[trigger] is_origin(thread, seq, origin),
    decreases bound,
{
    if exists|other: u64| #[trigger] is_in_chain(thread, seq, other) && other < bound {
        let other = choose|other: u64| #[trigger]
            is_in_chain(thread, seq, other) && other < bound;
        lemma_earliest(thread, seq, other);
    } else {
        assert(is_origin(thread, seq, bound));
    }
}

fn find_origins(thread: &CausalThread, seqs: &Vec<u64>) -> (r: Vec<u64>)
    ensures
        r@ == origins_of(thread.deep_view(), seqs@),
{
    let ghost model = thread.deep_view();
    let mut origins: Vec<u64> = Vec::new();
    let mut i: usize = 0;
    assert(seqs@.take(0) =~= Seq::empty());
    while i < seqs.len()
        invariant
            i <= seqs.len(),
            model == thread.deep_view(),
            origins@ == origins_of(model, seqs@.take(i as int)),
        decreases seqs.len() - i,
    {
        assert(seqs@.take(i + 1).drop_last() =~= seqs@.take(i as int));
        if let Some(origin) = find_origin(thread, seqs[i]) {
            origins.push(origin);
        }
        i += 1;
    }
    assert(seqs@.take(i as int) =~= seqs@);
    origins
}

fn find_nearest_all(thread: &CausalThread, seqs: &Vec<u64>) -> (r: Vec<u64>)
    requires
        forall|i: int|
            0 <= i < seqs@.len() ==> is_grounded(thread.deep_view(), #[trigger] seqs@[i]),
    ensures
        r@ == nearest_decisions(thread.deep_view(), seqs@),
{
    let ghost model = thread.deep_view();
    let mut roots: Vec<u64> = Vec::new();
    let mut i: usize = 0;
    assert(seqs@.take(0) =~= Seq::empty());
    while i < seqs.len()
        invariant
            i <= seqs.len(),
            model == thread.deep_view(),
            forall|i: int| 0 <= i < seqs@.len() ==> is_grounded(model, #[trigger] seqs@[i]),
            roots@ == nearest_decisions(model, seqs@.take(i as int)),
        decreases seqs.len() - i,
    {
        assert(seqs@.take(i + 1).drop_last() =~= seqs@.take(i as int));
        assert(is_grounded(model, seqs@[i as int]));
        if let Some(root) = find_nearest(thread, seqs[i]) {
            roots.push(root);
        }
        i += 1;
    }
    assert(seqs@.take(i as int) =~= seqs@);
    roots
}

fn main_root(roots: &Vec<u64>) -> (r: Option<u64>)
    ensures
        match r {
            Some(best) => is_main_root(roots@, best),
            None => roots@.len() == 0,
        },
{
    let mut counts: SortedMap<u64, usize> = SortedMap::new();
    let mut i: usize = 0;
    assert(roots@.take(0) =~= Seq::empty());
    while i < roots.len()
        invariant
            i <= roots.len(),
            forall|root: u64|
                #![trigger counts.deep_view().contains_key(root)]
                #![trigger roots@.take(i as int).contains(root)]
                counts.deep_view().contains_key(root) <==> roots@.take(i as int).contains(root),
            forall|root: u64| #[trigger]
                counts.deep_view().contains_key(root) ==> counts.deep_view()[root] == occurrences(
                    roots@.take(i as int),
                    root,
                ) && counts.deep_view()[root] <= i,
        decreases roots.len() - i,
    {
        let root: u64 = roots[i];
        let ghost before = roots@.take(i as int);
        let ghost were = counts.deep_view();
        let count: usize = match counts.get(&root) {
            Some(count) => *count,
            None => 0,
        };
        proof {
            if !were.contains_key(root) {
                lemma_occurrences_absent(before, root);
            }
            assert(roots@.take(i + 1) =~= before.push(root));
            assert forall|other: u64|
                #![trigger before.push(root).contains(other)]
                before.push(root).contains(other) <==> (other == root || before.contains(
                    other,
                )) by {
                if before.push(root).contains(other) && other != root {
                    let j = choose|j: int| 0 <= j < i + 1 && before.push(root)[j] == other;
                    assert(before[j] == other);
                }
                if before.contains(other) {
                    let j = choose|j: int| 0 <= j < i && before[j] == other;
                    assert(before.push(root)[j] == other);
                }
                assert(before.push(root)[i as int] == root);
            }
            assert forall|other: u64| occurrences(before.push(root), other) == #[trigger]
                occurrences(before, other) + (if other == root {
                1nat
            } else {
                0nat
            }) by {
                lemma_occurrences_push(before, root, other);
            }
        }
        counts.insert(root, count + 1);
        i += 1;
    }
    assert(roots@.take(i as int) =~= roots@);
    let n: usize = counts.len();
    let ghost pairs = counts.pairs();
    let ghost model = counts.deep_view();
    if n == 0 {
        proof {
            if roots@.len() > 0 {
                assert(roots@.contains(roots@[0]));
                lemma_map_of_domain(pairs, roots@[0]);
            }
        }
        return None;
    }
    let mut at: usize = 0;
    let mut k: usize = 1;
    while k < n
        invariant
            at < k <= n,
            n == pairs.len(),
            pairs == counts.pairs(),
            ascending::<u64, usize>(pairs),
            forall|j: int|
                0 <= j < k ==> (#[trigger] pairs[j]).1 < pairs[at as int].1 || (pairs[j].1
                    == pairs[at as int].1 && pairs[at as int].0 <= pairs[j].0),
        decreases n - k,
    {
        if *counts.value_at(k) > *counts.value_at(at) {
            at = k;
        } else {
            proof {
                crate::sorted::lemma_ascending_at::<u64, usize>(pairs, at as int, k as int);
            }
        }
        k += 1;
    }
    let best: u64 = *counts.key_at(at);
    let most: usize = *counts.value_at(at);
    proof {
        assert(model.contains_key(best));
        assert(roots@.contains(best));
        assert forall|other: u64| #[trigger] roots@.contains(other) implies occurrences(
            roots@,
            other,
        ) < occurrences(roots@, best) || (occurrences(roots@, other) == occurrences(roots@, best)
            && best <= other) by {
            assert(model.contains_key(other));
            lemma_map_of_pair(pairs, other);
            let j = choose|j: int|
                0 <= j < pairs.len() && #[trigger] pairs[j] == (other, map_of(pairs)[other]);
            assert(pairs[j].1 == model[other]);
        }
    }
    Some(best)
}

/// The smallest of several sequence numbers.
pub open spec fn least(seqs: Seq<u64>) -> Option<u64>
    decreases seqs.len(),
{
    if seqs.len() == 0 {
        None
    } else {
        match least(seqs.drop_last()) {
            Some(before) => Some(
                if seqs.last() < before {
                    seqs.last()
                } else {
                    before
                },
            ),
            None => Some(seqs.last()),
        }
    }
}

fn find_least(seqs: &Vec<u64>) -> (r: Option<u64>)
    ensures
        r == least(seqs@),
{
    let mut found: Option<u64> = None;
    let mut i: usize = 0;
    assert(seqs@.take(0) =~= Seq::empty());
    while i < seqs.len()
        invariant
            i <= seqs.len(),
            found == least(seqs@.take(i as int)),
        decreases seqs.len() - i,
    {
        assert(seqs@.take(i + 1).drop_last() =~= seqs@.take(i as int));
        found = match found {
            Some(before) => if seqs[i] < before {
                Some(seqs[i])
            } else {
                Some(before)
            },
            None => Some(seqs[i]),
        };
        i += 1;
    }
    assert(seqs@.take(i as int) =~= seqs@);
    found
}

/// The failed calls, of one tool or of any.
fn failed_calls(calls: &Vec<ToolCallNode>, tool: Option<&str>) -> (r: Vec<u64>)
    ensures
        r@ == call_seqs(
            calls.deep_view().filter(
                match tool {
                    Some(name) => is_failure_of(name@),
                    None => is_failure(),
                },
            ),
        ),
{
    let ghost all = calls.deep_view();
    let ghost keep = match tool {
        Some(name) => is_failure_of(name@),
        None => is_failure(),
    };
    let mut out: Vec<u64> = Vec::new();
    let mut i: usize = 0;
    proof {
        reveal(Seq::filter);
        assert(all.take(0) =~= Seq::empty());
        assert(out@ =~= call_seqs(all.take(0).filter(keep)));
    }
    while i < calls.len()
        invariant
            i <= calls.len(),
            all == calls.deep_view(),
            keep == (match tool {
                Some(name) => is_failure_of(name@),
                None => is_failure(),
            }),
            out@ == call_seqs(all.take(i as int).filter(keep)),
        decreases calls.len() - i,
    {
        let call = &calls[i];
        let ghost before = all.take(i as int).filter(keep);
        proof {
            assert(all.take(i + 1) =~= all.take(i as int).push(call.deep_view()));
            lemma_filter_push(all.take(i as int), call.deep_view(), keep);
            assert(call_seqs(before.push(call.deep_view())) =~= call_seqs(before).push(call.seq));
        }
        let named: bool = match tool {
            Some(name) => text_same(call.tool.as_str(), name),
            None => true,
        };
        if named {
            if let ToolOutcome::Failed(_) = &call.outcome {
                out.push(call.seq);
            }
        }
        i += 1;
    }
    assert(all.take(i as int) =~= all);
    out
}

proof fn lemma_failures_grounded(thread: CausalModel, keep: spec_fn(CallModel) -> bool)
    requires
        failures_grounded(thread),
        forall|call: CallModel| #[trigger] keep(call) ==> call.outcome is Failed,
    ensures
        forall|i: int|
            0 <= i < call_seqs(thread.tool_calls.filter(keep)).len() ==> is_grounded(
                thread,
                #[trigger] call_seqs(thread.tool_calls.filter(keep))[i],
            ),
{
    let kept = thread.tool_calls.filter(keep);
    lemma_filter_has(thread.tool_calls, keep);
    assert forall|i: int| 0 <= i < call_seqs(kept).len() implies is_grounded(
        thread,
        #[trigger] call_seqs(kept)[i],
    ) by {
        assert(kept.contains(kept[i]));
        let j = choose|j: int|
            0 <= j < thread.tool_calls.len() && thread.tool_calls[j] == kept[i];
        assert(thread.tool_calls[j].outcome is Failed);
        assert(is_grounded(thread, thread.tool_calls[j].seq));
    }
}

/// The decisions that do not speak of the intent.
fn stray_decisions(decisions: &Vec<DecisionNode>, intent: &str) -> (r: Vec<u64>)
    ensures
        r@ == decision_seqs(decisions.deep_view().filter(strays_from(intent@))),
{
    let ghost all = decisions.deep_view();
    let ghost keep = strays_from(intent@);
    let wanted = text_lowercase(intent);
    let mut out: Vec<u64> = Vec::new();
    let mut i: usize = 0;
    proof {
        reveal(Seq::filter);
        assert(all.take(0) =~= Seq::empty());
        assert(out@ =~= decision_seqs(all.take(0).filter(keep)));
    }
    while i < decisions.len()
        invariant
            i <= decisions.len(),
            all == decisions.deep_view(),
            keep == strays_from(intent@),
            wanted@ == lowercase(intent@),
            out@ == decision_seqs(all.take(i as int).filter(keep)),
        decreases decisions.len() - i,
    {
        let decision = &decisions[i];
        let ghost before = all.take(i as int).filter(keep);
        proof {
            assert(all.take(i + 1) =~= all.take(i as int).push(decision.deep_view()));
            lemma_filter_push(all.take(i as int), decision.deep_view(), keep);
            assert(decision_seqs(before.push(decision.deep_view())) =~= decision_seqs(before).push(
                decision.seq,
            ));
        }
        if !intent.is_empty() && !text_contains(
            text_lowercase(decision.description.as_str()).as_str(),
            wanted.as_str(),
        ) {
            out.push(decision.seq);
        }
        i += 1;
    }
    assert(all.take(i as int) =~= all);
    out
}

/// The descriptions of decisions.
pub open spec fn descriptions(decisions: Seq<DecisionModel>) -> Seq<Seq<char>> {
    Seq::new(decisions.len(), |i: int| decisions[i].description)
}

/// What the decisions of past episodes say, in one text.
pub open spec fn episodes_text(episodes: Seq<CausalModel>) -> Seq<char> {
    joined(
        Seq::new(
            episodes.len(),
            |i: int| joined(descriptions(episodes[i].decisions), " "@),
        ),
        " "@,
    )
}

/// What past episodes say about proposals.
pub open spec fn support_of(episodes: Seq<CausalModel>) -> EpisodeSupport {
    let text = lowercase(episodes_text(episodes));
    if episodes.len() == 0 {
        EpisodeSupport::Absent
    } else if text_has(text, "resuelto"@) || text_has(text, "addnullcheck"@) || text_has(
        text,
        "check"@,
    ) {
        EpisodeSupport::Resolved
    } else {
        EpisodeSupport::Unresolved
    }
}

fn describe(decisions: &Vec<DecisionNode>) -> (r: String)
    ensures
        r@ == joined(descriptions(decisions.deep_view()), " "@),
{
    let ghost all = descriptions(decisions.deep_view());
    let mut parts: Vec<String> = Vec::new();
    let mut i: usize = 0;
    assert(parts.deep_view() =~= all.take(0));
    while i < decisions.len()
        invariant
            i <= decisions.len(),
            all == descriptions(decisions.deep_view()),
            parts.deep_view() == all.take(i as int),
        decreases decisions.len() - i,
    {
        let ghost was = parts.deep_view();
        parts.push(decisions[i].description.clone());
        proof {
            assert(all[i as int] == decisions@[i as int].deep_view().description);
            assert(parts.deep_view() =~= was.push(all[i as int]));
            assert(all.take(i + 1) =~= was.push(all[i as int]));
        }
        i += 1;
    }
    assert(all.take(i as int) =~= all);
    join_all(&parts, " ")
}

fn find_support(episodes: &Vec<CausalThread>) -> (r: EpisodeSupport)
    ensures
        r == support_of(episodes.deep_view()),
{
    let ghost model = episodes.deep_view();
    let ghost all = Seq::new(
        model.len(),
        |i: int| joined(descriptions(model[i].decisions), " "@),
    );
    let mut parts: Vec<String> = Vec::new();
    let mut i: usize = 0;
    assert(parts.deep_view() =~= all.take(0));
    while i < episodes.len()
        invariant
            i <= episodes.len(),
            model == episodes.deep_view(),
            all == Seq::new(
                model.len(),
                |i: int| joined(descriptions(model[i].decisions), " "@),
            ),
            parts.deep_view() == all.take(i as int),
        decreases episodes.len() - i,
    {
        let ghost was = parts.deep_view();
        parts.push(describe(&episodes[i].decisions));
        proof {
            assert(model[i as int] == episodes@[i as int].deep_view());
            assert(parts.deep_view() =~= was.push(all[i as int]));
            assert(all.take(i + 1) =~= was.push(all[i as int]));
        }
        i += 1;
    }
    assert(all.take(i as int) =~= all);
    if episodes.len() == 0 {
        return EpisodeSupport::Absent;
    }
    let whole = join_all(&parts, " ");
    assert(whole@ == episodes_text(model));
    let text = text_lowercase(whole.as_str());
    if text_contains(text.as_str(), "resuelto") || text_contains(text.as_str(), "addnullcheck")
        || text_contains(text.as_str(), "check") {
        EpisodeSupport::Resolved
    } else {
        EpisodeSupport::Unresolved
    }
}

/// The draft that answers an anomaly.
pub open spec fn draft_of(
    thread: CausalModel,
    intent: Seq<char>,
    support: EpisodeSupport,
    anomaly: AnomalyModel,
) -> DraftModel {
    match anomaly.kind {
        AnomalyKind::ErrorLoop => {
            let tool = match anomaly.tool {
                Some(name) => name,
                None => Seq::empty(),
            };
            let evidence = call_seqs(thread.tool_calls.filter(is_failure_of(tool)));
            DraftModel {
                kind: anomaly.kind,
                support,
                description: "Add pre-checks before calling tool '"@ + tool
                    + "' to avoid repeated errors"@,
                evidence_seqs: evidence,
                trigger_seq: least(nearest_decisions(thread, evidence)),
            }
        },
        AnomalyKind::ObjectiveDrift => {
            let evidence = decision_seqs(thread.decisions.filter(strays_from(intent)));
            DraftModel {
                kind: anomaly.kind,
                support,
                description: "Realign decisions with the original intent"@,
                evidence_seqs: evidence,
                trigger_seq: least(evidence),
            }
        },
    }
}

/// The drafts that answer all anomalies of a thread.
pub open spec fn drafts_of(
    thread: CausalModel,
    intent: Seq<char>,
    support: EpisodeSupport,
) -> Seq<DraftModel> {
    Seq::new(
        thread.anomalies.len(),
        |i: int| draft_of(thread, intent, support, thread.anomalies[i]),
    )
}

/// The findings for anomalies.
pub open spec fn anomaly_findings(anomalies: Seq<AnomalyModel>) -> Seq<FindingModel> {
    Seq::new(anomalies.len(), |i: int| finding_of(anomalies[i]))
}

/// The finding for the root cause, where there is one.
pub open spec fn root_findings(thread: CausalModel) -> Seq<FindingModel> {
    match root_cause_of(thread) {
        Some(root) => seq![
            FindingModel {
                kind: FindingKind::RootCause,
                seq: Some(root.seq),
                description: "Root cause: "@ + root.agent + " decision at seq "@ + decimal(
                    root.seq as nat,
                ),
            },
        ],
        None => Seq::empty(),
    }
}

/// Failures without an anomaly are noted.
pub open spec fn evidence_findings(thread: CausalModel) -> Seq<FindingModel> {
    if thread.anomalies.len() == 0 && thread.tool_calls.filter(is_failure()).len() > 0 {
        seq![
            FindingModel {
                kind: FindingKind::InsufficientEvidence,
                seq: None,
                description: "Failures detected, but not enough evidence for a proposal"@,
            },
        ]
    } else {
        Seq::empty()
    }
}

/// What is found in a thread.
pub open spec fn findings_of(thread: CausalModel) -> Seq<FindingModel> {
    anomaly_findings(thread.anomalies) + root_findings(thread) + evidence_findings(thread)
}

/// The quality of the output by what the state's JSON text says.
pub open spec fn output_of(state: Option<JsonModel>) -> OutputQuality {
    match state {
        Some(payload) => {
            let text = lowercase(json_text(payload));
            if text_has(text, "success"@) || text_has(text, "done"@) || text_has(text, "ok"@) {
                OutputQuality::Success
            } else if text_has(text, "error"@) || text_has(text, "fail"@) {
                OutputQuality::Failure
            } else {
                OutputQuality::Unknown
            }
        },
        None => OutputQuality::Unknown,
    }
}

/// The penalties of a thread.
pub open spec fn penalties_of(anomalies: Seq<AnomalyModel>) -> Seq<Penalty> {
    Seq::new(anomalies.len(), |i: int| penalty_of(anomalies[i]))
}

/// The draft becomes a proposal: it cites the events that it rests on and the decision
/// that set them off, and its confidence is above zero, at most one, and reaches the
/// threshold.
pub open spec fn is_proposed(draft: DraftModel, score: Score, min_confidence: u64) -> bool {
    &&& draft.evidence_seqs.len() > 0
    &&& draft.trigger_seq is Some
    &&& 0 < score.confidence <= FULL_CONFIDENCE
    &&& double_reaches(score.confidence, min_confidence)
}

/// The drafts among the first `n` that become proposals, with their scores.
pub open spec fn confident(
    drafts: Seq<DraftModel>,
    scores: Seq<Score>,
    min_confidence: u64,
    n: nat,
) -> Seq<ProposalModel>
    decreases n,
{
    if n == 0 {
        Seq::empty()
    } else {
        let before = confident(drafts, scores, min_confidence, (n - 1) as nat);
        let draft = drafts[n - 1];
        let score = scores[n - 1];
        if is_proposed(draft, score, min_confidence) {
            before.push(
                ProposalModel {
                    description: draft.description,
                    evidence_seqs: draft.evidence_seqs,
                    trigger_seq: draft.trigger_seq,
                    confidence: score.confidence,
                    specificity: score.specificity,
                },
            )
        } else {
            before
        }
    }
}

/// The proposal cites the events that it rests on and the decision that set them off,
/// and its confidence is above zero, at most one, and reaches the threshold.
pub open spec fn is_grounded_proposal(proposal: ProposalModel, min_confidence: u64) -> bool {
    &&& proposal.evidence_seqs.len() > 0
    &&& proposal.trigger_seq is Some
    &&& 0 < proposal.confidence <= FULL_CONFIDENCE
    &&& double_reaches(proposal.confidence, min_confidence)
}

proof fn lemma_proposals_are_grounded(
    drafts: Seq<DraftModel>,
    scores: Seq<Score>,
    min_confidence: u64,
    n: nat,
)
    ensures
        forall|i: int|
            0 <= i < confident(drafts, scores, min_confidence, n).len() ==> is_grounded_proposal(
                #[trigger] confident(drafts, scores, min_confidence, n)[i],
                min_confidence,
            ),
    decreases n,
{
    if n > 0 {
        let before = confident(drafts, scores, min_confidence, (n - 1) as nat);
        lemma_proposals_are_grounded(drafts, scores, min_confidence, (n - 1) as nat);
        let now = confident(drafts, scores, min_confidence, n);
        assert forall|i: int| 0 <= i < now.len() implies is_grounded_proposal(
            #[trigger] now[i],
            min_confidence,
        ) by {
            if i < before.len() {
                assert(now[i] == before[i]);
            }
        }
    }
}

/// Where all drafts fell short, that is noted.
pub open spec fn threshold_findings(
    drafts: Seq<DraftModel>,
    proposals: Seq<ProposalModel>,
) -> Seq<FindingModel> {
    if proposals.len() == 0 && drafts.len() > 0 {
        seq![
            FindingModel {
                kind: FindingKind::InsufficientEvidence,
                seq: None,
                description: "Insufficient evidence to generate a learning proposal"@,
            },
        ]
    } else {
        Seq::empty()
    }
}

/// Pure evaluator: receives a causal thread and returns findings and proposals.
pub struct HarnessLoop;

impl HarnessLoop {
    /// Whether the thread can be assessed: going from effect to cause ends for every
    /// failure.
    pub fn can_assess(thread: &CausalThread) -> (r: bool)
        ensures
            r == failures_grounded(thread.deep_view()),
    {
        let ghost model = thread.deep_view();
        let mut i: usize = 0;
        while i < thread.tool_calls.len()
            invariant
                i <= thread.tool_calls.len(),
                model == thread.deep_view(),
                forall|j: int|
                    0 <= j < i && (#[trigger] model.tool_calls[j]).outcome is Failed
                        ==> is_grounded(model, model.tool_calls[j].seq),
            decreases thread.tool_calls.len() - i,
        {
            let call = &thread.tool_calls[i];
            assert(model.tool_calls[i as int] == call.deep_view());
            if let ToolOutcome::Failed(_) = &call.outcome {
                if !check_grounded(thread, call.seq) {
                    return false;
                }
            }
            i += 1;
        }
        true
    }

    /// Reads findings, the root cause and drafts of proposals off a causal thread.
    pub fn assess(input: &HarnessInput) -> (r: Assessment)
        requires
            failures_grounded(input.causal_thread.deep_view()),
        ensures
            r.penalties@ == penalties_of(input.causal_thread.deep_view().anomalies),
            r.output_quality == output_of(input.current_state.deep_view()),
            r.root_cause.deep_view() == root_cause_of(input.causal_thread.deep_view()),
            r.findings.deep_view() == findings_of(input.causal_thread.deep_view()),
            r.drafts.deep_view() == drafts_of(
                input.causal_thread.deep_view(),
                input.original_intent@,
                support_of(input.similar_episodes.deep_view()),
            ),
    {
        let mut findings: Vec<Finding> = Vec::new();
        let thread = &input.causal_thread;
        assert(findings.deep_view() =~= Seq::empty());
        let penalties = Self::compute_process_quality(&thread.anomalies, &mut findings);
        let output_quality = Self::compute_output_quality(&input.current_state);
        let root_cause = Self::find_root_cause(thread, &mut findings);
        let drafts = Self::generate_proposals(input, &mut findings);
        assert(findings.deep_view() =~= findings_of(thread.deep_view()));
        Assessment { penalties, output_quality, root_cause, findings, drafts }
    }

    fn compute_process_quality(anomalies: &Vec<Anomaly>, findings: &mut Vec<Finding>) -> (r: Vec<
        Penalty,
    >)
        ensures
            r@ == penalties_of(anomalies.deep_view()),
            final(findings).deep_view() == old(findings).deep_view() + anomaly_findings(
                anomalies.deep_view(),
            ),
    {
        let ghost model = anomalies.deep_view();
        let ghost base = findings.deep_view();
        let ghost found = anomaly_findings(model);
        let ghost costs = penalties_of(model);
        let mut penalties: Vec<Penalty> = Vec::new();
        let mut i: usize = 0;
        assert(penalties@ =~= costs.take(0));
        assert(base =~= base + found.take(0));
        while i < anomalies.len()
            invariant
                i <= anomalies.len(),
                model == anomalies.deep_view(),
                found == anomaly_findings(model),
                costs == penalties_of(model),
                penalties@ == costs.take(i as int),
                findings.deep_view() == base + found.take(i as int),
            decreases anomalies.len() - i,
        {
            let ghost was = findings.deep_view();
            let anomaly = &anomalies[i];
            assert(model[i as int] == anomaly.deep_view());
            let count = u64_text(anomaly.repetitions as u64);
            let (cap, finding): (u32, Finding) = match anomaly.kind {
                AnomalyKind::ErrorLoop => {
                    let head = join3("Tool ", show_option(&anomaly.tool).as_str(), " failed ");
                    (
                        5,
                        Finding {
                            kind: FindingKind::InefficientLoop,
                            seq: None,
                            description: join3(head.as_str(), count.as_str(), " times in a loop"),
                        },
                    )
                },
                AnomalyKind::ObjectiveDrift => (
                    10,
                    Finding {
                        kind: FindingKind::ObjectiveDrift,
                        seq: anomaly.original_intent_seq,
                        description: join3(
                            "Objective drift: ",
                            count.as_str(),
                            " decisions diverged from intent",
                        ),
                    },
                ),
            };
            let times: u32 = if anomaly.repetitions < cap {
                anomaly.repetitions
            } else {
                cap
            };
            penalties.push(Penalty { kind: anomaly.kind, times });
            let ghost shown = finding.deep_view();
            findings.push(finding);
            proof {
                assert(shown =~= found[i as int]);
                assert(findings.deep_view() =~= was.push(shown));
                assert(was.push(found[i as int]) =~= base + found.take(i + 1));
                assert(costs.take(i + 1) =~= costs.take(i as int).push(costs[i as int]));
            }
            i += 1;
        }
        assert(costs.take(i as int) =~= costs);
        assert(found.take(i as int) =~= found);
        penalties
    }

    fn compute_output_quality(state: &Option<Json>) -> (r: OutputQuality)
        ensures
            r == output_of(state.deep_view()),
    {
        if let Some(payload) = state {
            let json = text_lowercase(payload.to_text().as_str());
            if text_contains(json.as_str(), "success") || text_contains(json.as_str(), "done")
                || text_contains(json.as_str(), "ok") {
                return OutputQuality::Success;
            }
            if text_contains(json.as_str(), "error") || text_contains(json.as_str(), "fail") {
                return OutputQuality::Failure;
            }
        }
        OutputQuality::Unknown
    }

    fn find_root_cause(thread: &CausalThread, findings: &mut Vec<Finding>) -> (r: Option<RootCause>)
        ensures
            r.deep_view() == root_cause_of(thread.deep_view()),
            final(findings).deep_view() == old(findings).deep_view() + root_findings(
                thread.deep_view(),
            ),
    {
        let ghost model = thread.deep_view();
        let ghost base = findings.deep_view();
        let failures = failed_calls(&thread.tool_calls, None);
        let roots = find_origins(thread, &failures);
        match main_root(&roots) {
            Some(best) => {
                proof {
                    lemma_main_root(roots@, best);
                    lemma_origin_of_some(model, failures@, best);
                    assert(decided_at(model.decisions, best) is Some);
                }
                if let Some(decision) = find_decided(&thread.decisions, best) {
                    let head = join3("Root cause: ", decision.agent.0.as_str(), " decision at seq ");
                    let finding = Finding {
                        kind: FindingKind::RootCause,
                        seq: Some(best),
                        description: join2(head.as_str(), u64_text(best).as_str()),
                    };
                    let ghost shown = finding.deep_view();
                    findings.push(finding);
                    let r = RootCause { seq: best, agent: decision.agent.replica() };
                    proof {
                        assert(findings.deep_view() =~= base.push(shown));
                        assert(shown =~= root_findings(model)[0]);
                        assert(base.push(shown) =~= base + root_findings(model));
                    }
                    Some(r)
                } else {
                    None
                }
            },
            None => {
                assert(base =~= base + root_findings(model));
                None
            },
        }
    }

    fn generate_proposals(input: &HarnessInput, findings: &mut Vec<Finding>) -> (r: Vec<
        ProposalDraft,
    >)
        requires
            failures_grounded(input.causal_thread.deep_view()),
        ensures
            r.deep_view() == drafts_of(
                input.causal_thread.deep_view(),
                input.original_intent@,
                support_of(input.similar_episodes.deep_view()),
            ),
            final(findings).deep_view() == old(findings).deep_view() + evidence_findings(
                input.causal_thread.deep_view(),
            ),
    {
        let thread = &input.causal_thread;
        let ghost model = thread.deep_view();
        let ghost intent = input.original_intent@;
        let ghost base = findings.deep_view();
        let support = find_support(&input.similar_episodes);
        let ghost all = drafts_of(model, intent, support);
        let mut drafts: Vec<ProposalDraft> = Vec::new();
        let mut i: usize = 0;
        assert(drafts.deep_view() =~= all.take(0));
        while i < thread.anomalies.len()
            invariant
                i <= thread.anomalies.len(),
                thread == &input.causal_thread,
                model == thread.deep_view(),
                intent == input.original_intent@,
                failures_grounded(model),
                all == drafts_of(model, intent, support),
                drafts.deep_view() == all.take(i as int),
            decreases thread.anomalies.len() - i,
        {
            let ghost was = drafts.deep_view();
            let anomaly = &thread.anomalies[i];
            assert(model.anomalies[i as int] == anomaly.deep_view());
            let draft = match anomaly.kind {
                AnomalyKind::ErrorLoop => {
                    let tool = match &anomaly.tool {
                        Some(name) => name.clone(),
                        None => String::new(),
                    };
                    let evidence = failed_calls(&thread.tool_calls, Some(tool.as_str()));
                    proof {
                        lemma_failures_grounded(model, is_failure_of(tool@));
                    }
                    let trigger = earliest_decision_causing(thread, &evidence);
                    ProposalDraft {
                        kind: anomaly.kind,
                        support,
                        description: join3(
                            "Add pre-checks before calling tool '",
                            tool.as_str(),
                            "' to avoid repeated errors",
                        ),
                        evidence_seqs: evidence,
                        trigger_seq: trigger,
                    }
                },
                AnomalyKind::ObjectiveDrift => {
                    let evidence = stray_decisions(
                        &thread.decisions,
                        input.original_intent.as_str(),
                    );
                    let trigger = find_least(&evidence);
                    ProposalDraft {
                        kind: anomaly.kind,
                        support,
                        description: "Realign decisions with the original intent".to_owned(),
                        evidence_seqs: evidence,
                        trigger_seq: trigger,
                    }
                },
            };
            let ghost shown = draft.deep_view();
            drafts.push(draft);
            proof {
                assert(shown =~= all[i as int]);
                assert(drafts.deep_view() =~= was.push(all[i as int]));
                assert(all.take(i + 1) =~= was.push(all[i as int]));
            }
            i += 1;
        }
        assert(all.take(i as int) =~= all);
        let failures = failed_calls(&thread.tool_calls, None);
        if drafts.len() == 0 && failures.len() > 0 {
            let finding = Finding {
                kind: FindingKind::InsufficientEvidence,
                seq: None,
                description: "Failures detected, but not enough evidence for a proposal".to_owned(),
            };
            let ghost shown = finding.deep_view();
            findings.push(finding);
            proof {
                assert(drafts.deep_view().len() == 0);
                assert(findings.deep_view() =~= base.push(shown));
                assert(base.push(shown) =~= base + evidence_findings(model));
            }
        } else {
            assert(drafts.deep_view().len() == drafts@.len());
            assert(base =~= base + evidence_findings(model));
        }
        drafts
    }

    /// Keeps the drafts that cite their evidence and the decision behind it and whose
    /// confidence reaches the threshold; the scores go with the drafts one by one. Where
    /// none is left of several, that becomes a finding.
    pub fn conclude(
        assessment: Assessment,
        scores: &Vec<Score>,
        min_confidence: u64,
    ) -> (r: HarnessEvaluation)
        requires
            scores@.len() == assessment.drafts@.len(),
        ensures
            r.penalties == assessment.penalties,
            r.output_quality == assessment.output_quality,
            r.root_cause == assessment.root_cause,
            r.proposals.deep_view() == confident(
                assessment.drafts.deep_view(),
                scores@,
                min_confidence,
                scores@.len(),
            ),
            forall|i: int|
                0 <= i < r.proposals.deep_view().len() ==> is_grounded_proposal(
                    #[trigger] r.proposals.deep_view()[i],
                    min_confidence,
                ),
            r.findings.deep_view() == assessment.findings.deep_view() + threshold_findings(
                assessment.drafts.deep_view(),
                r.proposals.deep_view(),
            ),
    {
        let Assessment { penalties, output_quality, root_cause, mut findings, drafts } = assessment;
        let ghost model = drafts.deep_view();
        let ghost base = findings.deep_view();
        let mut proposals: Vec<LearningProposal> = Vec::new();
        let mut i: usize = 0;
        assert(proposals.deep_view() =~= Seq::empty());
        while i < drafts.len()
            invariant
                i <= drafts.len(),
                scores@.len() == drafts@.len(),
                model == drafts.deep_view(),
                proposals.deep_view() == confident(model, scores@, min_confidence, i as nat),
            decreases drafts.len() - i,
        {
            let ghost was = proposals.deep_view();
            let draft = &drafts[i];
            assert(model[i as int] == draft.deep_view());
            assert((i + 1 - 1) as nat == i as nat);
            assert(draft.deep_view().evidence_seqs.len() == draft.evidence_seqs@.len());
            if draft.evidence_seqs.len() > 0 && draft.trigger_seq.is_some() && 0
                < scores[i].confidence && scores[i].confidence <= FULL_CONFIDENCE
                && double_at_least(scores[i].confidence, min_confidence) {
                let evidence = crate::causal::replica_list(&draft.evidence_seqs);
                assert(evidence.deep_view() =~= evidence@);
                assert(draft.evidence_seqs.deep_view() =~= draft.evidence_seqs@);
                let proposal = LearningProposal {
                    description: draft.description.clone(),
                    evidence_seqs: evidence,
                    trigger_seq: draft.trigger_seq,
                    confidence: scores[i].confidence,
                    specificity: scores[i].specificity,
                };
                let ghost shown = proposal.deep_view();
                proposals.push(proposal);
                assert(proposals.deep_view() =~= was.push(shown));
            }
            i += 1;
        }
        proof {
            lemma_proposals_are_grounded(model, scores@, min_confidence, scores@.len());
        }
        if proposals.len() == 0 && drafts.len() > 0 {
            let finding = Finding {
                kind: FindingKind::InsufficientEvidence,
                seq: None,
                description: "Insufficient evidence to generate a learning proposal".to_owned(),
            };
            let ghost shown = finding.deep_view();
            findings.push(finding);
            proof {
                assert(proposals.deep_view().len() == 0);
                assert(findings.deep_view() =~= base.push(shown));
                assert(base.push(shown) =~= base + threshold_findings(
                    model,
                    proposals.deep_view(),
                ));
            }
        } else {
            assert(proposals.deep_view().len() == proposals@.len());
            assert(base =~= base + threshold_findings(model, proposals.deep_view()));
        }
        HarnessEvaluation { penalties, output_quality, root_cause, findings, proposals }
    }
}

/// The earliest of the nearest decisions of several events.
fn earliest_decision_causing(thread: &CausalThread, seqs: &Vec<u64>) -> (r: Option<u64>)
    requires
        forall|i: int|
            0 <= i < seqs@.len() ==> is_grounded(thread.deep_view(), #[trigger] seqs@[i]),
    ensures
        r == least(nearest_decisions(thread.deep_view(), seqs@)),
{
    let nearest = find_nearest_all(thread, seqs);
    find_least(&nearest)
}

proof fn lemma_filter_add(a: Seq<FindingModel>, b: Seq<FindingModel>)
    ensures
        (a + b).filter(tells_anomaly()) == a.filter(tells_anomaly()) + b.filter(tells_anomaly()),
    decreases b.len(),
{
    reveal(Seq::filter);
    if b.len() == 0 {
        assert(a + b =~= a);
        assert(a.filter(tells_anomaly()) + b.filter(tells_anomaly()) =~= a.filter(tells_anomaly()));
    } else {
        lemma_filter_add(a, b.drop_last());
        assert((a + b).drop_last() =~= a + b.drop_last());
        assert((a + b).last() == b.last());
        assert((a + b).filter(tells_anomaly()) =~= a.filter(tells_anomaly()) + b.filter(
            tells_anomaly(),
        ));
    }
}

proof fn lemma_all_anomalies(anomalies: Seq<AnomalyModel>)
    ensures
        anomaly_findings(anomalies).filter(tells_anomaly()) == anomaly_findings(anomalies),
    decreases anomalies.len(),
{
    reveal(Seq::filter);
    if anomalies.len() > 0 {
        lemma_all_anomalies(anomalies.drop_last());
        assert(anomaly_findings(anomalies).drop_last() =~= anomaly_findings(anomalies.drop_last()));
        assert(anomaly_findings(anomalies).filter(tells_anomaly()) =~= anomaly_findings(anomalies));
    } else {
        assert(anomaly_findings(anomalies).filter(tells_anomaly()) =~= anomaly_findings(anomalies));
    }
}

/// Every anomaly of the thread is told in exactly one finding, whatever else is
/// found: the number of anomalies in an evaluation is that of the thread.
pub proof fn law_anomalies_are_counted(
    thread: CausalModel,
    drafts: Seq<DraftModel>,
    proposals: Seq<ProposalModel>,
)
    ensures
        (findings_of(thread) + threshold_findings(drafts, proposals)).filter(tells_anomaly()).len()
            == thread.anomalies.len(),
{
    let first = anomaly_findings(thread.anomalies);
    let second = root_findings(thread);
    let third = evidence_findings(thread);
    let fourth = threshold_findings(drafts, proposals);
    lemma_all_anomalies(thread.anomalies);
    lemma_filter_add(first, second);
    lemma_filter_add(first + second, third);
    lemma_filter_add(findings_of(thread), fourth);
    lemma_untold(second);
    lemma_untold(third);
    lemma_untold(fourth);
}

proof fn lemma_untold(findings: Seq<FindingModel>)
    requires
        forall|i: int|
            0 <= i < findings.len() ==> !tells_anomaly()(#[trigger] findings[i]),
    ensures
        findings.filter(tells_anomaly()).len() == 0,
    decreases findings.len(),
{
    reveal(Seq::filter);
    if findings.len() > 0 {
        assert forall|i: int| 0 <= i < findings.drop_last().len() implies !tells_anomaly()(
            #[trigger] findings.drop_last()[i],
        ) by {
            assert(findings[i] == findings.drop_last()[i]);
        }
        lemma_untold(findings.drop_last());
        assert(!tells_anomaly()(findings[findings.len() - 1]));
    }
}

proof fn lemma_failed_seqs(calls: Seq<CallModel>, keep: spec_fn(CallModel) -> bool, seq: u64)
    ensures
        call_seqs(calls.filter(keep)).contains(seq) <==> exists|k: int|
            0 <= k < calls.len() && keep(#[trigger] calls[k]) && calls[k].seq == seq,
{
    lemma_filter_has(calls, keep);
    let kept = calls.filter(keep);
    let seqs = call_seqs(kept);
    if seqs.contains(seq) {
        let i = choose|i: int| 0 <= i < seqs.len() && seqs[i] == seq;
        assert(kept.contains(kept[i]));
        let k = choose|k: int| 0 <= k < calls.len() && calls[k] == kept[i];
        assert(keep(calls[k]) && calls[k].seq == seq);
    }
    if exists|k: int| 0 <= k < calls.len() && keep(#[trigger] calls[k]) && calls[k].seq == seq {
        let k = choose|k: int|
            0 <= k < calls.len() && keep(#[trigger] calls[k]) && calls[k].seq == seq;
        assert(calls.contains(calls[k]));
        assert(kept.contains(calls[k]));
        let i = choose|i: int| 0 <= i < kept.len() && kept[i] == calls[k];
        assert(seqs[i] == seq);
    }
}

proof fn lemma_strayed_seqs(
    decisions: Seq<DecisionModel>,
    keep: spec_fn(DecisionModel) -> bool,
    seq: u64,
)
    ensures
        decision_seqs(decisions.filter(keep)).contains(seq) <==> exists|k: int|
            0 <= k < decisions.len() && keep(#[trigger] decisions[k]) && decisions[k].seq == seq,
{
    lemma_filter_has(decisions, keep);
    let kept = decisions.filter(keep);
    let seqs = decision_seqs(kept);
    if seqs.contains(seq) {
        let i = choose|i: int| 0 <= i < seqs.len() && seqs[i] == seq;
        assert(kept.contains(kept[i]));
        let k = choose|k: int| 0 <= k < decisions.len() && decisions[k] == kept[i];
        assert(keep(decisions[k]) && decisions[k].seq == seq);
    }
    if exists|k: int|
        0 <= k < decisions.len() && keep(#[trigger] decisions[k]) && decisions[k].seq == seq {
        let k = choose|k: int|
            0 <= k < decisions.len() && keep(#[trigger] decisions[k]) && decisions[k].seq == seq;
        assert(decisions.contains(decisions[k]));
        assert(kept.contains(decisions[k]));
        let i = choose|i: int| 0 <= i < kept.len() && kept[i] == decisions[k];
        assert(seqs[i] == seq);
    }
}

/// The draft that answers an error loop cites the failed calls of the very tool that the
/// anomaly names: all of them, and no other event.
pub proof fn law_error_loops_cite_their_tool(
    thread: CausalModel,
    intent: Seq<char>,
    support: EpisodeSupport,
    i: int,
    seq: u64,
)
    requires
        0 <= i < thread.anomalies.len(),
        thread.anomalies[i].kind == AnomalyKind::ErrorLoop,
        thread.anomalies[i].tool is Some,
    ensures
        drafts_of(thread, intent, support).len() == thread.anomalies.len(),
        drafts_of(thread, intent, support)[i].kind == AnomalyKind::ErrorLoop,
        drafts_of(thread, intent, support)[i].evidence_seqs.contains(seq) <==> exists|k: int|
            0 <= k < thread.tool_calls.len() && (#[trigger] thread.tool_calls[k]).seq == seq
                && thread.tool_calls[k].tool == thread.anomalies[i].tool->0
                && thread.tool_calls[k].outcome is Failed,
{
    let tool = thread.anomalies[i].tool->0;
    lemma_failed_seqs(thread.tool_calls, is_failure_of(tool), seq);
    let cited = call_seqs(thread.tool_calls.filter(is_failure_of(tool))).contains(seq);
    if cited {
        let k = choose|k: int|
            0 <= k < thread.tool_calls.len() && is_failure_of(tool)(
                #[trigger] thread.tool_calls[k],
            ) && thread.tool_calls[k].seq == seq;
        assert(thread.tool_calls[k].tool == tool);
    }
    if exists|k: int|
        0 <= k < thread.tool_calls.len() && (#[trigger] thread.tool_calls[k]).seq == seq
            && thread.tool_calls[k].tool == tool && thread.tool_calls[k].outcome is Failed {
        let k = choose|k: int|
            0 <= k < thread.tool_calls.len() && (#[trigger] thread.tool_calls[k]).seq == seq
                && thread.tool_calls[k].tool == tool && thread.tool_calls[k].outcome is Failed;
        assert(is_failure_of(tool)(thread.tool_calls[k]));
    }
}

/// A call of another tool, and one that did not fail, do not change what the draft for an
/// error loop cites: that depends on the failed calls of its tool alone.
pub proof fn law_other_tools_are_no_evidence(
    thread: CausalModel,
    call: CallModel,
    intent: Seq<char>,
    support: EpisodeSupport,
    i: int,
)
    requires
        0 <= i < thread.anomalies.len(),
        thread.anomalies[i].kind == AnomalyKind::ErrorLoop,
        thread.anomalies[i].tool is Some,
        call.tool != thread.anomalies[i].tool->0 || !(call.outcome is Failed),
    ensures
        drafts_of(
            CausalModel { tool_calls: thread.tool_calls.push(call), ..thread },
            intent,
            support,
        )[i].evidence_seqs == drafts_of(thread, intent, support)[i].evidence_seqs,
{
    let tool = thread.anomalies[i].tool->0;
    lemma_filter_push(thread.tool_calls, call, is_failure_of(tool));
}

/// The draft that answers a drift cites the decisions whose description does not hold the
/// intent, whatever the letter case; without an intent it cites nothing. The earliest of
/// them set it off.
pub proof fn law_drift_cites_stray_decisions(
    thread: CausalModel,
    intent: Seq<char>,
    support: EpisodeSupport,
    i: int,
    seq: u64,
)
    requires
        0 <= i < thread.anomalies.len(),
        thread.anomalies[i].kind == AnomalyKind::ObjectiveDrift,
    ensures
        ({
            let draft = drafts_of(thread, intent, support)[i];
            &&& draft.kind == AnomalyKind::ObjectiveDrift
            &&& draft.evidence_seqs.contains(seq) <==> intent.len() > 0 && exists|k: int|
                0 <= k < thread.decisions.len() && (#[trigger] thread.decisions[k]).seq == seq
                    && !text_has(lowercase(thread.decisions[k].description), lowercase(intent))
            &&& draft.evidence_seqs.contains(seq) ==> draft.trigger_seq is Some
                && draft.trigger_seq->0 <= seq
            &&& draft.trigger_seq matches Some(first) ==> draft.evidence_seqs.contains(first)
        }),
{
    let evidence = decision_seqs(thread.decisions.filter(strays_from(intent)));
    lemma_strayed_seqs(thread.decisions, strays_from(intent), seq);
    lemma_least(evidence, seq);
    if evidence.contains(seq) {
        let k = choose|k: int|
            0 <= k < thread.decisions.len() && strays_from(intent)(
                #[trigger] thread.decisions[k],
            ) && thread.decisions[k].seq == seq;
        assert(thread.decisions[k].seq == seq);
    }
    if intent.len() > 0 && exists|k: int|
        0 <= k < thread.decisions.len() && (#[trigger] thread.decisions[k]).seq == seq && !text_has(
            lowercase(thread.decisions[k].description),
            lowercase(intent),
        ) {
        let k = choose|k: int|
            0 <= k < thread.decisions.len() && (#[trigger] thread.decisions[k]).seq == seq
                && !text_has(lowercase(thread.decisions[k].description), lowercase(intent));
        assert(strays_from(intent)(thread.decisions[k]));
    }
}

proof fn lemma_least(seqs: Seq<u64>, seq: u64)
    ensures
        seqs.contains(seq) ==> least(seqs) is Some && least(seqs)->0 <= seq,
        least(seqs) matches Some(first) ==> seqs.contains(first),
    decreases seqs.len(),
{
    if seqs.len() > 0 {
        let rest = seqs.drop_last();
        lemma_least(rest, seq);
        assert(seqs[seqs.len() - 1] == seqs.last());
        if seqs.contains(seq) && seq != seqs.last() {
            let i = choose|i: int| 0 <= i < seqs.len() && seqs[i] == seq;
            assert(rest[i] == seq);
        }
        if least(rest) is Some {
            let first = least(rest)->0;
            let i = choose|i: int| 0 <= i < rest.len() && rest[i] == first;
            assert(seqs[i] == first);
        }
    }
}

proof fn lemma_decided_at(decisions: Seq<DecisionModel>, seq: u64)
    ensures
        match decided_at(decisions, seq) {
            Some(decision) => decision.seq == seq && decisions.contains(decision),
            None => forall|k: int| 0 <= k < decisions.len() ==> (#[trigger] decisions[k]).seq != seq,
        },
    decreases decisions.len(),
{
    if decisions.len() > 0 {
        let rest = decisions.drop_last();
        lemma_decided_at(rest, seq);
        if decisions.last().seq == seq {
            assert(decisions[decisions.len() - 1] == decisions.last());
        } else if let Some(decision) = decided_at(rest, seq) {
            let k = choose|k: int| 0 <= k < rest.len() && rest[k] == decision;
            assert(decisions[k] == decision);
        } else {
            assert forall|k: int| 0 <= k < decisions.len() implies (#[trigger] decisions[k]).seq
                != seq by {
                if k < rest.len() {
                    assert(rest[k] == decisions[k]);
                }
            }
        }
    }
}

proof fn lemma_cause_recorded(thread: CausalModel, seq: u64, cause: u64)
    requires
        is_numbered(thread),
    ensures
        cause_in(thread, seq) == Some(cause) <==> records_cause(thread, seq, cause),
{
    lemma_decided_at(thread.decisions, seq);
    lemma_call_found(thread.tool_calls, seq);
    if let Some(call) = call_at(thread.tool_calls, seq) {
        let k = choose|k: int| 0 <= k < thread.tool_calls.len() && thread.tool_calls[k] == call;
        assert(thread.tool_calls[k].seq == seq);
        if let Some(decision) = decided_at(thread.decisions, seq) {
            let d = choose|d: int| 0 <= d < thread.decisions.len() && thread.decisions[d] == decision;
            assert(thread.decisions[d].seq == thread.tool_calls[k].seq);
        }
    }
    if let Some(decision) = decided_at(thread.decisions, seq) {
        let d = choose|d: int| 0 <= d < thread.decisions.len() && thread.decisions[d] == decision;
        assert(thread.decisions[d].seq == seq);
    }
}

proof fn lemma_steps_are_trails(thread: CausalModel, seq: u64, n: nat)
    requires
        is_numbered(thread),
        steps_back(thread, seq, n) is Some,
    ensures
        traces_to(thread, seq, steps_back(thread, seq, n)->0),
    decreases n,
{
    if n == 0 {
        lemma_traces_to_itself(thread, seq);
    } else {
        lemma_steps_are_trails(thread, seq, (n - 1) as nat);
        let at = steps_back(thread, seq, (n - 1) as nat)->0;
        let cause = steps_back(thread, seq, n)->0;
        lemma_cause_recorded(thread, at, cause);
        lemma_trail_goes_on(thread, seq, at, cause);
    }
}

proof fn lemma_trails_are_steps(thread: CausalModel, trail: Seq<u64>, n: nat)
    requires
        is_numbered(thread),
        is_trail(thread, trail),
        n < trail.len(),
    ensures
        steps_back(thread, trail[0], n) == Some(trail[n as int]),
    decreases n,
{
    if n > 0 {
        lemma_trails_are_steps(thread, trail, (n - 1) as nat);
        assert(records_cause(thread, trail[n - 1], trail[n as int]));
        lemma_cause_recorded(thread, trail[n - 1], trail[n as int]);
    }
}

/// The decision is the earliest of those that the trails of recorded causes from an event
/// lead to.
pub open spec fn starts_from(thread: CausalModel, seq: u64, decision: u64) -> bool {
    &&& is_decision(thread, decision)
    &&& traces_to(thread, seq, decision)
    &&& forall|other: u64| #[trigger]
        traces_to(thread, seq, other) && is_decision(thread, other) ==> decision <= other
}

proof fn lemma_chain_is_trail(thread: CausalModel, seq: u64, decision: u64)
    requires
        is_numbered(thread),
    ensures
        is_in_chain(thread, seq, decision) <==> is_decision(thread, decision) && traces_to(
            thread,
            seq,
            decision,
        ),
{
    lemma_decided_at(thread.decisions, decision);
    if let Some(node) = decided_at(thread.decisions, decision) {
        let k = choose|k: int| 0 <= k < thread.decisions.len() && thread.decisions[k] == node;
        assert(thread.decisions[k].seq == decision);
    }
    if goes_back_to(thread, seq, decision) {
        let n = choose|n: nat| #[trigger] steps_back(thread, seq, n) == Some(decision);
        lemma_steps_are_trails(thread, seq, n);
    }
    if traces_to(thread, seq, decision) {
        let trail = choose|trail: Seq<u64>| #[trigger]
            is_trail(thread, trail) && trail[0] == seq && trail.last() == decision;
        lemma_trails_are_steps(thread, trail, (trail.len() - 1) as nat);
        assert(steps_back(thread, seq, (trail.len() - 1) as nat) == Some(decision));
    }
}

proof fn lemma_origin_is_start(thread: CausalModel, seq: u64, decision: u64)
    requires
        is_numbered(thread),
    ensures
        origin_of(thread, seq) == Some(decision) <==> starts_from(thread, seq, decision),
{
    assert forall|other: u64| #[trigger]
        is_in_chain(thread, seq, other) <==> is_decision(thread, other) && traces_to(
        thread,
        seq,
        other,
    ) by {
        lemma_chain_is_trail(thread, seq, other);
    }
    if starts_from(thread, seq, decision) {
        assert(is_in_chain(thread, seq, decision));
        assert forall|other: u64| #[trigger] is_in_chain(thread, seq, other) implies decision
            <= other by {
            assert(traces_to(thread, seq, other) && is_decision(thread, other));
        }
        assert(is_origin(thread, seq, decision));
        lemma_has_origin(thread, seq);
        let origin = origin_of(thread, seq)->0;
        assert(is_in_chain(thread, seq, origin));
    }
    if origin_of(thread, seq) == Some(decision) {
        lemma_has_origin(thread, seq);
        assert(is_in_chain(thread, seq, decision));
        assert forall|other: u64| #[trigger]
            traces_to(thread, seq, other) && is_decision(thread, other) implies decision
            <= other by {
            assert(is_in_chain(thread, seq, other));
        }
    }
}

/// The failed calls that start from a decision.
pub open spec fn failures_from(thread: CausalModel, decision: u64) -> Seq<CallModel> {
    thread.tool_calls.filter(
        |call: CallModel| call.outcome is Failed && starts_from(thread, call.seq, decision),
    )
}

proof fn lemma_roots_counted(thread: CausalModel, calls: Seq<CallModel>, decision: u64)
    requires
        is_numbered(thread),
    ensures
        occurrences(origins_of(thread, call_seqs(calls.filter(is_failure()))), decision)
            == calls.filter(
            |call: CallModel| call.outcome is Failed && starts_from(thread, call.seq, decision),
        ).len(),
    decreases calls.len(),
{
    let keep = |call: CallModel|
        call.outcome is Failed && starts_from(thread, call.seq, decision);
    reveal(Seq::filter);
    if calls.len() > 0 {
        let rest = calls.drop_last();
        let last = calls.last();
        lemma_roots_counted(thread, rest, decision);
        assert(calls =~= rest.push(last));
        lemma_filter_push(rest, last, is_failure());
        lemma_filter_push(rest, last, keep);
        if last.outcome is Failed {
            let before = call_seqs(rest.filter(is_failure()));
            let now = call_seqs(calls.filter(is_failure()));
            assert(now =~= before.push(last.seq));
            assert(now.drop_last() =~= before);
            lemma_origin_is_start(thread, last.seq, decision);
            if let Some(origin) = origin_of(thread, last.seq) {
                lemma_occurrences_push(origins_of(thread, before), origin, decision);
            }
        }
    } else {
        assert(call_seqs(calls.filter(is_failure())) =~= Seq::empty());
    }
}

/// The root cause is the decision from which most failed calls start: the earliest one
/// where several do for equally many. There is one exactly if some failed call traces to a
/// decision at all.
pub proof fn law_root_cause_explains_most_failures(thread: CausalModel)
    requires
        is_numbered(thread),
    ensures
        match root_cause_of(thread) {
            Some(cause) => {
                &&& failures_from(thread, cause.seq).len() > 0
                &&& forall|other: u64|
                    (#[trigger] failures_from(thread, other)).len() < failures_from(
                        thread,
                        cause.seq,
                    ).len() || (failures_from(thread, other).len() == failures_from(
                        thread,
                        cause.seq,
                    ).len() && cause.seq <= other)
                &&& exists|k: int|
                    0 <= k < thread.decisions.len() && (#[trigger] thread.decisions[k]).seq
                        == cause.seq && thread.decisions[k].agent == cause.agent
            },
            None => forall|k: int, decision: u64|
                0 <= k < thread.tool_calls.len() && thread.tool_calls[k].outcome is Failed
                    && is_decision(thread, decision) ==> !#[trigger] traces_to(
                    thread,
                    thread.tool_calls[k].seq,
                    decision,
                ),
        },
{
    let roots = failure_roots(thread);
    law_root_cause_is_earliest(thread);
    match root_cause_of(thread) {
        Some(cause) => {
            let best = lemma_best_among(roots, roots.len() as int);
            assert forall|other: u64| #[trigger] roots.contains(other) implies outweighs(
                roots,
                best,
                other,
            ) by {
                let j = choose|j: int| 0 <= j < roots.len() && roots[j] == other;
                assert(outweighs(roots, best, roots[j]));
            }
            assert(is_main_root(roots, best));
            lemma_main_root(roots, best);
            lemma_roots_counted(thread, thread.tool_calls, best);
            lemma_occurrences_absent(roots, best);
            assert forall|other: u64|
                (#[trigger] failures_from(thread, other)).len() < failures_from(thread, best).len()
                    || (failures_from(thread, other).len() == failures_from(thread, best).len()
                    && best <= other) by {
                lemma_roots_counted(thread, thread.tool_calls, other);
                lemma_occurrences_absent(roots, other);
            }
            let i = choose|i: int|
                0 <= i < thread.tool_calls.len() && (#[trigger] thread.tool_calls[i]).outcome is Failed
                    && is_origin(thread, thread.tool_calls[i].seq, cause.seq);
            assert(is_in_chain(thread, thread.tool_calls[i].seq, cause.seq));
            lemma_decided_at(thread.decisions, cause.seq);
            let node = decided_at(thread.decisions, cause.seq)->0;
            let k = choose|k: int| 0 <= k < thread.decisions.len() && thread.decisions[k] == node;
            assert(thread.decisions[k].seq == cause.seq);
        },
        None => {
            assert forall|k: int, decision: u64|
                0 <= k < thread.tool_calls.len() && thread.tool_calls[k].outcome is Failed
                    && is_decision(thread, decision) implies !#[trigger] traces_to(
                thread,
                thread.tool_calls[k].seq,
                decision,
            ) by {
                lemma_chain_is_trail(thread, thread.tool_calls[k].seq, decision);
                assert(!is_in_chain(thread, thread.tool_calls[k].seq, decision));
            }
        },
    }
}

/// A trail of recorded causes leads from the event to the decision without meeting another
/// decision on the way.
pub open spec fn first_leads_to(thread: CausalModel, seq: u64, decision: u64) -> bool {
    exists|trail: Seq<u64>|
        {
            &&& #[trigger] is_trail(thread, trail)
            &&& trail[0] == seq
            &&& trail.last() == decision
            &&& is_decision(thread, decision)
            &&& forall|i: int|
                0 <= i < trail.len() - 1 ==> !is_decision(thread, #[trigger] trail[i])
        }
}

proof fn lemma_is_decided(thread: CausalModel, seq: u64)
    ensures
        decided_at(thread.decisions, seq) is Some <==> is_decision(thread, seq),
{
    lemma_decided_at(thread.decisions, seq);
    if let Some(node) = decided_at(thread.decisions, seq) {
        let k = choose|k: int| 0 <= k < thread.decisions.len() && thread.decisions[k] == node;
        assert(thread.decisions[k].seq == seq);
    }
}

proof fn lemma_end_has_trail(thread: CausalModel, seq: u64, n: nat, decision: u64)
    requires
        is_numbered(thread),
        leads_to(thread, seq, n, Some(decision)),
    ensures
        first_leads_to(thread, seq, decision),
    decreases n,
{
    lemma_is_decided(thread, seq);
    if decided_at(thread.decisions, seq) is Some {
        let trail = seq![seq];
        assert(is_trail(thread, trail));
        assert(trail[0] == seq && trail.last() == decision);
    } else {
        let cause = call_cause(thread, seq)->0;
        lemma_cause_recorded(thread, seq, cause);
        lemma_end_has_trail(thread, cause, (n - 1) as nat, decision);
        let rest = choose|trail: Seq<u64>|
            {
                &&& #[trigger] is_trail(thread, trail)
                &&& trail[0] == cause
                &&& trail.last() == decision
                &&& is_decision(thread, decision)
                &&& forall|i: int|
                    0 <= i < trail.len() - 1 ==> !is_decision(thread, #[trigger] trail[i])
            };
        let trail = seq![seq] + rest;
        assert forall|i: int, j: int| 0 <= i && j == i + 1 && j < trail.len() implies records_cause(
            thread,
            #[trigger] trail[i],
            #[trigger] trail[j],
        ) by {
            assert(trail[j] == rest[j - 1]);
            if i > 0 {
                assert(trail[i] == rest[i - 1]);
                assert(records_cause(thread, rest[i - 1], rest[j - 1]));
            }
        }
        assert forall|i: int| 0 <= i < trail.len() - 1 implies !is_decision(
            thread,
            #[trigger] trail[i],
        ) by {
            if i > 0 {
                assert(trail[i] == rest[i - 1]);
            }
        }
        assert(is_trail(thread, trail));
        assert(trail[0] == seq && trail.last() == decision);
    }
}

proof fn lemma_trail_has_end(thread: CausalModel, trail: Seq<u64>)
    requires
        is_numbered(thread),
        is_trail(thread, trail),
        is_decision(thread, trail.last()),
        forall|i: int| 0 <= i < trail.len() - 1 ==> !is_decision(thread, #[trigger] trail[i]),
    ensures
        leads_to(thread, trail[0], (trail.len() - 1) as nat, Some(trail.last())),
    decreases trail.len(),
{
    lemma_is_decided(thread, trail[0]);
    if trail.len() > 1 {
        let rest = trail.drop_first();
        assert(records_cause(thread, trail[0], trail[1]));
        lemma_cause_recorded(thread, trail[0], trail[1]);
        assert forall|i: int, j: int| 0 <= i && j == i + 1 && j < rest.len() implies records_cause(
            thread,
            #[trigger] rest[i],
            #[trigger] rest[j],
        ) by {
            assert(records_cause(thread, trail[i + 1], trail[j + 1]));
        }
        assert forall|i: int| 0 <= i < rest.len() - 1 implies !is_decision(
            thread,
            #[trigger] rest[i],
        ) by {
            assert(!is_decision(thread, trail[i + 1]));
        }
        lemma_trail_has_end(thread, rest);
        assert(rest[0] == trail[1]);
    } else {
        assert(trail[0] == trail.last());
    }
}

proof fn lemma_nearest_is_first(thread: CausalModel, seq: u64, decision: u64)
    requires
        is_numbered(thread),
        is_grounded(thread, seq),
    ensures
        nearest_decision(thread, seq) == Some(decision) <==> first_leads_to(thread, seq, decision),
{
    let (n, root) = choose|n: nat, root: Option<u64>| #[trigger] leads_to(thread, seq, n, root);
    lemma_nearest(thread, seq, n, root);
    if root == Some(decision) {
        lemma_end_has_trail(thread, seq, n, decision);
    }
    if first_leads_to(thread, seq, decision) {
        let trail = choose|trail: Seq<u64>|
            {
                &&& #[trigger] is_trail(thread, trail)
                &&& trail[0] == seq
                &&& trail.last() == decision
                &&& is_decision(thread, decision)
                &&& forall|i: int|
                    0 <= i < trail.len() - 1 ==> !is_decision(thread, #[trigger] trail[i])
            };
        lemma_trail_has_end(thread, trail);
        lemma_nearest(thread, seq, (trail.len() - 1) as nat, Some(decision));
    }
}

proof fn lemma_nearest_among(thread: CausalModel, seqs: Seq<u64>, decision: u64)
    ensures
        nearest_decisions(thread, seqs).contains(decision) <==> exists|j: int|
            0 <= j < seqs.len() && nearest_decision(thread, #[trigger] seqs[j]) == Some(decision),
    decreases seqs.len(),
{
    if seqs.len() > 0 {
        let rest = seqs.drop_last();
        let before = nearest_decisions(thread, rest);
        let all = nearest_decisions(thread, seqs);
        lemma_nearest_among(thread, rest, decision);
        if all.contains(decision) {
            let k = choose|k: int| 0 <= k < all.len() && all[k] == decision;
            if k < before.len() {
                assert(before[k] == decision);
                let j = choose|j: int|
                    0 <= j < rest.len() && nearest_decision(thread, #[trigger] rest[j]) == Some(
                        decision,
                    );
                assert(nearest_decision(thread, seqs[j]) == Some(decision));
            } else {
                assert(nearest_decision(thread, seqs[seqs.len() - 1]) == Some(decision));
            }
        }
        if exists|j: int|
            0 <= j < seqs.len() && nearest_decision(thread, #[trigger] seqs[j]) == Some(decision) {
            let j = choose|j: int|
                0 <= j < seqs.len() && nearest_decision(thread, #[trigger] seqs[j]) == Some(
                    decision,
                );
            if j < rest.len() {
                assert(nearest_decision(thread, rest[j]) == Some(decision));
                let k = choose|k: int| 0 <= k < before.len() && before[k] == decision;
                assert(all[k] == decision);
            } else {
                assert(all[before.len() as int] == decision);
            }
        }
    }
}

/// What set off an error loop is a decision that caused one of the failures that the draft
/// cites, with no decision in between, and the earliest of all such decisions.
pub proof fn law_error_loops_name_their_trigger(
    thread: CausalModel,
    intent: Seq<char>,
    support: EpisodeSupport,
    i: int,
)
    requires
        is_numbered(thread),
        failures_grounded(thread),
        0 <= i < thread.anomalies.len(),
        thread.anomalies[i].kind == AnomalyKind::ErrorLoop,
        thread.anomalies[i].tool is Some,
    ensures
        ({
            let draft = drafts_of(thread, intent, support)[i];
            &&& draft.trigger_seq matches Some(first) ==> exists|j: int|
                0 <= j < draft.evidence_seqs.len() && first_leads_to(
                    thread,
                    #[trigger] draft.evidence_seqs[j],
                    first,
                )
            &&& forall|j: int, decision: u64|
                0 <= j < draft.evidence_seqs.len() && #[trigger] first_leads_to(
                    thread,
                    draft.evidence_seqs[j],
                    decision,
                ) ==> draft.trigger_seq is Some && draft.trigger_seq->0 <= decision
        }),
{
    let tool = thread.anomalies[i].tool->0;
    let draft = drafts_of(thread, intent, support)[i];
    let evidence = call_seqs(thread.tool_calls.filter(is_failure_of(tool)));
    let nearest = nearest_decisions(thread, evidence);
    assert(draft.evidence_seqs == evidence);
    lemma_failures_grounded(thread, is_failure_of(tool));
    if let Some(first) = draft.trigger_seq {
        lemma_least(nearest, first);
        lemma_nearest_among(thread, evidence, first);
        let j = choose|j: int|
            0 <= j < evidence.len() && nearest_decision(thread, #[trigger] evidence[j]) == Some(
                first,
            );
        lemma_nearest_is_first(thread, evidence[j], first);
        assert(first_leads_to(thread, draft.evidence_seqs[j], first));
    }
    assert forall|j: int, decision: u64|
        0 <= j < draft.evidence_seqs.len() && #[trigger] first_leads_to(
            thread,
            draft.evidence_seqs[j],
            decision,
        ) implies draft.trigger_seq is Some && draft.trigger_seq->0 <= decision by {
        lemma_nearest_is_first(thread, evidence[j], decision);
        assert(nearest_decision(thread, evidence[j]) == Some(decision));
        lemma_nearest_among(thread, evidence, decision);
        lemma_least(nearest, decision);
    }
}

/// A draft can be proposed under a score: it cites evidence and the decision behind it, and
/// its confidence is a number above zero and at most one that is not below the threshold.
pub open spec fn is_worth_proposing(draft: DraftModel, score: Score, min_confidence: u64) -> bool {
    &&& draft.evidence_seqs.len() > 0
    &&& draft.trigger_seq is Some
    &&& 0 < score.confidence <= 0x3ff0_0000_0000_0000
    &&& !double_nan(min_confidence)
    &&& double_rank(score.confidence) >= double_rank(min_confidence)
}

/// The proposals are the drafts worth proposing, all of them, in their order, each with its
/// own words, evidence and score.
pub proof fn law_proposals_are_the_drafts_worth_proposing(
    drafts: Seq<DraftModel>,
    scores: Seq<Score>,
    min_confidence: u64,
)
    requires
        scores.len() == drafts.len(),
    ensures
        ({
            let places = Seq::new(drafts.len(), |i: int| i).filter(
                |i: int| is_worth_proposing(drafts[i], scores[i], min_confidence),
            );
            let proposals = confident(drafts, scores, min_confidence, scores.len());
            &&& proposals.len() == places.len()
            &&& forall|k: int|
                #![trigger proposals[k]]
                0 <= k < places.len() ==> {
                    &&& proposals[k].description == drafts[places[k]].description
                    &&& proposals[k].evidence_seqs == drafts[places[k]].evidence_seqs
                    &&& proposals[k].trigger_seq == drafts[places[k]].trigger_seq
                    &&& proposals[k].confidence == scores[places[k]].confidence
                    &&& proposals[k].specificity == scores[places[k]].specificity
                }
        }),
{
    lemma_proposals_kept(drafts, scores, min_confidence, scores.len());
}

proof fn lemma_proposals_kept(
    drafts: Seq<DraftModel>,
    scores: Seq<Score>,
    min_confidence: u64,
    n: nat,
)
    requires
        scores.len() == drafts.len(),
        n <= drafts.len(),
    ensures
        ({
            let places = Seq::new(n, |i: int| i).filter(
                |i: int| is_worth_proposing(drafts[i], scores[i], min_confidence),
            );
            let proposals = confident(drafts, scores, min_confidence, n);
            &&& proposals.len() == places.len()
            &&& forall|k: int|
                #![trigger proposals[k]]
                0 <= k < places.len() ==> {
                    &&& proposals[k].description == drafts[places[k]].description
                    &&& proposals[k].evidence_seqs == drafts[places[k]].evidence_seqs
                    &&& proposals[k].trigger_seq == drafts[places[k]].trigger_seq
                    &&& proposals[k].confidence == scores[places[k]].confidence
                    &&& proposals[k].specificity == scores[places[k]].specificity
                }
        }),
    decreases n,
{
    let keep = |i: int| is_worth_proposing(drafts[i], scores[i], min_confidence);
    reveal(Seq::filter);
    if n > 0 {
        lemma_proposals_kept(drafts, scores, min_confidence, (n - 1) as nat);
        let before = Seq::new((n - 1) as nat, |i: int| i);
        assert(Seq::new(n, |i: int| i) =~= before.push(n - 1));
        lemma_filter_push(before, n - 1, keep);
    }
}

/// Each anomaly costs its repetitions, at most five for an error loop and ten for a drift.
/// It is told in the finding at its place, which names the intent that a drift left.
pub proof fn law_anomalies_are_told(thread: CausalModel, i: int)
    requires
        0 <= i < thread.anomalies.len(),
    ensures
        ({
            let anomaly = thread.anomalies[i];
            let penalty = penalties_of(thread.anomalies)[i];
            let finding = findings_of(thread)[i];
            &&& penalties_of(thread.anomalies).len() == thread.anomalies.len()
            &&& penalty.kind == anomaly.kind
            &&& anomaly.kind == AnomalyKind::ErrorLoop ==> {
                &&& penalty.times == vstd::math::min(anomaly.repetitions as int, 5)
                &&& finding.kind == FindingKind::InefficientLoop
                &&& finding.seq is None
            }
            &&& anomaly.kind == AnomalyKind::ObjectiveDrift ==> {
                &&& penalty.times == vstd::math::min(anomaly.repetitions as int, 10)
                &&& finding.kind == FindingKind::ObjectiveDrift
                &&& finding.seq == anomaly.original_intent_seq
            }
        }),
{
}

/// Beside the anomalies, a finding tells the root cause exactly if there is one, with its
/// sequence number, and one says that failures are not enough evidence exactly if some call
/// failed and nothing was anomalous.
pub proof fn law_other_findings_are_told(thread: CausalModel)
    ensures
        ({
            let rest = findings_of(thread).skip(thread.anomalies.len() as int);
            let failed = exists|k: int|
                0 <= k < thread.tool_calls.len() && (#[trigger] thread.tool_calls[k]).outcome is Failed;
            let unexplained = failed && thread.anomalies.len() == 0;
            &&& root_cause_of(thread) matches Some(cause) ==> rest.len() > 0 && rest[0].kind
                == FindingKind::RootCause && rest[0].seq == Some(cause.seq)
            &&& rest.len() == (if root_cause_of(thread) is Some {
                1int
            } else {
                0int
            }) + (if unexplained {
                1int
            } else {
                0int
            })
            &&& unexplained ==> rest.last().kind == FindingKind::InsufficientEvidence
                && rest.last().seq is None
        }),
{
    lemma_filter_has(thread.tool_calls, is_failure());
    let failures = thread.tool_calls.filter(is_failure());
    let rest = findings_of(thread).skip(thread.anomalies.len() as int);
    assert(rest =~= root_findings(thread) + evidence_findings(thread));
    if failures.len() > 0 {
        assert(failures.contains(failures[0]));
        let k = choose|k: int|
            0 <= k < thread.tool_calls.len() && thread.tool_calls[k] == failures[0];
        assert(thread.tool_calls[k].outcome is Failed);
    }
    if exists|k: int|
        0 <= k < thread.tool_calls.len() && (#[trigger] thread.tool_calls[k]).outcome is Failed {
        let k = choose|k: int|
            0 <= k < thread.tool_calls.len() && (#[trigger] thread.tool_calls[k]).outcome is Failed;
        assert(thread.tool_calls.contains(thread.tool_calls[k]));
        assert(failures.contains(thread.tool_calls[k]));
    }
}

/// The state of the task tells of a success where its lower-case JSON text holds one of the
/// words of success, else of a failure where it holds a word of failure, else nothing.
pub proof fn law_output_quality_is_read_off_the_state(state: Option<JsonModel>)
    ensures
        state is None ==> output_of(state) == OutputQuality::Unknown,
        state matches Some(payload) ==> {
            let text = lowercase(json_text(payload));
            let succeeded = exists|word: Seq<char>| #[trigger]
                text_has(text, word) && (word == "success"@ || word == "done"@ || word == "ok"@);
            let failed = exists|word: Seq<char>| #[trigger]
                text_has(text, word) && (word == "error"@ || word == "fail"@);
            &&& output_of(state) == OutputQuality::Success <==> succeeded
            &&& output_of(state) == OutputQuality::Failure <==> failed && !succeeded
        },
{
    if let Some(payload) = state {
        let text = lowercase(json_text(payload));
        assert(text_has(text, "success"@) || !text_has(text, "success"@));
        assert(text_has(text, "done"@) || !text_has(text, "done"@));
        assert(text_has(text, "ok"@) || !text_has(text, "ok"@));
        assert(text_has(text, "error"@) || !text_has(text, "error"@));
        assert(text_has(text, "fail"@) || !text_has(text, "fail"@));
    }
}

/// Past episodes support a proposal only where there are some, and show a resolution
/// exactly if what they decided, in lower case, speaks of a check or of something resolved.
pub proof fn law_support_is_read_off_the_episodes(episodes: Seq<CausalModel>)
    ensures
        support_of(episodes) == EpisodeSupport::Absent <==> episodes.len() == 0,
        ({
            let told = Seq::new(
                episodes.len(),
                |i: int|
                    joined(
                        Seq::new(
                            episodes[i].decisions.len(),
                            |k: int| episodes[i].decisions[k].description,
                        ),
                        " "@,
                    ),
            );
            let text = lowercase(joined(told, " "@));
            support_of(episodes) == EpisodeSupport::Resolved <==> episodes.len() > 0 && (text_has(
                text,
                "check"@,
            ) || text_has(text, "resuelto"@) || text_has(text, "addnullcheck"@))
        }),
{
    let told = Seq::new(
        episodes.len(),
        |i: int|
            joined(
                Seq::new(
                    episodes[i].decisions.len(),
                    |k: int| episodes[i].decisions[k].description,
                ),
                " "@,
            ),
    );
    let stated = Seq::new(
        episodes.len(),
        |i: int| joined(descriptions(episodes[i].decisions), " "@),
    );
    assert forall|i: int| 0 <= i < episodes.len() implies told[i] == stated[i] by {
        assert(Seq::new(
            episodes[i].decisions.len(),
            |k: int| episodes[i].decisions[k].description,
        ) =~= descriptions(episodes[i].decisions));
    }
    assert(told =~= stated);
}

/// A draft tells how past episodes support it, and its words name the tool of an error loop.
pub proof fn law_drafts_tell_their_support(
    thread: CausalModel,
    intent: Seq<char>,
    support: EpisodeSupport,
    i: int,
)
    requires
        0 <= i < thread.anomalies.len(),
    ensures
        drafts_of(thread, intent, support)[i].support == support,
        drafts_of(thread, intent, support)[i].kind == thread.anomalies[i].kind,
        thread.anomalies[i].kind == AnomalyKind::ErrorLoop && thread.anomalies[i].tool is Some
            ==> text_has(
            drafts_of(thread, intent, support)[i].description,
            thread.anomalies[i].tool->0,
        ),
{
    let draft = drafts_of(thread, intent, support)[i];
    if thread.anomalies[i].kind == AnomalyKind::ErrorLoop && thread.anomalies[i].tool is Some {
        let tool = thread.anomalies[i].tool->0;
        let head = "Add pre-checks before calling tool '"@;
        assert(draft.description.subrange(head.len() as int, head.len() as int + tool.len()) =~= tool);
        assert(text_at(draft.description, tool, head.len() as int));
    }
}

/// Evidence is cited once for every event, in the order of the thread: for an error loop the
/// failed calls of its tool, for a drift the decisions that do not speak of the intent.
pub proof fn law_evidence_is_cited_in_order(
    thread: CausalModel,
    intent: Seq<char>,
    support: EpisodeSupport,
    i: int,
)
    requires
        0 <= i < thread.anomalies.len(),
    ensures
        ({
            let draft = drafts_of(thread, intent, support)[i];
            &&& thread.anomalies[i].kind == AnomalyKind::ErrorLoop && thread.anomalies[i].tool is Some
                ==> {
                let tool = thread.anomalies[i].tool->0;
                let failed = thread.tool_calls.filter(
                    |call: CallModel| call.tool == tool && call.outcome is Failed,
                );
                &&& draft.evidence_seqs.len() == failed.len()
                &&& forall|k: int|
                    0 <= k < failed.len() ==> #[trigger] draft.evidence_seqs[k] == failed[k].seq
            }
            &&& thread.anomalies[i].kind == AnomalyKind::ObjectiveDrift && intent.len() > 0 ==> {
                let strayed = thread.decisions.filter(
                    |decision: DecisionModel|
                        !text_has(lowercase(decision.description), lowercase(intent)),
                );
                &&& draft.evidence_seqs.len() == strayed.len()
                &&& forall|k: int|
                    0 <= k < strayed.len() ==> #[trigger] draft.evidence_seqs[k] == strayed[k].seq
            }
        }),
{
    let anomaly = thread.anomalies[i];
    if anomaly.kind == AnomalyKind::ErrorLoop && anomaly.tool is Some {
        let tool = anomaly.tool->0;
        lemma_same_calls(
            thread.tool_calls,
            is_failure_of(tool),
            |call: CallModel| call.tool == tool && call.outcome is Failed,
        );
    }
    if anomaly.kind == AnomalyKind::ObjectiveDrift && intent.len() > 0 {
        lemma_same_decisions(
            thread.decisions,
            strays_from(intent),
            |decision: DecisionModel|
                !text_has(lowercase(decision.description), lowercase(intent)),
        );
    }
}

proof fn lemma_same_calls(
    calls: Seq<CallModel>,
    a: spec_fn(CallModel) -> bool,
    b: spec_fn(CallModel) -> bool,
)
    requires
        forall|call: CallModel| #[trigger] a(call) == b(call),
    ensures
        calls.filter(a) == calls.filter(b),
    decreases calls.len(),
{
    reveal(Seq::filter);
    if calls.len() > 0 {
        lemma_same_calls(calls.drop_last(), a, b);
        assert(a(calls.last()) == b(calls.last()));
    }
}

proof fn lemma_same_decisions(
    decisions: Seq<DecisionModel>,
    a: spec_fn(DecisionModel) -> bool,
    b: spec_fn(DecisionModel) -> bool,
)
    requires
        forall|decision: DecisionModel| #[trigger] a(decision) == b(decision),
    ensures
        decisions.filter(a) == decisions.filter(b),
    decreases decisions.len(),
{
    reveal(Seq::filter);
    if decisions.len() > 0 {
        lemma_same_decisions(decisions.drop_last(), a, b);
        assert(a(decisions.last()) == b(decisions.last()));
    }
}

} // verus!
