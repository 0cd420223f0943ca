//! Adaptive causal context window for agent prompts.

use crate::causal::{
    is_numbered, is_trail, lemma_traces_to_itself, records_cause, replica_list, traces_to, Anomaly,
    AnomalyKind, AnomalyModel, CallModel, CausalModel, CausalThread, DecisionModel, DecisionNode,
    ToolCallNode,
};
use crate::bits::{is_below, reaches, single_below, single_nan, single_reaches};
use crate::index::types::{
    FilterModel, Hit, HitModel, HybridQuery, QueryModel, ScalarFilter,
};
use crate::lists::{lemma_filter_has, lemma_filter_push};
use crate::sorted::{
    lemma_ascending_at, lemma_finite_rows, lemma_map_of_domain, rows_of, Replica, SortedMap,
};
use crate::state::causal_thread::{replica_text, OutcomeModel, ToolOutcome};
use crate::text::{
    char_count, debug_quoted, decimal, join2, join3, lowercase, text_begins, text_contains,
    text_debug, text_has, text_lowercase, text_lt, text_same, u64_text, usize_text,
};
use std::collections::HashSet;
use vstd::prelude::*;

verus! {

broadcast use vstd::std_specs::hash::group_hash_axioms;

/// Request to build a context window for an agent.
#[derive(Clone, Debug)]
pub struct AgentContextRequest {
    pub task_id: String,
    pub current_phase: String,
    pub current_objective: String,
    pub max_tokens: usize,
    pub strategy: ContextStrategy,
}

/// Strategy knobs for context construction.
#[derive(Clone, Debug)]
pub struct ContextStrategy {
    pub causal_anchors: bool,
    pub compress_completed_phases: bool,
    pub episodic_similarity: Option<EpisodicConfig>,
    pub recent_anomalies: Option<AnomalyConfig>,
}

impl Default for ContextStrategy {
    fn default() -> (r: Self)
        ensures
            !r.causal_anchors,
            !r.compress_completed_phases,
            r.episodic_similarity is None,
            r.recent_anomalies is None,
    {
        ContextStrategy {
            causal_anchors: false,
            compress_completed_phases: false,
            episodic_similarity: None,
            recent_anomalies: None,
        }
    }
}

/// Configuration for retrieving similar past episodes. The vector's components are
/// the bit patterns of single-precision numbers.
#[derive(Clone, Debug)]
pub struct EpisodicConfig {
    pub vector: Vec<u32>,
    pub k: usize,
}

/// Configuration for including recent anomalies.
#[derive(Clone, Debug)]
pub struct AnomalyConfig {
    pub window_ms: u64,
}

/// One item inside the assembled context.
#[allow(inconsistent_fields)]
#[derive(Debug, PartialEq)]
pub enum ContextItem {
    Decision { seq: u64, phase: Option<String>, text: String },
    ToolCall { seq: u64, phase: Option<String>, text: String },
    Anomaly { text: String },
    Episode { task_id: String, summary: String },
    PhaseSummary { phase: String, text: String, key_decisions: Vec<u64> },
}

#[allow(inconsistent_fields)]
#[verifier::ext_equal]
pub enum ItemModel {
    Decision { seq: u64, phase: Option<Seq<char>>, text: Seq<char> },
    ToolCall { seq: u64, phase: Option<Seq<char>>, text: Seq<char> },
    Anomaly { text: Seq<char> },
    Episode { task_id: Seq<char>, summary: Seq<char> },
    PhaseSummary { phase: Seq<char>, text: Seq<char>, key_decisions: Seq<u64> },
}

impl DeepView for ContextItem {
    type V = ItemModel;

    open spec fn deep_view(&self) -> ItemModel {
        match self {
            ContextItem::Decision { seq, phase, text } => ItemModel::Decision {
                seq: *seq,
                phase: phase.deep_view(),
                text: text@,
            },
            ContextItem::ToolCall { seq, phase, text } => ItemModel::ToolCall {
                seq: *seq,
                phase: phase.deep_view(),
                text: text@,
            },
            ContextItem::Anomaly { text } => ItemModel::Anomaly { text: text@ },
            ContextItem::Episode { task_id, summary } => ItemModel::Episode {
                task_id: task_id@,
                summary: summary@,
            },
            ContextItem::PhaseSummary { phase, text, key_decisions } => ItemModel::PhaseSummary {
                phase: phase@,
                text: text@,
                key_decisions: key_decisions@,
            },
        }
    }
}

impl ItemModel {
    /// Rough token estimate: characters of the text and some overhead, by four.
    pub open spec fn tokens(self) -> nat {
        match self {
            ItemModel::Decision { text, .. } => (text.len() + 20) / 4,
            ItemModel::ToolCall { text, .. } => (text.len() + 20) / 4,
            ItemModel::Anomaly { text } => (text.len() + 10) / 4,
            ItemModel::Episode { summary, .. } => (summary.len() + 20) / 4,
            ItemModel::PhaseSummary { text, .. } => (text.len() + 10) / 4,
        }
    }

    /// The event that the item shows.
    pub open spec fn seq(self) -> Option<u64> {
        match self {
            ItemModel::Decision { seq, .. } => Some(seq),
            ItemModel::ToolCall { seq, .. } => Some(seq),
            _ => None,
        }
    }

    /// The phase of a decision or a tool call.
    pub open spec fn own_phase(self) -> Option<Seq<char>> {
        match self {
            ItemModel::Decision { phase, .. } => phase,
            ItemModel::ToolCall { phase, .. } => phase,
            _ => None,
        }
    }

    /// The text of a decision or a tool call.
    pub open spec fn own_text(self) -> Option<Seq<char>> {
        match self {
            ItemModel::Decision { text, .. } => Some(text),
            ItemModel::ToolCall { text, .. } => Some(text),
            _ => None,
        }
    }

    /// The item sums up the given phase.
    pub open spec fn sums_up(self, name: Seq<char>) -> bool {
        self matches ItemModel::PhaseSummary { phase, .. } && phase == name
    }
}

impl Replica for ContextItem {
    fn replica(&self) -> (r: Self) {
        match self {
            ContextItem::Decision { seq, phase, text } => ContextItem::Decision {
                seq: *seq,
                phase: replica_text(phase),
                text: text.clone(),
            },
            ContextItem::ToolCall { seq, phase, text } => ContextItem::ToolCall {
                seq: *seq,
                phase: replica_text(phase),
                text: text.clone(),
            },
            ContextItem::Anomaly { text } => ContextItem::Anomaly { text: text.clone() },
            ContextItem::Episode { task_id, summary } => ContextItem::Episode {
                task_id: task_id.clone(),
                summary: summary.clone(),
            },
            ContextItem::PhaseSummary { phase, text, key_decisions } => {
                let keys = replica_list(key_decisions);
                assert(keys.deep_view() =~= keys@);
                assert(key_decisions.deep_view() =~= key_decisions@);
                ContextItem::PhaseSummary {
                    phase: phase.clone(),
                    text: text.clone(),
                    key_decisions: keys,
                }
            },
        }
    }
}

impl Clone for ContextItem {
    fn clone(&self) -> (r: Self)
        ensures
            r.deep_view() == self.deep_view(),
    {
        self.replica()
    }
}

impl ContextItem {
    /// Rough token estimate: characters / 4.
    pub fn estimated_tokens(&self) -> (r: usize)
        ensures
            r == self.deep_view().tokens(),
            r >= 1,
    {
        match self {
            ContextItem::Decision { text, .. } => char_count(text.as_str()) / 4 + 5,
            ContextItem::ToolCall { text, .. } => char_count(text.as_str()) / 4 + 5,
            ContextItem::Episode { summary, .. } => char_count(summary.as_str()) / 4 + 5,
            ContextItem::Anomaly { text } => {
                let chars: usize = char_count(text.as_str());
                chars / 4 + (chars % 4 + 10) / 4
            },
            ContextItem::PhaseSummary { text, .. } => {
                let chars: usize = char_count(text.as_str());
                chars / 4 + (chars % 4 + 10) / 4
            },
        }
    }

    /// The event that the item shows.
    pub fn seq(&self) -> (r: Option<u64>)
        ensures
            r == self.deep_view().seq(),
    {
        match self {
            ContextItem::Decision { seq, .. } => Some(*seq),
            ContextItem::ToolCall { seq, .. } => Some(*seq),
            _ => None,
        }
    }
}

/// A retrieved past episode.
#[derive(Clone, Debug, PartialEq, Hash)]
pub struct Episode {
    pub task_id: String,
    pub summary: String,
}

#[verifier::ext_equal]
pub struct EpisodeModel {
    pub task_id: Seq<char>,
    pub summary: Seq<char>,
}

impl DeepView for Episode {
    type V = EpisodeModel;

    open spec fn deep_view(&self) -> EpisodeModel {
        EpisodeModel { task_id: self.task_id@, summary: self.summary@ }
    }
}

/// Summary of a completed phase.
#[derive(Clone, Debug, PartialEq)]
pub struct PhaseSummary {
    pub is_compressed: bool,
    pub key_decisions: Vec<u64>,
}

/// Assembled context window for a call of a language model.
#[derive(Clone, Debug, PartialEq)]
pub struct AgentContext {
    pub items: Vec<ContextItem>,
    pub similar_episodes: Vec<Episode>,
    pub anomalies: Vec<ContextItem>,
}

/// The token estimate of several items.
pub open spec fn tokens_of(items: Seq<ItemModel>) -> nat
    decreases items.len(),
{
    if items.len() == 0 {
        0
    } else {
        tokens_of(items.drop_last()) + items.last().tokens()
    }
}

proof fn lemma_tokens_grow(items: Seq<ItemModel>, n: int)
    requires
        0 <= n <= items.len(),
    ensures
        tokens_of(items.take(n)) <= tokens_of(items),
    decreases items.len(),
{
    if n < items.len() {
        lemma_tokens_grow(items.drop_last(), n);
        assert(items.drop_last().take(n) =~= items.take(n));
    } else {
        assert(items.take(n) =~= items);
    }
}

/// The item belongs to the phase: it is its summary, or a decision or tool call in
/// it.
pub open spec fn from_phase(item: ItemModel, name: Seq<char>) -> bool {
    item.sums_up(name) || item.own_phase() == Some(name)
}

/// The events of the decisions and tool calls in a phase.
pub open spec fn phase_seqs(items: Seq<ItemModel>, name: Seq<char>) -> Seq<u64>
    decreases items.len(),
{
    if items.len() == 0 {
        Seq::empty()
    } else {
        let before = phase_seqs(items.drop_last(), name);
        if items.last().own_phase() == Some(name) {
            before.push(items.last().seq()->0)
        } else {
            before
        }
    }
}

impl AgentContext {
    /// Sum of estimated tokens of all included items.
    pub fn estimated_tokens(&self) -> (r: usize)
        requires
            tokens_of(self.items.deep_view()) <= usize::MAX,
        ensures
            r == tokens_of(self.items.deep_view()),
    {
        let ghost all = self.items.deep_view();
        let mut sum: usize = 0;
        let mut i: usize = 0;
        assert(all.take(0) =~= Seq::empty());
        while i < self.items.len()
            invariant
                i <= self.items.len(),
                all == self.items.deep_view(),
                tokens_of(all) <= usize::MAX,
                sum == tokens_of(all.take(i as int)),
            decreases self.items.len() - i,
        {
            proof {
                assert(all.take(i + 1).drop_last() =~= all.take(i as int));
                assert(all.take(i + 1).last() == self.items@[i as int].deep_view());
                lemma_tokens_grow(all, i + 1);
            }
            sum = sum + self.items[i].estimated_tokens();
            i += 1;
        }
        assert(all.take(i as int) =~= all);
        sum
    }

    /// True if the context includes the given seq.
    pub fn contains_seq(&self, seq: u64) -> (r: bool)
        ensures
            r == exists|i: int|
                0 <= i < self.items.deep_view().len() && (
                #[trigger] self.items.deep_view()[i]).seq() == Some(seq),
    {
        let ghost all = self.items.deep_view();
        let mut i: usize = 0;
        while i < self.items.len()
            invariant
                i <= self.items.len(),
                all == self.items.deep_view(),
                forall|j: int| 0 <= j < i ==> (#[trigger] all[j]).seq() != Some(seq),
            decreases self.items.len() - i,
        {
            assert(all[i as int] == self.items@[i as int].deep_view());
            if let Some(own) = self.items[i].seq() {
                if own == seq {
                    return true;
                }
            }
            i += 1;
        }
        false
    }

    /// Returns a summary for a phase if present: the explicit summary of a completed
    /// phase, or else the uncompressed decisions and tool calls in it.
    pub fn phase_summary(&self, phase: &str) -> (r: Option<PhaseSummary>)
        ensures
            match r {
                Some(summary) => if summary.is_compressed {
                    exists|i: int|
                        #![trigger self.items.deep_view()[i]]
                        0 <= i < self.items.deep_view().len()
                            && self.items.deep_view()[i].sums_up(phase@)
                            && self.items.deep_view()[i]->key_decisions == summary.key_decisions@
                            && forall|j: int|
                            0 <= j < i ==> !(#[trigger] self.items.deep_view()[j]).sums_up(phase@)
                } else {
                    &&& summary.key_decisions@ == phase_seqs(self.items.deep_view(), phase@)
                    &&& summary.key_decisions@.len() > 0
                    &&& forall|i: int|
                        0 <= i < self.items.deep_view().len() ==> !(
                        #[trigger] self.items.deep_view()[i]).sums_up(phase@)
                },
                None => forall|i: int|
                    0 <= i < self.items.deep_view().len() ==> !from_phase(
                        #[trigger] self.items.deep_view()[i],
                        phase@,
                    ),
            },
    {
        let ghost all = self.items.deep_view();
        let mut i: usize = 0;
        while i < self.items.len()
            invariant
                i <= self.items.len(),
                all == self.items.deep_view(),
                forall|j: int| 0 <= j < i ==> !(#[trigger] all[j]).sums_up(phase@),
            decreases self.items.len() - i,
        {
            assert(all[i as int] == self.items@[i as int].deep_view());
            if let ContextItem::PhaseSummary { phase: own, key_decisions, .. } = &self.items[i] {
                if text_same(own.as_str(), phase) {
                    let keys = replica_list(key_decisions);
                    assert(keys.deep_view() =~= keys@);
                    assert(key_decisions.deep_view() =~= key_decisions@);
                    assert(all[i as int].sums_up(phase@));
                    return Some(PhaseSummary { is_compressed: true, key_decisions: keys });
                }
            }
            i += 1;
        }
        let mut seqs: Vec<u64> = Vec::new();
        let mut k: usize = 0;
        assert(all.take(0) =~= Seq::empty());
        while k < self.items.len()
            invariant
                k <= self.items.len(),
                all == self.items.deep_view(),
                seqs@ == phase_seqs(all.take(k as int), phase@),
                seqs@.len() == 0 ==> forall|j: int|
                    0 <= j < k ==> (#[trigger] all[j]).own_phase() != Some(phase@),
            decreases self.items.len() - k,
        {
            proof {
                assert(all.take(k + 1).drop_last() =~= all.take(k as int));
                assert(all.take(k + 1).last() == self.items@[k as int].deep_view());
            }
            match &self.items[k] {
                ContextItem::Decision { seq, phase: Some(own), .. } => {
                    if text_same(own.as_str(), phase) {
                        seqs.push(*seq);
                    }
                },
                ContextItem::ToolCall { seq, phase: Some(own), .. } => {
                    if text_same(own.as_str(), phase) {
                        seqs.push(*seq);
                    }
                },
                _ => {},
            }
            k += 1;
        }
        assert(all.take(k as int) =~= all);
        if seqs.len() > 0 {
            Some(PhaseSummary { is_compressed: false, key_decisions: seqs })
        } else {
            None
        }
    }

    /// True if any content item belongs to the given phase.
    pub fn has_content_from_phase(&self, phase: &str) -> (r: bool)
        ensures
            r == exists|i: int|
                0 <= i < self.items.deep_view().len() && from_phase(
                    #[trigger] self.items.deep_view()[i],
                    phase@,
                ),
    {
        let ghost all = self.items.deep_view();
        match self.phase_summary(phase) {
            Some(summary) => {
                proof {
                    if summary.is_compressed {
                        let i = choose|i: int|
                            #![trigger all[i]]
                            0 <= i < all.len() && all[i].sums_up(phase@);
                        assert(from_phase(all[i], phase@));
                    } else {
                        lemma_phase_seqs(all, phase@);
                    }
                }
                true
            },
            None => false,
        }
    }

    /// True if the context spans all requested session/phase names.
    pub fn spans_sessions(&self, sessions: &Vec<&str>) -> (r: bool)
        ensures
            r == forall|s: int|
                0 <= s < sessions@.len() ==> mentions(
                    self.items.deep_view(),
                    (#[trigger] sessions@[s])@,
                ),
    {
        let mut i: usize = 0;
        while i < sessions.len()
            invariant
                i <= sessions.len(),
                forall|s: int|
                    0 <= s < i ==> mentions(self.items.deep_view(), (#[trigger] sessions@[s])@),
            decreases sessions.len() - i,
        {
            if !self.has_content_from_phase(sessions[i]) && !self.contains_seq_label(sessions[i]) {
                assert(!mentions(self.items.deep_view(), sessions@[i as int]@));
                return false;
            }
            i += 1;
        }
        true
    }

    fn contains_seq_label(&self, label: &str) -> (r: bool)
        ensures
            r == exists|i: int|
                0 <= i < self.items.deep_view().len() && shows_label(
                    #[trigger] self.items.deep_view()[i],
                    label@,
                ),
    {
        let ghost all = self.items.deep_view();
        let mut i: usize = 0;
        while i < self.items.len()
            invariant
                i <= self.items.len(),
                all == self.items.deep_view(),
                forall|j: int| 0 <= j < i ==> !shows_label(#[trigger] all[j], label@),
            decreases self.items.len() - i,
        {
            assert(all[i as int] == self.items@[i as int].deep_view());
            match &self.items[i] {
                ContextItem::Decision { text, .. } => {
                    if text_contains(text.as_str(), label) {
                        return true;
                    }
                },
                ContextItem::ToolCall { text, .. } => {
                    if text_contains(text.as_str(), label) {
                        return true;
                    }
                },
                _ => {},
            }
            i += 1;
        }
        false
    }
}

/// The text of a decision or a tool call holds the label.
pub open spec fn shows_label(item: ItemModel, label: Seq<char>) -> bool {
    match item.own_text() {
        Some(text) => text_has(text, label),
        None => false,
    }
}

/// Some item belongs to the phase of that name or shows it as a label.
pub open spec fn mentions(items: Seq<ItemModel>, name: Seq<char>) -> bool {
    (exists|i: int| 0 <= i < items.len() && from_phase(#[trigger] items[i], name)) || (exists|i: int|
        0 <= i < items.len() && shows_label(#[trigger] items[i], name))
}

proof fn lemma_phase_seqs(items: Seq<ItemModel>, name: Seq<char>)
    requires
        phase_seqs(items, name).len() > 0,
    ensures
        exists|i: int| 0 <= i < items.len() && from_phase(#[trigger] items[i], name),
    decreases items.len(),
{
    if items.last().own_phase() == Some(name) {
        assert(from_phase(items[items.len() - 1], name));
    } else {
        lemma_phase_seqs(items.drop_last(), name);
        let i = choose|i: int|
            0 <= i < items.len() - 1 && from_phase(#[trigger] items.drop_last()[i], name);
        assert(from_phase(items[i], name));
    }
}

/// `Debug` of an optional text.
pub open spec fn option_text(text: Option<Seq<char>>) -> Seq<char> {
    match text {
        Some(inner) => "Some("@ + debug_quoted(inner) + ")"@,
        None => "None"@,
    }
}

/// How a tool call's outcome is shown.
pub open spec fn outcome_text(outcome: OutcomeModel) -> Seq<char> {
    match outcome {
        OutcomeModel::Succeeded => "Ok"@,
        OutcomeModel::Failed(message) => "Err("@ + debug_quoted(message) + ")"@,
        OutcomeModel::Timeout => "Timeout"@,
    }
}

pub fn show_option(text: &Option<String>) -> (r: String)
    ensures
        r@ == option_text(text.deep_view()),
{
    match text {
        Some(inner) => join3("Some(", text_debug(inner.as_str()).as_str(), ")"),
        None => "None".to_owned(),
    }
}

pub fn show_outcome(outcome: &ToolOutcome) -> (r: String)
    ensures
        r@ == outcome_text(outcome.deep_view()),
{
    match outcome {
        ToolOutcome::Succeeded => "Ok".to_owned(),
        ToolOutcome::Failed(message) => join3("Err(", text_debug(message.as_str()).as_str(), ")"),
        ToolOutcome::Timeout => "Timeout".to_owned(),
    }
}

/// How an anomaly is shown.
pub open spec fn anomaly_text(anomaly: AnomalyModel) -> Seq<char> {
    match anomaly.kind {
        AnomalyKind::ErrorLoop => "Error loop: tool "@ + option_text(anomaly.tool) + " failed "@
            + decimal(anomaly.repetitions as nat) + " times"@,
        AnomalyKind::ObjectiveDrift => "Objective drift: "@ + decimal(anomaly.repetitions as nat)
            + " decisions diverged from intent 'unknown intent'"@,
    }
}

/// The items for the anomalies of a thread.
pub open spec fn anomaly_items(anomalies: Seq<AnomalyModel>) -> Seq<ItemModel> {
    Seq::new(anomalies.len(), |i: int| ItemModel::Anomaly { text: anomaly_text(anomalies[i]) })
}

fn collect_anomalies(anomalies: &Vec<Anomaly>) -> (r: Vec<ContextItem>)
    ensures
        r.deep_view() == anomaly_items(anomalies.deep_view()),
{
    let ghost all = anomaly_items(anomalies.deep_view());
    let mut items: Vec<ContextItem> = Vec::new();
    let mut i: usize = 0;
    assert(items.deep_view() =~= all.take(0));
    while i < anomalies.len()
        invariant
            i <= anomalies.len(),
            all == anomaly_items(anomalies.deep_view()),
            items.deep_view() == all.take(i as int),
        decreases anomalies.len() - i,
    {
        let ghost was = items.deep_view();
        let anomaly = &anomalies[i];
        let count = u64_text(anomaly.repetitions as u64);
        let text = match anomaly.kind {
            AnomalyKind::ErrorLoop => {
                let head = join3(
                    "Error loop: tool ",
                    show_option(&anomaly.tool).as_str(),
                    " failed ",
                );
                join3(head.as_str(), count.as_str(), " times")
            },
            AnomalyKind::ObjectiveDrift => join3(
                "Objective drift: ",
                count.as_str(),
                " decisions diverged from intent 'unknown intent'",
            ),
        };
        items.push(ContextItem::Anomaly { text });
        proof {
            assert(anomalies.deep_view()[i as int] == anomaly.deep_view());
            assert(items.deep_view() =~= was.push(all[i as int]));
            assert(all.take(i + 1) =~= was.push(all[i as int]));
        }
        i += 1;
    }
    assert(all.take(i as int) =~= all);
    items
}

/// The decision's description speaks of the objective, whatever the letter case.
pub open spec fn speaks_of(decision: DecisionModel, objective: Seq<char>) -> bool {
    text_has(lowercase(decision.description), lowercase(objective))
}

/// The last decision that speaks of the objective.
pub open spec fn current_objective(
    decisions: Seq<DecisionModel>,
    objective: Seq<char>,
) -> Option<u64>
    decreases decisions.len(),
{
    if decisions.len() == 0 {
        None
    } else if speaks_of(decisions.last(), objective) {
        Some(decisions.last().seq)
    } else {
        current_objective(decisions.drop_last(), objective)
    }
}

fn find_current_objective(decisions: &Vec<DecisionNode>, objective: &str) -> (r: Option<u64>)
    ensures
        r == current_objective(decisions.deep_view(), objective@),
{
    let ghost all = decisions.deep_view();
    let wanted = text_lowercase(objective);
    let mut n: usize = decisions.len();
    assert(all.take(n as int) =~= all);
    while n > 0
        invariant
            n <= decisions.len(),
            all == decisions.deep_view(),
            wanted@ == lowercase(objective@),
            current_objective(all, objective@) == current_objective(
                all.take(n as int),
                objective@,
            ),
        decreases n,
    {
        proof {
            assert(all.take(n as int).drop_last() =~= all.take(n - 1));
            assert(all.take(n as int).last() == decisions@[n - 1].deep_view());
        }
        let decision = &decisions[n - 1];
        if text_contains(text_lowercase(decision.description.as_str()).as_str(), wanted.as_str()) {
            return Some(decision.seq);
        }
        n -= 1;
    }
    None
}

/// The first decision with the given sequence number.
pub open spec fn decision_at(decisions: Seq<DecisionModel>, seq: u64) -> Option<DecisionModel>
    decreases decisions.len(),
{
    if decisions.len() == 0 {
        None
    } else {
        match decision_at(decisions.drop_last(), seq) {
            Some(decision) => Some(decision),
            None => if decisions.last().seq == seq {
                Some(decisions.last())
            } else {
                None
            },
        }
    }
}

/// The first tool call with the given sequence number.
pub open spec fn call_at(calls: Seq<CallModel>, seq: u64) -> Option<CallModel>
    decreases calls.len(),
{
    if calls.len() == 0 {
        None
    } else {
        match call_at(calls.drop_last(), seq) {
            Some(call) => Some(call),
            None => if calls.last().seq == seq {
                Some(calls.last())
            } else {
                None
            },
        }
    }
}

proof fn lemma_decision_at(decisions: Seq<DecisionModel>, n: int, seq: u64)
    requires
        0 < n <= decisions.len(),
        decision_at(decisions.take(n), seq) is Some,
    ensures
        decision_at(decisions, seq) == decision_at(decisions.take(n), seq),
    decreases decisions.len(),
{
    if n < decisions.len() {
        assert(decisions.drop_last().take(n) =~= decisions.take(n));
        lemma_decision_at(decisions.drop_last(), n, seq);
    } else {
        assert(decisions.take(n) =~= decisions);
    }
}

proof fn lemma_call_at(calls: Seq<CallModel>, n: int, seq: u64)
    requires
        0 < n <= calls.len(),
        call_at(calls.take(n), seq) is Some,
    ensures
        call_at(calls, seq) == call_at(calls.take(n), seq),
    decreases calls.len(),
{
    if n < calls.len() {
        assert(calls.drop_last().take(n) =~= calls.take(n));
        lemma_call_at(calls.drop_last(), n, seq);
    } else {
        assert(calls.take(n) =~= calls);
    }
}

pub fn find_decision(decisions: &Vec<DecisionNode>, seq: u64) -> (r: Option<&DecisionNode>)
    ensures
        r.deep_view() == decision_at(decisions.deep_view(), seq),
{
    let ghost all = decisions.deep_view();
    let mut i: usize = 0;
    assert(all.take(0) =~= Seq::empty());
    while i < decisions.len()
        invariant
            i <= decisions.len(),
            all == decisions.deep_view(),
            decision_at(all.take(i as int), seq) is None,
        decreases decisions.len() - i,
    {
        proof {
            assert(all.take(i + 1).drop_last() =~= all.take(i as int));
            assert(all.take(i + 1).last() == decisions@[i as int].deep_view());
        }
        if decisions[i].seq == seq {
            proof {
                lemma_decision_at(all, i + 1, seq);
            }
            return Some(&decisions[i]);
        }
        i += 1;
    }
    assert(all.take(i as int) =~= all);
    None
}

pub fn find_call(calls: &Vec<ToolCallNode>, seq: u64) -> (r: Option<&ToolCallNode>)
    ensures
        r.deep_view() == call_at(calls.deep_view(), seq),
{
    let ghost all = calls.deep_view();
    let mut i: usize = 0;
    assert(all.take(0) =~= Seq::empty());
    while i < calls.len()
        invariant
            i <= calls.len(),
            all == calls.deep_view(),
            call_at(all.take(i as int), seq) is None,
        decreases calls.len() - i,
    {
        proof {
            assert(all.take(i + 1).drop_last() =~= all.take(i as int));
            assert(all.take(i + 1).last() == calls@[i as int].deep_view());
        }
        if calls[i].seq == seq {
            proof {
                lemma_call_at(all, i + 1, seq);
            }
            return Some(&calls[i]);
        }
        i += 1;
    }
    assert(all.take(i as int) =~= all);
    None
}

/// What caused the decision, and what caused the tool call, of that sequence number.
pub open spec fn parents_of(thread: CausalModel, seq: u64) -> Seq<u64> {
    let first = match decision_at(thread.decisions, seq) {
        Some(decision) => match decision.caused_by {
            Some(parent) => seq![parent],
            None => Seq::empty(),
        },
        None => Seq::empty(),
    };
    let second = match call_at(thread.tool_calls, seq) {
        Some(call) => match call.caused_by {
            Some(parent) => seq![parent],
            None => Seq::empty(),
        },
        None => Seq::empty(),
    };
    first + second
}

/// The number of decisions whose sequence number is not in the set.
pub open spec fn unseen_decisions(decisions: Seq<DecisionModel>, visited: Set<u64>) -> nat
    decreases decisions.len(),
{
    if decisions.len() == 0 {
        0
    } else {
        unseen_decisions(decisions.drop_last(), visited) + (if visited.contains(
            decisions.last().seq,
        ) {
            0nat
        } else {
            1nat
        })
    }
}

/// The number of tool calls whose sequence number is not in the set.
pub open spec fn unseen_calls(calls: Seq<CallModel>, visited: Set<u64>) -> nat
    decreases calls.len(),
{
    if calls.len() == 0 {
        0
    } else {
        unseen_calls(calls.drop_last(), visited) + (if visited.contains(calls.last().seq) {
            0nat
        } else {
            1nat
        })
    }
}

/// The number of nodes whose sequence number is not in the set.
pub open spec fn unseen(thread: CausalModel, visited: Set<u64>) -> nat {
    unseen_decisions(thread.decisions, visited) + unseen_calls(thread.tool_calls, visited)
}

proof fn lemma_unseen_decisions(decisions: Seq<DecisionModel>, visited: Set<u64>, seq: u64)
    requires
        !visited.contains(seq),
    ensures
        unseen_decisions(decisions, visited.insert(seq)) <= unseen_decisions(decisions, visited),
        decision_at(decisions, seq) is Some ==> unseen_decisions(decisions, visited.insert(seq))
            < unseen_decisions(decisions, visited),
    decreases decisions.len(),
{
    if decisions.len() > 0 {
        lemma_unseen_decisions(decisions.drop_last(), visited, seq);
    }
}

proof fn lemma_unseen_calls(calls: Seq<CallModel>, visited: Set<u64>, seq: u64)
    requires
        !visited.contains(seq),
    ensures
        unseen_calls(calls, visited.insert(seq)) <= unseen_calls(calls, visited),
        call_at(calls, seq) is Some ==> unseen_calls(calls, visited.insert(seq)) < unseen_calls(
            calls,
            visited,
        ),
    decreases calls.len(),
{
    if calls.len() > 0 {
        lemma_unseen_calls(calls.drop_last(), visited, seq);
    }
}

/// Seeing one more sequence number leaves fewer nodes unseen, or it has no parents.
pub proof fn lemma_unseen(thread: CausalModel, visited: Set<u64>, seq: u64)
    requires
        !visited.contains(seq),
    ensures
        unseen(thread, visited.insert(seq)) <= unseen(thread, visited),
        unseen(thread, visited.insert(seq)) < unseen(thread, visited) || parents_of(
            thread,
            seq,
        ).len() == 0,
{
    lemma_unseen_decisions(thread.decisions, visited, seq);
    lemma_unseen_calls(thread.tool_calls, visited, seq);
}

/// The sequence numbers that are reached from those on the stack by going from
/// effect to cause, in the order in which they are first reached, the top of the
/// stack first; `visited` are not reached again.
pub open spec fn ancestry(thread: CausalModel, stack: Seq<u64>, visited: Set<u64>) -> Seq<u64>
    decreases unseen(thread, visited), stack.len(),
{
    if stack.len() == 0 {
        Seq::empty()
    } else if visited.contains(stack.last()) {
        ancestry(thread, stack.drop_last(), visited)
    } else {
        proof {
            lemma_unseen(thread, visited, stack.last());
        }
        seq![stack.last()] + ancestry(
            thread,
            stack.drop_last() + parents_of(thread, stack.last()),
            visited.insert(stack.last()),
        )
    }
}

/// Everything on the stack is reached, and with every reached node its causes are.
proof fn lemma_ancestry_closed(thread: CausalModel, stack: Seq<u64>, visited: Set<u64>)
    ensures
        forall|seq: u64| #[trigger]
            stack.contains(seq) ==> visited.contains(seq) || ancestry(
                thread,
                stack,
                visited,
            ).contains(seq),
        forall|seq: u64, parent: u64|
            #![trigger ancestry(thread, stack, visited).contains(seq), parents_of(thread, seq).contains(parent)]
            ancestry(thread, stack, visited).contains(seq) && parents_of(thread, seq).contains(
                parent,
            ) ==> visited.contains(parent) || ancestry(thread, stack, visited).contains(parent),
    decreases unseen(thread, visited), stack.len(),
{
    let order = ancestry(thread, stack, visited);
    if stack.len() == 0 {
        assert(order.len() == 0);
    } else {
        let top = stack.last();
        let rest = stack.drop_last();
        assert(stack =~= rest.push(top));
        if visited.contains(top) {
            lemma_ancestry_closed(thread, rest, visited);
            assert(order == ancestry(thread, rest, visited));
            assert forall|seq: u64| #[trigger] stack.contains(seq) implies visited.contains(seq)
                || order.contains(seq) by {
                if seq != top {
                    let i = choose|i: int| 0 <= i < stack.len() && stack[i] == seq;
                    assert(rest[i] == seq);
                    assert(rest.contains(seq));
                }
            }
        } else {
            lemma_unseen(thread, visited, top);
            let deeper = rest + parents_of(thread, top);
            let seen = visited.insert(top);
            let tail = ancestry(thread, deeper, seen);
            lemma_ancestry_closed(thread, deeper, seen);
            assert(order == seq![top] + tail);
            assert(order[0] == top);
            assert(order.contains(top));
            assert forall|seq: u64| tail.contains(seq) implies #[trigger] order.contains(seq) by {
                let i = choose|i: int| 0 <= i < tail.len() && tail[i] == seq;
                assert(order[i + 1] == seq);
            }
            assert forall|seq: u64| #[trigger] order.contains(seq) implies seq == top
                || tail.contains(seq) by {
                let i = choose|i: int| 0 <= i < order.len() && order[i] == seq;
                if i > 0 {
                    assert(tail[i - 1] == seq);
                }
            }
            assert forall|seq: u64| #[trigger] stack.contains(seq) implies visited.contains(seq)
                || order.contains(seq) by {
                if seq != top {
                    let i = choose|i: int| 0 <= i < stack.len() && stack[i] == seq;
                    assert(deeper[i] == seq);
                    assert(deeper.contains(seq));
                }
            }
            assert forall|seq: u64, parent: u64|
                #![trigger order.contains(seq), parents_of(thread, seq).contains(parent)]
                order.contains(seq) && parents_of(thread, seq).contains(
                    parent,
                ) implies visited.contains(parent) || order.contains(parent) by {
                if seq == top {
                    let i = choose|i: int|
                        0 <= i < parents_of(thread, top).len() && parents_of(thread, top)[i]
                            == parent;
                    assert(deeper[rest.len() + i] == parent);
                    assert(deeper.contains(parent));
                    assert(seen.contains(parent) || tail.contains(parent));
                } else {
                    assert(tail.contains(seq));
                    assert(seen.contains(parent) || tail.contains(parent));
                }
                if tail.contains(parent) {
                    assert(order.contains(parent));
                } else if parent == top {
                    assert(order.contains(top));
                }
            }
        }
    }
}

/// Going from effect to cause reaches the start itself and, with every node it
/// reaches, that node's causes: however far back, a cause of the start is found.
pub proof fn law_causes_are_reached(thread: CausalModel, start: u64)
    ensures
        ancestry(thread, seq![start], Set::empty()).contains(start),
        forall|seq: u64, parent: u64|
            #![trigger ancestry(thread, seq![start], Set::empty()).contains(seq), parents_of(thread, seq).contains(parent)]
            ancestry(thread, seq![start], Set::empty()).contains(seq) && parents_of(
                thread,
                seq,
            ).contains(parent) ==> ancestry(thread, seq![start], Set::empty()).contains(parent),
{
    lemma_ancestry_closed(thread, seq![start], Set::empty());
    assert(seq![start][0] == start);
    assert(seq![start].contains(start));
}

/// Items picked for a context, and the events that they show.
#[verifier::ext_equal]
pub struct Picked {
    pub items: Seq<ItemModel>,
    pub included: Set<u64>,
}

impl Picked {
    /// Picks an item, unless its event is shown already.
    pub open spec fn with(self, seq: u64, item: ItemModel) -> Picked {
        if self.included.contains(seq) {
            self
        } else {
            Picked { items: self.items.push(item), included: self.included.insert(seq) }
        }
    }
}

fn pick(items: &mut Vec<ContextItem>, included: &mut HashSet<u64>, seq: u64, item: ContextItem)
    ensures
        (Picked { items: final(items).deep_view(), included: final(included)@ }) == (Picked {
            items: old(items).deep_view(),
            included: old(included)@,
        }).with(seq, item.deep_view()),
{
    if included.insert(seq) {
        let ghost was = items.deep_view();
        items.push(item);
        assert(items.deep_view() =~= was.push(item.deep_view()));
    } else {
        assert(included@ =~= old(included)@);
    }
}

/// Picks the decision and the tool call of one sequence number.
pub open spec fn anchored(picked: Picked, thread: CausalModel, seq: u64) -> Picked {
    let first = match decision_at(thread.decisions, seq) {
        Some(decision) => picked.with(
            seq,
            ItemModel::Decision { seq, phase: decision.phase, text: decision.description },
        ),
        None => picked,
    };
    match call_at(thread.tool_calls, seq) {
        Some(call) => first.with(
            seq,
            ItemModel::ToolCall {
                seq,
                phase: None,
                text: call.tool + " -> "@ + outcome_text(call.outcome),
            },
        ),
        None => first,
    }
}

/// Picks the nodes of several sequence numbers, in order.
pub open spec fn all_anchored(picked: Picked, thread: CausalModel, order: Seq<u64>) -> Picked
    decreases order.len(),
{
    if order.len() == 0 {
        picked
    } else {
        anchored(all_anchored(picked, thread, order.drop_last()), thread, order.last())
    }
}

fn collect_causal_anchors(
    thread: &CausalThread,
    start_seq: u64,
    items: &mut Vec<ContextItem>,
    included: &mut HashSet<u64>,
)
    ensures
        (Picked { items: final(items).deep_view(), included: final(included)@ }) == all_anchored(
            Picked { items: old(items).deep_view(), included: old(included)@ },
            thread.deep_view(),
            ancestry(thread.deep_view(), seq![start_seq], Set::empty()),
        ),
{
    let ghost model = thread.deep_view();
    let ghost start = Picked { items: items.deep_view(), included: included@ };
    let ghost whole = ancestry(model, seq![start_seq], Set::empty());
    let ghost mut done: Seq<u64> = Seq::empty();
    let mut visited: HashSet<u64> = HashSet::new();
    let mut stack: Vec<u64> = Vec::new();
    stack.push(start_seq);
    proof {
        assert(stack@ =~= seq![start_seq]);
        assert(visited@ =~= Set::empty());
        assert(done + whole =~= whole);
    }
    while stack.len() > 0
        invariant
            model == thread.deep_view(),
            whole == done + ancestry(model, stack@, visited@),
            (Picked { items: items.deep_view(), included: included@ }) == all_anchored(
                start,
                model,
                done,
            ),
        decreases unseen(model, visited@), stack@.len(),
    {
        let ghost seen = visited@;
        let ghost waiting = stack@;
        let seq: u64 = stack.pop().unwrap();
        assert(stack@ =~= waiting.drop_last());
        assert(seq == waiting.last());
        let first: bool = visited.insert(seq);
        if !first {
            assert(visited@ =~= seen);
            continue;
        }
        let ghost picked = Picked { items: items.deep_view(), included: included@ };
        proof {
            lemma_unseen(model, seen, seq);
        }
        if let Some(decision) = find_decision(&thread.decisions, seq) {
            let item = ContextItem::Decision {
                seq,
                phase: replica_text(&decision.phase),
                text: decision.description.clone(),
            };
            pick(items, included, seq, item);
            if let Some(parent) = decision.caused_by {
                stack.push(parent);
            }
        }
        let ghost after_first = stack@;
        if let Some(call) = find_call(&thread.tool_calls, seq) {
            let text = join3(
                call.tool.as_str(),
                " -> ",
                show_outcome(&call.outcome).as_str(),
            );
            pick(items, included, seq, ContextItem::ToolCall { seq, phase: None, text });
            if let Some(parent) = call.caused_by {
                stack.push(parent);
            }
        }
        proof {
            assert(stack@ =~= waiting.drop_last() + parents_of(model, seq));
            let rest = ancestry(model, stack@, visited@);
            assert(ancestry(model, waiting, seen) == seq![seq] + rest);
            assert(done + (seq![seq] + rest) =~= done.push(seq) + rest);
            assert(done.push(seq).drop_last() =~= done);
            done = done.push(seq);
        }
    }
    assert(done =~= whole);
}

/// The phase of a decision; one without a phase counts to the current one.
pub open spec fn phase_of(decision: DecisionModel, current: Seq<char>) -> Seq<char> {
    match decision.phase {
        Some(phase) => phase,
        None => current,
    }
}

/// The decisions of one phase.
pub open spec fn in_phase(phase: Seq<char>, current: Seq<char>) -> spec_fn(DecisionModel) -> bool {
    |decision: DecisionModel| phase_of(decision, current) == phase
}

/// Some decision is in the phase.
pub open spec fn has_phase(
    decisions: Seq<DecisionModel>,
    phase: Seq<char>,
    current: Seq<char>,
) -> bool {
    exists|i: int| 0 <= i < decisions.len() && phase_of(#[trigger] decisions[i], current) == phase
}

/// The phases that decisions are in.
pub open spec fn phase_set(decisions: Seq<DecisionModel>, current: Seq<char>) -> Map<
    Seq<char>,
    bool,
> {
    Map::new(|phase: Seq<char>| has_phase(decisions, phase, current), |phase: Seq<char>| true)
}

/// The phases that decisions are in, in ascending order.
pub open spec fn phases_in_order(decisions: Seq<DecisionModel>, current: Seq<char>) -> Seq<
    (Seq<char>, bool),
> {
    rows_of::<String, bool>(phase_set(decisions, current))
}

/// Picks every decision of a group.
pub open spec fn group_picked(
    picked: Picked,
    group: Seq<DecisionModel>,
    phase: Option<Seq<char>>,
) -> Picked
    decreases group.len(),
{
    if group.len() == 0 {
        picked
    } else {
        let decision = group.last();
        group_picked(picked, group.drop_last(), phase).with(
            decision.seq,
            ItemModel::Decision { seq: decision.seq, phase, text: decision.description },
        )
    }
}

/// Picks a completed phase: its first decision, and a summary.
pub open spec fn summary_picked(
    picked: Picked,
    group: Seq<DecisionModel>,
    phase: Seq<char>,
) -> Picked {
    let key = group[0].seq;
    let first = picked.with(
        key,
        ItemModel::Decision { seq: key, phase: Some(phase), text: group[0].description },
    );
    Picked {
        items: first.items.push(
            ItemModel::PhaseSummary {
                phase,
                text: "Phase "@ + phase + " completed with "@ + decimal(group.len()) + " decisions"@,
                key_decisions: seq![key],
            },
        ),
        included: first.included,
    }
}

/// Picks one phase: the current one in full, a completed one as a summary where
/// that is asked for.
pub open spec fn phase_picked(
    picked: Picked,
    decisions: Seq<DecisionModel>,
    phase: Seq<char>,
    current: Seq<char>,
    compress: bool,
) -> Picked {
    let group = decisions.filter(in_phase(phase, current));
    if phase == current {
        group_picked(
            picked,
            group,
            if current.len() == 0 {
                None
            } else {
                Some(current)
            },
        )
    } else if compress {
        summary_picked(picked, group, phase)
    } else {
        picked
    }
}

/// Picks several phases, in order.
pub open spec fn phases_picked(
    picked: Picked,
    decisions: Seq<DecisionModel>,
    phases: Seq<(Seq<char>, bool)>,
    current: Seq<char>,
    compress: bool,
) -> Picked
    decreases phases.len(),
{
    if phases.len() == 0 {
        picked
    } else {
        phase_picked(
            phases_picked(picked, decisions, phases.drop_last(), current, compress),
            decisions,
            phases.last().0,
            current,
            compress,
        )
    }
}

fn phase_name(decision: &DecisionNode, current: &str) -> (r: String)
    ensures
        r@ == phase_of(decision.deep_view(), current@),
{
    match &decision.phase {
        Some(phase) => phase.clone(),
        None => current.to_owned(),
    }
}

fn phase_names(decisions: &Vec<DecisionNode>, current: &str) -> (r: SortedMap<String, bool>)
    ensures
        r.deep_view() == phase_set(decisions.deep_view(), current@),
{
    let ghost all = decisions.deep_view();
    let mut names: SortedMap<String, bool> = SortedMap::new();
    let mut i: usize = 0;
    assert(names.deep_view() =~= phase_set(all.take(0), current@));
    while i < decisions.len()
        invariant
            i <= decisions.len(),
            all == decisions.deep_view(),
            names.deep_view() == phase_set(all.take(i as int), current@),
        decreases decisions.len() - i,
    {
        let ghost was = names.deep_view();
        let name = phase_name(&decisions[i], current);
        let ghost here = name@;
        names.insert(name, true);
        proof {
            let next = all.take(i + 1);
            assert(all[i as int] == decisions@[i as int].deep_view());
            assert forall|phase: Seq<char>| has_phase(next, phase, current@) <==> (phase == here
                || has_phase(all.take(i as int), phase, current@)) by {
                if has_phase(next, phase, current@) {
                    let j = choose|j: int|
                        0 <= j < next.len() && phase_of(#[trigger] next[j], current@) == phase;
                    if j < i {
                        assert(all.take(i as int)[j] == next[j]);
                    }
                }
                if has_phase(all.take(i as int), phase, current@) {
                    let j = choose|j: int|
                        0 <= j < i && phase_of(#[trigger] all.take(i as int)[j], current@) == phase;
                    assert(next[j] == all[j]);
                }
                assert(next[i as int] == all[i as int]);
            }
            assert(names.deep_view() =~= phase_set(next, current@));
        }
        i += 1;
    }
    assert(all.take(i as int) =~= all);
    names
}

fn pick_current(
    decisions: &Vec<DecisionNode>,
    current: &str,
    items: &mut Vec<ContextItem>,
    included: &mut HashSet<u64>,
)
    ensures
        (Picked { items: final(items).deep_view(), included: final(included)@ }) == phase_picked(
            Picked { items: old(items).deep_view(), included: old(included)@ },
            decisions.deep_view(),
            current@,
            current@,
            true,
        ),
{
    let ghost all = decisions.deep_view();
    let ghost start = Picked { items: items.deep_view(), included: included@ };
    let ghost keep = in_phase(current@, current@);
    let label: Option<String> = if current.is_empty() {
        None
    } else {
        Some(current.to_owned())
    };
    let ghost shown = label.deep_view();
    let mut i: usize = 0;
    proof {
        reveal(Seq::filter);
        assert(all.take(0) =~= Seq::empty());
    }
    while i < decisions.len()
        invariant
            i <= decisions.len(),
            all == decisions.deep_view(),
            keep == in_phase(current@, current@),
            shown == label.deep_view(),
            (Picked { items: items.deep_view(), included: included@ }) == group_picked(
                start,
                all.take(i as int).filter(keep),
                shown,
            ),
        decreases decisions.len() - i,
    {
        let decision = &decisions[i];
        proof {
            assert(all.take(i + 1) =~= all.take(i as int).push(decision.deep_view()));
            lemma_filter_push(all.take(i as int), decision.deep_view(), keep);
            let before = all.take(i as int).filter(keep);
            assert(before.push(decision.deep_view()).drop_last() =~= before);
        }
        if text_same(phase_name(decision, current).as_str(), current) {
            let item = ContextItem::Decision {
                seq: decision.seq,
                phase: replica_text(&label),
                text: decision.description.clone(),
            };
            pick(items, included, decision.seq, item);
        }
        i += 1;
    }
    assert(all.take(i as int) =~= all);
}

fn pick_summary(
    decisions: &Vec<DecisionNode>,
    phase: &str,
    current: &str,
    items: &mut Vec<ContextItem>,
    included: &mut HashSet<u64>,
)
    requires
        has_phase(decisions.deep_view(), phase@, current@),
    ensures
        (Picked { items: final(items).deep_view(), included: final(included)@ }) == summary_picked(
            Picked { items: old(items).deep_view(), included: old(included)@ },
            decisions.deep_view().filter(in_phase(phase@, current@)),
            phase@,
        ),
{
    let ghost all = decisions.deep_view();
    let ghost keep = in_phase(phase@, current@);
    let mut first: Option<usize> = None;
    let mut count: usize = 0;
    let mut i: usize = 0;
    proof {
        reveal(Seq::filter);
        assert(all.take(0) =~= Seq::empty());
    }
    while i < decisions.len()
        invariant
            i <= decisions.len(),
            all == decisions.deep_view(),
            keep == in_phase(phase@, current@),
            count <= i,
            count == all.take(i as int).filter(keep).len(),
            count == 0 <==> first is None,
            match first {
                Some(at) => at < i && all.take(i as int).filter(keep)[0] == all[at as int],
                None => true,
            },
        decreases decisions.len() - i,
    {
        proof {
            let decision = decisions@[i as int].deep_view();
            assert(all.take(i + 1) =~= all.take(i as int).push(decision));
            lemma_filter_push(all.take(i as int), decision, keep);
        }
        if text_same(phase_name(&decisions[i], current).as_str(), phase) {
            if first.is_none() {
                first = Some(i);
            }
            count += 1;
        }
        i += 1;
    }
    proof {
        assert(all.take(i as int) =~= all);
        let k = choose|k: int| 0 <= k < all.len() && phase_of(#[trigger] all[k], current@) == phase@;
        lemma_filter_has(all, keep);
        assert(all.contains(all[k]));
        assert(all.filter(keep).contains(all[k]));
    }
    let mut keys: Vec<u64> = Vec::new();
    if let Some(at) = first {
        let decision = &decisions[at];
        keys.push(decision.seq);
        let item = ContextItem::Decision {
            seq: decision.seq,
            phase: Some(phase.to_owned()),
            text: decision.description.clone(),
        };
        pick(items, included, decision.seq, item);
        assert(keys@ =~= seq![decision.seq]);
    }
    let head = join3("Phase ", phase, " completed with ");
    let text = join3(head.as_str(), usize_text(count).as_str(), " decisions");
    let ghost was = items.deep_view();
    let item = ContextItem::PhaseSummary { phase: phase.to_owned(), text, key_decisions: keys };
    let ghost shown = item.deep_view();
    items.push(item);
    assert(items.deep_view() =~= was.push(shown));
}

fn collect_phase_content(
    decisions: &Vec<DecisionNode>,
    current: &str,
    compress: bool,
    items: &mut Vec<ContextItem>,
    included: &mut HashSet<u64>,
)
    ensures
        (Picked { items: final(items).deep_view(), included: final(included)@ }) == phases_picked(
            Picked { items: old(items).deep_view(), included: old(included)@ },
            decisions.deep_view(),
            phases_in_order(decisions.deep_view(), current@),
            current@,
            compress,
        ),
{
    let ghost all = decisions.deep_view();
    let ghost start = Picked { items: items.deep_view(), included: included@ };
    let names = phase_names(decisions, current);
    let n: usize = names.len();
    let ghost rows = names.pairs();
    let mut i: usize = 0;
    assert(rows.take(0) =~= Seq::empty());
    while i < n
        invariant
            i <= n,
            n == rows.len(),
            all == decisions.deep_view(),
            rows == names.pairs(),
            names.deep_view() == phase_set(all, current@),
            (Picked { items: items.deep_view(), included: included@ }) == phases_picked(
                start,
                all,
                rows.take(i as int),
                current@,
                compress,
            ),
        decreases n - i,
    {
        let value: &bool = names.value_at(i);
        let phase = names.key_at(i);
        proof {
            assert(rows.take(i + 1).drop_last() =~= rows.take(i as int));
            assert(rows.take(i + 1).last() == rows[i as int]);
            assert(has_phase(all, phase@, current@));
        }
        if text_same(phase.as_str(), current) {
            pick_current(decisions, current, items, included);
        } else if compress {
            pick_summary(decisions, phase.as_str(), current, items, included);
        }
        i += 1;
    }
    assert(rows.take(i as int) =~= rows);
}

/// The items for past episodes.
pub open spec fn episode_items(episodes: Seq<EpisodeModel>) -> Seq<ItemModel> {
    Seq::new(
        episodes.len(),
        |i: int|
            ItemModel::Episode { task_id: episodes[i].task_id, summary: episodes[i].summary },
    )
}

/// The anomalies of a thread, then what led to the current objective, where that is
/// asked for, then the phases.
pub open spec fn thread_picked(thread: CausalModel, request: AgentContextRequest) -> Picked {
    let first = Picked { items: anomaly_items(thread.anomalies), included: Set::empty() };
    let second = match current_objective(thread.decisions, request.current_objective@) {
        Some(seq) => if request.strategy.causal_anchors {
            all_anchored(first, thread, ancestry(thread, seq![seq], Set::empty()))
        } else {
            first
        },
        None => first,
    };
    phases_picked(
        second,
        thread.decisions,
        phases_in_order(thread.decisions, request.current_phase@),
        request.current_phase@,
        request.strategy.compress_completed_phases,
    )
}

/// All items that a context could hold, the most important first.
pub open spec fn candidates(
    thread: CausalModel,
    request: AgentContextRequest,
    episodes: Seq<EpisodeModel>,
) -> Seq<ItemModel> {
    thread_picked(thread, request).items + episode_items(episodes)
}

/// The first `n` items are as many as the budget holds.
pub open spec fn fills(items: Seq<ItemModel>, budget: usize, n: int) -> bool {
    &&& 0 <= n <= items.len()
    &&& tokens_of(items.take(n)) <= budget
    &&& n == items.len() || tokens_of(items.take(n + 1)) > budget
}

/// An anomaly.
pub open spec fn is_anomaly() -> spec_fn(ItemModel) -> bool {
    |item: ItemModel| item is Anomaly
}

/// The first `n` candidates, and their anomalies, make a context.
pub open spec fn is_context(
    context: AgentContext,
    items: Seq<ItemModel>,
    episodes: Seq<EpisodeModel>,
    budget: usize,
    n: int,
) -> bool {
    &&& fills(items, budget, n)
    &&& context.items.deep_view() == items.take(n)
    &&& context.anomalies.deep_view() == items.take(n).filter(is_anomaly())
    &&& context.similar_episodes.deep_view() == episodes
}

fn select(items: Vec<ContextItem>, budget: usize) -> (r: Vec<ContextItem>)
    ensures
        exists|n: int| #[trigger]
            fills(items.deep_view(), budget, n) && r.deep_view() == items.deep_view().take(n),
{
    let ghost all = items.deep_view();
    let mut selected: Vec<ContextItem> = Vec::new();
    let mut tokens: usize = 0;
    let mut i: usize = 0;
    assert(all.take(0) =~= Seq::empty());
    assert(selected.deep_view() =~= all.take(0));
    while i < items.len()
        invariant
            i <= items.len(),
            all == items.deep_view(),
            selected.deep_view() == all.take(i as int),
            tokens == tokens_of(all.take(i as int)),
            tokens <= budget,
        decreases items.len() - i,
    {
        let cost: usize = items[i].estimated_tokens();
        let ghost was = selected.deep_view();
        proof {
            assert(all.take(i + 1).drop_last() =~= all.take(i as int));
            assert(all.take(i + 1).last() == items@[i as int].deep_view());
            assert(all.take(i + 1) =~= was.push(all[i as int]));
        }
        if cost > budget - tokens {
            assert(fills(all, budget, i as int));
            return selected;
        }
        tokens = tokens + cost;
        selected.push(items[i].replica());
        assert(selected.deep_view() =~= was.push(all[i as int]));
        i += 1;
    }
    assert(fills(all, budget, i as int));
    selected
}

fn anomalies_among(items: &Vec<ContextItem>) -> (r: Vec<ContextItem>)
    ensures
        r.deep_view() == items.deep_view().filter(is_anomaly()),
{
    let ghost all = items.deep_view();
    let mut out: Vec<ContextItem> = Vec::new();
    let mut i: usize = 0;
    proof {
        reveal(Seq::filter);
        assert(all.take(0) =~= Seq::empty());
        assert(out.deep_view() =~= Seq::empty());
    }
    while i < items.len()
        invariant
            i <= items.len(),
            all == items.deep_view(),
            out.deep_view() == all.take(i as int).filter(is_anomaly()),
        decreases items.len() - i,
    {
        let ghost was = out.deep_view();
        proof {
            assert(all.take(i + 1) =~= all.take(i as int).push(all[i as int]));
            lemma_filter_push(all.take(i as int), all[i as int], is_anomaly());
            assert(all[i as int] == items@[i as int].deep_view());
        }
        if let ContextItem::Anomaly { .. } = &items[i] {
            out.push(items[i].replica());
            assert(out.deep_view() =~= was.push(all[i as int]));
        }
        i += 1;
    }
    assert(all.take(i as int) =~= all);
    out
}

/// Builds an adaptive, token-bounded context window from the causal thread of a task
/// and the past episodes that resemble it.
pub fn build_context(
    thread: &CausalThread,
    request: &AgentContextRequest,
    similar_episodes: Vec<Episode>,
) -> (r: AgentContext)
    ensures
        exists|n: int| #[trigger]
            is_context(
                r,
                candidates(thread.deep_view(), *request, similar_episodes.deep_view()),
                similar_episodes.deep_view(),
                request.max_tokens,
                n,
            ),
        tokens_of(r.items.deep_view()) <= request.max_tokens,
{
    let ghost model = thread.deep_view();
    let ghost episodes = similar_episodes.deep_view();
    let mut items = collect_anomalies(&thread.anomalies);
    let mut included: HashSet<u64> = HashSet::new();
    assert(included@ =~= Set::empty());
    if let Some(seq) = find_current_objective(
        &thread.decisions,
        request.current_objective.as_str(),
    ) {
        if request.strategy.causal_anchors {
            collect_causal_anchors(thread, seq, &mut items, &mut included);
        }
    }
    collect_phase_content(
        &thread.decisions,
        request.current_phase.as_str(),
        request.strategy.compress_completed_phases,
        &mut items,
        &mut included,
    );
    let ghost base = items.deep_view();
    let ghost more = episode_items(episodes);
    assert(base == thread_picked(model, *request).items);
    let mut i: usize = 0;
    assert(base + more.take(0) =~= base);
    while i < similar_episodes.len()
        invariant
            i <= similar_episodes.len(),
            episodes == similar_episodes.deep_view(),
            more == episode_items(episodes),
            items.deep_view() == base + more.take(i as int),
        decreases similar_episodes.len() - i,
    {
        let ghost was = items.deep_view();
        let episode = &similar_episodes[i];
        items.push(
            ContextItem::Episode {
                task_id: episode.task_id.clone(),
                summary: episode.summary.clone(),
            },
        );
        proof {
            assert(episodes[i as int] == episode.deep_view());
            assert(items.deep_view() =~= was.push(more[i as int]));
            assert(was.push(more[i as int]) =~= base + more.take(i + 1));
        }
        i += 1;
    }
    let ghost all = candidates(model, *request, episodes);
    assert(more.take(i as int) =~= more);
    assert(items.deep_view() == all);
    let selected = select(items, request.max_tokens);
    let ghost n = choose|n: int| #[trigger]
        fills(all, request.max_tokens, n) && selected.deep_view() == all.take(n);
    let anomalies = anomalies_among(&selected);
    let r = AgentContext { items: selected, similar_episodes, anomalies };
    assert(is_context(r, all, episodes, request.max_tokens, n));
    r
}

proof fn lemma_group_keeps(picked: Picked, group: Seq<DecisionModel>, phase: Option<Seq<char>>)
    ensures
        picked.items.is_prefix_of(group_picked(picked, group, phase).items),
    decreases group.len(),
{
    if group.len() > 0 {
        lemma_group_keeps(picked, group.drop_last(), phase);
    }
}

proof fn lemma_phases_keep(
    picked: Picked,
    decisions: Seq<DecisionModel>,
    phases: Seq<(Seq<char>, bool)>,
    current: Seq<char>,
    compress: bool,
)
    ensures
        picked.items.is_prefix_of(
            phases_picked(picked, decisions, phases, current, compress).items,
        ),
    decreases phases.len(),
{
    if phases.len() > 0 {
        lemma_phases_keep(picked, decisions, phases.drop_last(), current, compress);
        let before = phases_picked(picked, decisions, phases.drop_last(), current, compress);
        let group = decisions.filter(in_phase(phases.last().0, current));
        lemma_group_keeps(
            before,
            group,
            if current.len() == 0 {
                None
            } else {
                Some(current)
            },
        );
    }
}

proof fn lemma_anchors_keep(picked: Picked, thread: CausalModel, order: Seq<u64>)
    ensures
        picked.items.is_prefix_of(all_anchored(picked, thread, order).items),
    decreases order.len(),
{
    if order.len() > 0 {
        lemma_anchors_keep(picked, thread, order.drop_last());
    }
}

/// The anomalies of a thread come before everything else: a context whose budget
/// holds them shows all of them.
pub proof fn law_anomalies_come_first(
    thread: CausalModel,
    request: AgentContextRequest,
    episodes: Seq<EpisodeModel>,
    n: int,
)
    requires
        fills(candidates(thread, request, episodes), request.max_tokens, n),
        tokens_of(anomaly_items(thread.anomalies)) <= request.max_tokens,
    ensures
        anomaly_items(thread.anomalies).is_prefix_of(
            candidates(thread, request, episodes).take(n),
        ),
{
    let all = candidates(thread, request, episodes);
    let first = Picked { items: anomaly_items(thread.anomalies), included: Set::empty() };
    let second = match current_objective(thread.decisions, request.current_objective@) {
        Some(seq) => if request.strategy.causal_anchors {
            lemma_anchors_keep(first, thread, ancestry(thread, seq![seq], Set::empty()));
            all_anchored(first, thread, ancestry(thread, seq![seq], Set::empty()))
        } else {
            first
        },
        None => first,
    };
    lemma_phases_keep(
        second,
        thread.decisions,
        phases_in_order(thread.decisions, request.current_phase@),
        request.current_phase@,
        request.strategy.compress_completed_phases,
    );
    let m = anomaly_items(thread.anomalies).len() as int;
    assert(all.take(m) =~= anomaly_items(thread.anomalies));
    if n < m {
        lemma_tokens_grow(all.take(m), n + 1);
        assert(all.take(m).take(n + 1) =~= all.take(n + 1));
    }
}

/// A hit counts as similar by its vector above this similarity, three tenths.
pub const VECTOR_RELEVANCE: u32 = 0x3e99_999a;

/// The query for episodes that resemble the current one.
pub open spec fn episode_query_of(config: EpisodicConfig, objective: Seq<char>) -> QueryModel {
    QueryModel {
        text: if objective.len() > 0 {
            Some(objective)
        } else {
            None
        },
        vector: Some(config.vector.deep_view()),
        filters: seq![FilterModel { field: "kind"@, value: "episode"@ }],
        k: config.k,
        ..QueryModel::blank()
    }
}

/// The query for episodes that resemble the current one.
pub fn episode_query(config: &EpisodicConfig, current_objective: &str) -> (r: HybridQuery)
    ensures
        r.deep_view() == episode_query_of(*config, current_objective@),
{
    let mut filters: Vec<ScalarFilter> = Vec::new();
    filters.push(ScalarFilter::eq("kind", "episode"));
    assert(filters.deep_view() =~= seq![FilterModel { field: "kind"@, value: "episode"@ }]);
    let query = HybridQuery::default().with_vector(replica_list(&config.vector)).with_filters(
        filters,
    ).with_k(config.k);
    if current_objective.is_empty() {
        query
    } else {
        query.with_text(current_objective)
    }
}

/// The highest text score among the first `n` hits; zero where there is none above.
pub open spec fn best_text_of(hits: Seq<HitModel>, n: nat) -> u32
    decreases n,
{
    if n == 0 {
        0
    } else {
        let before = best_text_of(hits, (n - 1) as nat);
        match hits[n - 1].text_score {
            Some(score) => if single_below(before, score) {
                score
            } else {
                before
            },
            None => before,
        }
    }
}

/// The highest text score of hits; zero where there is none above.
pub fn best_text_score(hits: &Vec<Hit>) -> (r: u32)
    ensures
        r == best_text_of(hits.deep_view(), hits@.len()),
{
    let mut best: u32 = 0;
    let mut i: usize = 0;
    while i < hits.len()
        invariant
            i <= hits.len(),
            best == best_text_of(hits.deep_view(), i as nat),
        decreases hits.len() - i,
    {
        assert(hits.deep_view()[i as int] == hits@[i as int].deep_view());
        assert((i + 1 - 1) as nat == i as nat);
        if let Some(score) = hits[i].text_score {
            if is_below(best, score) {
                best = score;
            }
        }
        i += 1;
    }
    best
}

/// A hit is relevant by its vector, or by its text, whose score reaches the threshold.
pub open spec fn is_relevant(hit: HitModel, text_threshold: u32) -> bool {
    ||| hit.vector_score is Some && single_below(VECTOR_RELEVANCE, hit.vector_score->0)
    ||| hit.text_score is Some && single_reaches(hit.text_score->0, text_threshold)
}

/// The episodes for the relevant ones of the first `n` hits.
pub open spec fn episodes_of(hits: Seq<HitModel>, text_threshold: u32, n: nat) -> Seq<EpisodeModel>
    decreases n,
{
    if n == 0 {
        Seq::empty()
    } else {
        let before = episodes_of(hits, text_threshold, (n - 1) as nat);
        if is_relevant(hits[n - 1], text_threshold) {
            before.push(
                EpisodeModel { task_id: hits[n - 1].id, summary: "Episode "@ + hits[n - 1].id },
            )
        } else {
            before
        }
    }
}

/// The past episodes that hits stand for. At least one source must show meaningful
/// relevance: in a small corpus fusion returns every candidate, and unrelated episodes
/// must not leak in. The threshold for text is four tenths of the highest text score.
pub fn relevant_episodes(hits: &Vec<Hit>, text_threshold: u32) -> (r: Vec<Episode>)
    ensures
        r.deep_view() == episodes_of(hits.deep_view(), text_threshold, hits@.len()),
{
    let mut episodes: Vec<Episode> = Vec::new();
    let mut i: usize = 0;
    assert(episodes.deep_view() =~= Seq::empty());
    while i < hits.len()
        invariant
            i <= hits.len(),
            episodes.deep_view() == episodes_of(hits.deep_view(), text_threshold, i as nat),
        decreases hits.len() - i,
    {
        let ghost was = episodes.deep_view();
        let hit = &hits[i];
        assert(hits.deep_view()[i as int] == hit.deep_view());
        assert((i + 1 - 1) as nat == i as nat);
        let by_vector: bool = match hit.vector_score {
            Some(score) => is_below(VECTOR_RELEVANCE, score),
            None => false,
        };
        let by_text: bool = match hit.text_score {
            Some(score) => reaches(score, text_threshold),
            None => false,
        };
        if by_vector || by_text {
            let episode = Episode {
                task_id: hit.id.clone(),
                summary: join2("Episode ", hit.id.as_str()),
            };
            let ghost shown = episode.deep_view();
            episodes.push(episode);
            assert(episodes.deep_view() =~= was.push(shown));
        }
        i += 1;
    }
    episodes
}

/// The call found under a sequence number is one of the calls.
pub proof fn lemma_call_found(calls: Seq<CallModel>, seq: u64)
    ensures
        match call_at(calls, seq) {
            Some(call) => call.seq == seq && calls.contains(call),
            None => forall|k: int| 0 <= k < calls.len() ==> (#[trigger] calls[k]).seq != seq,
        },
    decreases calls.len(),
{
    if calls.len() > 0 {
        let rest = calls.drop_last();
        lemma_call_found(rest, seq);
        assert(calls[calls.len() - 1] == calls.last());
        match call_at(rest, seq) {
            Some(call) => {
                let k = choose|k: int| 0 <= k < rest.len() && rest[k] == call;
                assert(calls[k] == call);
            },
            None => {
                assert forall|k: int| 0 <= k < calls.len() - 1 implies (#[trigger] calls[k]).seq
                    != seq by {
                    assert(rest[k] == calls[k]);
                }
            },
        }
    }
}

proof fn lemma_decision_found(decisions: Seq<DecisionModel>, seq: u64)
    ensures
        match decision_at(decisions, seq) {
            Some(decision) => decision.seq == seq && decisions.contains(decision),
            None => forall|k: int| 0 <= k < decisions.len() ==> (#[trigger] decisions[k]).seq != seq,
        },
    decreases decisions.len(),
{
    if decisions.len() > 0 {
        let rest = decisions.drop_last();
        lemma_decision_found(rest, seq);
        assert(decisions[decisions.len() - 1] == decisions.last());
        match decision_at(rest, seq) {
            Some(decision) => {
                let k = choose|k: int| 0 <= k < rest.len() && rest[k] == decision;
                assert(decisions[k] == decision);
            },
            None => {
                assert forall|k: int| 0 <= k < decisions.len() - 1 implies (
                #[trigger] decisions[k]).seq != seq by {
                    assert(rest[k] == decisions[k]);
                }
            },
        }
    }
}

/// The `k`-th decision, or the `k`-th tool call, is the one found under its number.
proof fn lemma_nodes_found(thread: CausalModel, k: int)
    requires
        is_numbered(thread),
    ensures
        0 <= k < thread.decisions.len() ==> decision_at(
            thread.decisions,
            thread.decisions[k].seq,
        ) == Some(thread.decisions[k]) && call_at(
            thread.tool_calls,
            thread.decisions[k].seq,
        ) is None,
        0 <= k < thread.tool_calls.len() ==> call_at(thread.tool_calls, thread.tool_calls[k].seq)
            == Some(thread.tool_calls[k]) && decision_at(
            thread.decisions,
            thread.tool_calls[k].seq,
        ) is None,
{
    if 0 <= k < thread.decisions.len() {
        let seq = thread.decisions[k].seq;
        lemma_decision_found(thread.decisions, seq);
        lemma_call_found(thread.tool_calls, seq);
        let node = decision_at(thread.decisions, seq)->0;
        let d = choose|d: int| 0 <= d < thread.decisions.len() && thread.decisions[d] == node;
        assert(thread.decisions[d].seq == thread.decisions[k].seq);
        if let Some(call) = call_at(thread.tool_calls, seq) {
            let c = choose|c: int| 0 <= c < thread.tool_calls.len() && thread.tool_calls[c] == call;
            assert(thread.decisions[k].seq != thread.tool_calls[c].seq);
        }
    }
    if 0 <= k < thread.tool_calls.len() {
        let seq = thread.tool_calls[k].seq;
        lemma_decision_found(thread.decisions, seq);
        lemma_call_found(thread.tool_calls, seq);
        let call = call_at(thread.tool_calls, seq)->0;
        let c = choose|c: int| 0 <= c < thread.tool_calls.len() && thread.tool_calls[c] == call;
        assert(thread.tool_calls[c].seq == thread.tool_calls[k].seq);
        if let Some(node) = decision_at(thread.decisions, seq) {
            let d = choose|d: int| 0 <= d < thread.decisions.len() && thread.decisions[d] == node;
            assert(thread.decisions[d].seq != thread.tool_calls[k].seq);
        }
    }
}

proof fn lemma_parents_recorded(thread: CausalModel, seq: u64, parent: u64)
    requires
        is_numbered(thread),
    ensures
        parents_of(thread, seq).contains(parent) <==> records_cause(thread, seq, parent),
{
    let parents = parents_of(thread, seq);
    if parents.contains(parent) {
        lemma_decision_found(thread.decisions, seq);
        lemma_call_found(thread.tool_calls, seq);
        let i = choose|i: int| 0 <= i < parents.len() && parents[i] == parent;
        if let Some(node) = decision_at(thread.decisions, seq) {
            let d = choose|d: int| 0 <= d < thread.decisions.len() && thread.decisions[d] == node;
            assert(thread.decisions[d].seq == seq);
        }
        if let Some(call) = call_at(thread.tool_calls, seq) {
            let c = choose|c: int| 0 <= c < thread.tool_calls.len() && thread.tool_calls[c] == call;
            assert(thread.tool_calls[c].seq == seq);
        }
    }
    if records_cause(thread, seq, parent) {
        if exists|k: int|
            0 <= k < thread.decisions.len() && (#[trigger] thread.decisions[k]).seq == seq
                && thread.decisions[k].caused_by == Some(parent) {
            let k = choose|k: int|
                0 <= k < thread.decisions.len() && (#[trigger] thread.decisions[k]).seq == seq
                    && thread.decisions[k].caused_by == Some(parent);
            lemma_nodes_found(thread, k);
            assert(parents[0] == parent);
        } else {
            let k = choose|k: int|
                0 <= k < thread.tool_calls.len() && (#[trigger] thread.tool_calls[k]).seq == seq
                    && thread.tool_calls[k].caused_by == Some(parent);
            lemma_nodes_found(thread, k);
            assert(parents[0] == parent);
        }
    }
}

/// What is reached was not visited before, is reached once, and traces back to the stack.
proof fn lemma_ancestry_sound(thread: CausalModel, stack: Seq<u64>, visited: Set<u64>)
    requires
        is_numbered(thread),
    ensures
        ancestry(thread, stack, visited).no_duplicates(),
        forall|seq: u64| #[trigger]
            ancestry(thread, stack, visited).contains(seq) ==> !visited.contains(seq) && exists|
                i: int,
            |
                0 <= i < stack.len() && traces_to(thread, #[trigger] stack[i], seq),
    decreases unseen(thread, visited), stack.len(),
{
    let order = ancestry(thread, stack, visited);
    if stack.len() == 0 {
        assert(order.len() == 0);
    } else {
        let top = stack.last();
        let rest = stack.drop_last();
        if visited.contains(top) {
            lemma_ancestry_sound(thread, rest, visited);
            assert forall|seq: u64| #[trigger] order.contains(seq) implies !visited.contains(seq)
                && exists|i: int| 0 <= i < stack.len() && traces_to(
                thread,
                #[trigger] stack[i],
                seq,
            ) by {
                let i = choose|i: int|
                    0 <= i < rest.len() && traces_to(thread, #[trigger] rest[i], seq);
                assert(traces_to(thread, stack[i], seq));
            }
        } else {
            lemma_unseen(thread, visited, top);
            let parents = parents_of(thread, top);
            let deeper = rest + parents;
            let tail = ancestry(thread, deeper, visited.insert(top));
            lemma_ancestry_sound(thread, deeper, visited.insert(top));
            assert(order == seq![top] + tail);
            lemma_traces_to_itself(thread, top);
            assert forall|seq: u64| #[trigger] order.contains(seq) implies !visited.contains(seq)
                && exists|i: int| 0 <= i < stack.len() && traces_to(
                thread,
                #[trigger] stack[i],
                seq,
            ) by {
                let at = choose|at: int| 0 <= at < order.len() && order[at] == seq;
                if at == 0 {
                    assert(traces_to(thread, stack[stack.len() - 1], seq));
                } else {
                    assert(tail[at - 1] == seq);
                    assert(tail.contains(seq));
                    let i = choose|i: int|
                        0 <= i < deeper.len() && traces_to(thread, #[trigger] deeper[i], seq);
                    if i < rest.len() {
                        assert(traces_to(thread, stack[i], seq));
                    } else {
                        let parent = deeper[i];
                        assert(parents[i - rest.len()] == parent);
                        assert(parents.contains(parent));
                        lemma_parents_recorded(thread, top, parent);
                        lemma_trail_begins_earlier(thread, top, parent, seq);
                        assert(traces_to(thread, stack[stack.len() - 1], seq));
                    }
                }
            }
            assert forall|i: int, j: int| 0 <= i < j < order.len() implies order[i] != order[j] by {
                assert(order[j] == tail[j - 1]);
                assert(tail.contains(order[j]));
                if i > 0 {
                    assert(order[i] == tail[i - 1]);
                }
            }
        }
    }
}

proof fn lemma_trail_begins_earlier(thread: CausalModel, from: u64, cause: u64, to: u64)
    requires
        records_cause(thread, from, cause),
        traces_to(thread, cause, to),
    ensures
        traces_to(thread, from, to),
{
    let rest = choose|trail: Seq<u64>| #[trigger]
        is_trail(thread, trail) && trail[0] == cause && trail.last() == to;
    let trail = seq![from] + rest;
    assert forall|i: int, j: int| 0 <= i && j == i + 1 && j < trail.len() implies records_cause(
        thread,
        #[trigger] trail[i],
        #[trigger] trail[j],
    ) by {
        assert(trail[j] == rest[j - 1]);
        if i > 0 {
            assert(trail[i] == rest[i - 1]);
            assert(records_cause(thread, rest[i - 1], rest[j - 1]));
        }
    }
    assert(is_trail(thread, trail) && trail[0] == from && trail.last() == to);
}

proof fn lemma_trail_is_reached(thread: CausalModel, trail: Seq<u64>, n: int)
    requires
        is_numbered(thread),
        is_trail(thread, trail),
        0 <= n < trail.len(),
    ensures
        ancestry(thread, seq![trail[0]], Set::empty()).contains(trail[n]),
    decreases n,
{
    law_causes_are_reached(thread, trail[0]);
    if n > 0 {
        lemma_trail_is_reached(thread, trail, n - 1);
        assert(records_cause(thread, trail[n - 1], trail[n]));
        lemma_parents_recorded(thread, trail[n - 1], trail[n]);
    }
}

/// Going from effect to cause reaches exactly the events that a trail of recorded causes
/// leads to, through decisions and tool calls alike, each once.
pub proof fn law_trails_are_followed(thread: CausalModel, start: u64, seq: u64)
    requires
        is_numbered(thread),
    ensures
        ancestry(thread, seq![start], Set::empty()).contains(seq) <==> traces_to(
            thread,
            start,
            seq,
        ),
        ancestry(thread, seq![start], Set::empty()).no_duplicates(),
{
    let order = ancestry(thread, seq![start], Set::empty());
    lemma_ancestry_sound(thread, seq![start], Set::empty());
    if order.contains(seq) {
        let i = choose|i: int|
            0 <= i < seq![start].len() && traces_to(thread, #[trigger] seq![start][i], seq);
        assert(seq![start][i] == start);
    }
    if traces_to(thread, start, seq) {
        let trail = choose|trail: Seq<u64>| #[trigger]
            is_trail(thread, trail) && trail[0] == start && trail.last() == seq;
        lemma_trail_is_reached(thread, trail, trail.len() - 1);
    }
}

/// With every event that is reached its recorded cause is reached, whether the event is a
/// decision or a tool call.
pub proof fn law_recorded_causes_are_reached(thread: CausalModel, start: u64, cause: u64)
    requires
        is_numbered(thread),
    ensures
        ({
            let reached = ancestry(thread, seq![start], Set::empty());
            &&& reached.contains(start)
            &&& forall|k: int|
                0 <= k < thread.decisions.len() && reached.contains(
                    (#[trigger] thread.decisions[k]).seq,
                ) && thread.decisions[k].caused_by == Some(cause) ==> reached.contains(cause)
            &&& forall|k: int|
                0 <= k < thread.tool_calls.len() && reached.contains(
                    (#[trigger] thread.tool_calls[k]).seq,
                ) && thread.tool_calls[k].caused_by == Some(cause) ==> reached.contains(cause)
        }),
{
    let reached = ancestry(thread, seq![start], Set::empty());
    law_causes_are_reached(thread, start);
    assert forall|k: int|
        0 <= k < thread.decisions.len() && reached.contains((#[trigger] thread.decisions[k]).seq)
            && thread.decisions[k].caused_by == Some(cause) implies reached.contains(cause) by {
        lemma_parents_recorded(thread, thread.decisions[k].seq, cause);
        assert(records_cause(thread, thread.decisions[k].seq, cause));
    }
    assert forall|k: int|
        0 <= k < thread.tool_calls.len() && reached.contains((#[trigger] thread.tool_calls[k]).seq)
            && thread.tool_calls[k].caused_by == Some(cause) implies reached.contains(cause) by {
        lemma_parents_recorded(thread, thread.tool_calls[k].seq, cause);
        assert(records_cause(thread, thread.tool_calls[k].seq, cause));
    }
}

/// An item shows an event: a decision or a tool call.
pub open spec fn shows(item: ItemModel, seq: u64) -> bool {
    ||| item is Decision && item->Decision_seq == seq
    ||| item is ToolCall && item->ToolCall_seq == seq
}

/// An item is true to the thread: a decision has the words of the decision, and a tool call
/// tells the tool and its outcome.
pub open spec fn is_true_to(item: ItemModel, thread: CausalModel) -> bool {
    &&& item is Decision ==> exists|k: int|
        0 <= k < thread.decisions.len() && (#[trigger] thread.decisions[k]).seq
            == item->Decision_seq && thread.decisions[k].description == item->Decision_text
    &&& item is ToolCall ==> exists|k: int|
        0 <= k < thread.tool_calls.len() && (#[trigger] thread.tool_calls[k]).seq
            == item->ToolCall_seq && item->ToolCall_text == thread.tool_calls[k].tool + " -> "@
            + outcome_text(thread.tool_calls[k].outcome)
}

/// The items are true to the thread, and no event is shown twice.
pub open spec fn are_true_to(items: Seq<ItemModel>, thread: CausalModel) -> bool {
    &&& forall|i: int| 0 <= i < items.len() ==> is_true_to(#[trigger] items[i], thread)
    &&& forall|i: int, j: int, seq: u64|
        0 <= i < j < items.len() ==> !(#[trigger] shows(items[i], seq) && #[trigger] shows(
            items[j],
            seq,
        ))
}

/// Some item shows the event.
pub open spec fn is_shown(items: Seq<ItemModel>, seq: u64) -> bool {
    exists|i: int| 0 <= i < items.len() && shows(#[trigger] items[i], seq)
}

/// What was picked is true to the thread, and the events noted are those that are shown.
spec fn is_sound(picked: Picked, thread: CausalModel) -> bool {
    &&& are_true_to(picked.items, thread)
    &&& forall|seq: u64| #[trigger] picked.included.contains(seq) <==> is_shown(picked.items, seq)
}

proof fn lemma_with_sound(picked: Picked, thread: CausalModel, seq: u64, item: ItemModel)
    requires
        is_sound(picked, thread),
        is_true_to(item, thread),
        forall|other: u64| #[trigger] shows(item, other) <==> other == seq,
    ensures
        is_sound(picked.with(seq, item), thread),
        picked.items.is_prefix_of(picked.with(seq, item).items),
        is_shown(picked.with(seq, item).items, seq),
{
    let after = picked.with(seq, item);
    if !picked.included.contains(seq) {
        assert forall|i: int, j: int, other: u64| 0 <= i < j < after.items.len() implies !(
        #[trigger] shows(after.items[i], other) && #[trigger] shows(after.items[j], other)) by {
            if j == picked.items.len() && shows(after.items[i], other) && shows(
                after.items[j],
                other,
            ) {
                assert(shows(picked.items[i], other));
                assert(is_shown(picked.items, other));
            }
        }
        assert forall|other: u64| #[trigger] after.included.contains(other) <==> is_shown(
            after.items,
            other,
        ) by {
            assert(picked.included.contains(other) <==> is_shown(picked.items, other));
            if is_shown(picked.items, other) {
                let i = choose|i: int|
                    0 <= i < picked.items.len() && shows(#[trigger] picked.items[i], other);
                assert(shows(after.items[i], other));
            }
            if is_shown(after.items, other) {
                let i = choose|i: int|
                    0 <= i < after.items.len() && shows(#[trigger] after.items[i], other);
                if i < picked.items.len() {
                    assert(shows(picked.items[i], other));
                }
            }
            assert(after.items[picked.items.len() as int] == item);
        }
        assert(shows(after.items[picked.items.len() as int], seq));
    } else {
        assert(is_shown(picked.items, seq));
    }
}

proof fn lemma_push_unseen(picked: Picked, thread: CausalModel, item: ItemModel)
    requires
        is_sound(picked, thread),
        !(item is Decision),
        !(item is ToolCall),
    ensures
        is_sound(Picked { items: picked.items.push(item), included: picked.included }, thread),
{
    let items = picked.items.push(item);
    assert forall|seq: u64| #[trigger] picked.included.contains(seq) <==> is_shown(items, seq) by {
        if is_shown(picked.items, seq) {
            let i = choose|i: int|
                0 <= i < picked.items.len() && shows(#[trigger] picked.items[i], seq);
            assert(shows(items[i], seq));
        }
        if is_shown(items, seq) {
            let i = choose|i: int| 0 <= i < items.len() && shows(#[trigger] items[i], seq);
            assert(shows(picked.items[i], seq));
        }
    }
    assert forall|i: int, j: int, other: u64| 0 <= i < j < items.len() implies !(#[trigger] shows(
        items[i],
        other,
    ) && #[trigger] shows(items[j], other)) by {
        if j < picked.items.len() {
            assert(!(shows(picked.items[i], other) && shows(picked.items[j], other)));
        }
    }
}

proof fn lemma_decision_item(thread: CausalModel, decision: DecisionModel, item: ItemModel)
    requires
        thread.decisions.contains(decision),
        item is Decision,
        item->Decision_seq == decision.seq,
        item->Decision_text == decision.description,
    ensures
        is_true_to(item, thread),
        forall|other: u64| #[trigger] shows(item, other) <==> other == decision.seq,
{
    let k = choose|k: int| 0 <= k < thread.decisions.len() && thread.decisions[k] == decision;
    assert(thread.decisions[k].seq == item->Decision_seq);
}

proof fn lemma_anchored_sound(picked: Picked, thread: CausalModel, seq: u64)
    requires
        is_sound(picked, thread),
    ensures
        is_sound(anchored(picked, thread, seq), thread),
        picked.items.is_prefix_of(anchored(picked, thread, seq).items),
        forall|other: u64| #[trigger]
            is_shown(anchored(picked, thread, seq).items, other) ==> other == seq || is_shown(
                picked.items,
                other,
            ),
{
    lemma_decision_found(thread.decisions, seq);
    lemma_call_found(thread.tool_calls, seq);
    let first = match decision_at(thread.decisions, seq) {
        Some(decision) => {
            let item = ItemModel::Decision {
                seq,
                phase: decision.phase,
                text: decision.description,
            };
            lemma_decision_item(thread, decision, item);
            lemma_with_sound(picked, thread, seq, item);
            picked.with(seq, item)
        },
        None => picked,
    };
    assert forall|other: u64| #[trigger] is_shown(first.items, other) implies other == seq
        || is_shown(picked.items, other) by {
        assert(first.included.contains(other));
        if other != seq {
            assert(picked.included.contains(other));
        }
    }
    match call_at(thread.tool_calls, seq) {
        Some(call) => {
            let item = ItemModel::ToolCall {
                seq,
                phase: None,
                text: call.tool + " -> "@ + outcome_text(call.outcome),
            };
            let k = choose|k: int| 0 <= k < thread.tool_calls.len() && thread.tool_calls[k] == call;
            assert(thread.tool_calls[k].seq == item->ToolCall_seq);
            assert(is_true_to(item, thread));
            lemma_with_sound(first, thread, seq, item);
            let last = first.with(seq, item);
            assert forall|other: u64| #[trigger] is_shown(last.items, other) implies other == seq
                || is_shown(picked.items, other) by {
                assert(last.included.contains(other));
                if other != seq {
                    assert(first.included.contains(other));
                }
            }
        },
        None => {},
    }
}

/// The item for the decision or the tool call of a sequence number.
spec fn has_node_item(items: Seq<ItemModel>, thread: CausalModel, seq: u64) -> bool {
    &&& decision_at(thread.decisions, seq) matches Some(decision) ==> items.contains(
        ItemModel::Decision { seq, phase: decision.phase, text: decision.description },
    )
    &&& decision_at(thread.decisions, seq) is None && call_at(
        thread.tool_calls,
        seq,
    ) is Some ==> items.contains(
        ItemModel::ToolCall {
            seq,
            phase: None,
            text: call_at(thread.tool_calls, seq)->0.tool + " -> "@ + outcome_text(
                call_at(thread.tool_calls, seq)->0.outcome,
            ),
        },
    )
}

proof fn lemma_contains_grows(short: Seq<ItemModel>, long: Seq<ItemModel>, item: ItemModel)
    requires
        short.is_prefix_of(long),
        short.contains(item),
    ensures
        long.contains(item),
{
    let i = choose|i: int| 0 <= i < short.len() && short[i] == item;
    assert(long[i] == item);
}

proof fn lemma_all_anchored(picked: Picked, thread: CausalModel, order: Seq<u64>)
    requires
        is_sound(picked, thread),
        order.no_duplicates(),
        forall|seq: u64| !#[trigger] is_shown(picked.items, seq),
    ensures
        is_sound(all_anchored(picked, thread, order), thread),
        forall|seq: u64| #[trigger]
            is_shown(all_anchored(picked, thread, order).items, seq) ==> order.contains(seq),
        forall|i: int|
            0 <= i < order.len() ==> has_node_item(
                all_anchored(picked, thread, order).items,
                thread,
                #[trigger] order[i],
            ),
    decreases order.len(),
{
    if order.len() > 0 {
        let rest = order.drop_last();
        let seq = order.last();
        let before = all_anchored(picked, thread, rest);
        let after = all_anchored(picked, thread, order);
        lemma_all_anchored(picked, thread, rest);
        lemma_anchored_sound(before, thread, seq);
        if rest.contains(seq) {
            let i = choose|i: int| 0 <= i < rest.len() && rest[i] == seq;
            assert(order[i] == order[order.len() - 1]);
        }
        assert(!is_shown(before.items, seq));
        assert(!before.included.contains(seq));
        assert forall|i: int| 0 <= i < order.len() implies has_node_item(
            after.items,
            thread,
            #[trigger] order[i],
        ) by {
            if i < rest.len() {
                let other = rest[i];
                assert(has_node_item(before.items, thread, rest[i]));
                if let Some(decision) = decision_at(thread.decisions, other) {
                    lemma_contains_grows(
                        before.items,
                        after.items,
                        ItemModel::Decision {
                            seq: other,
                            phase: decision.phase,
                            text: decision.description,
                        },
                    );
                } else if let Some(call) = call_at(thread.tool_calls, other) {
                    lemma_contains_grows(
                        before.items,
                        after.items,
                        ItemModel::ToolCall {
                            seq: other,
                            phase: None,
                            text: call.tool + " -> "@ + outcome_text(call.outcome),
                        },
                    );
                }
            } else {
                let n = before.items.len() as int;
                if let Some(decision) = decision_at(thread.decisions, seq) {
                    assert(after.items[n] == (ItemModel::Decision {
                        seq,
                        phase: decision.phase,
                        text: decision.description,
                    }));
                } else if let Some(call) = call_at(thread.tool_calls, seq) {
                    assert(after.items[n] == (ItemModel::ToolCall {
                        seq,
                        phase: None,
                        text: call.tool + " -> "@ + outcome_text(call.outcome),
                    }));
                }
            }
        }
        assert forall|other: u64| #[trigger] is_shown(after.items, other) implies order.contains(
            other,
        ) by {
            if other == seq {
                assert(order[order.len() - 1] == seq);
            } else {
                assert(is_shown(before.items, other));
                let i = choose|i: int| 0 <= i < rest.len() && rest[i] == other;
                assert(order[i] == other);
            }
        }
    }
}

proof fn lemma_prefix_shown(short: Seq<ItemModel>, long: Seq<ItemModel>, seq: u64)
    requires
        short.is_prefix_of(long),
        is_shown(short, seq),
    ensures
        is_shown(long, seq),
{
    let i = choose|i: int| 0 <= i < short.len() && shows(#[trigger] short[i], seq);
    assert(long[i] == short[i]);
}

proof fn lemma_group_sound(
    picked: Picked,
    thread: CausalModel,
    group: Seq<DecisionModel>,
    phase: Option<Seq<char>>,
)
    requires
        is_sound(picked, thread),
        forall|k: int| 0 <= k < group.len() ==> thread.decisions.contains(#[trigger] group[k]),
    ensures
        is_sound(group_picked(picked, group, phase), thread),
        picked.items.is_prefix_of(group_picked(picked, group, phase).items),
        forall|k: int|
            0 <= k < group.len() ==> is_shown(
                group_picked(picked, group, phase).items,
                (#[trigger] group[k]).seq,
            ),
        forall|i: int|
            picked.items.len() <= i < group_picked(picked, group, phase).items.len()
                ==> #[trigger] group_picked(picked, group, phase).items[i] is Decision,
    decreases group.len(),
{
    if group.len() > 0 {
        let rest = group.drop_last();
        let decision = group.last();
        let before = group_picked(picked, rest, phase);
        let after = group_picked(picked, group, phase);
        assert forall|k: int| 0 <= k < rest.len() implies thread.decisions.contains(
            #[trigger] rest[k],
        ) by {
            assert(rest[k] == group[k]);
        }
        lemma_group_sound(picked, thread, rest, phase);
        assert(group[group.len() - 1] == decision);
        let item = ItemModel::Decision { seq: decision.seq, phase, text: decision.description };
        lemma_decision_item(thread, decision, item);
        lemma_with_sound(before, thread, decision.seq, item);
        assert forall|k: int| 0 <= k < group.len() implies is_shown(
            after.items,
            (#[trigger] group[k]).seq,
        ) by {
            if k < rest.len() {
                assert(rest[k] == group[k]);
                lemma_prefix_shown(before.items, after.items, rest[k].seq);
            }
        }
        assert forall|i: int| picked.items.len() <= i < after.items.len() implies
            #[trigger] after.items[i] is Decision by {
            if i < before.items.len() {
                assert(before.items[i] is Decision);
            }
        }
    }
}

/// The item that sums up a phase.
pub open spec fn summary_of(
    decisions: Seq<DecisionModel>,
    phase: Seq<char>,
    first: u64,
) -> ItemModel {
    let count = decisions.filter(|decision: DecisionModel| decision.phase == Some(phase)).len();
    ItemModel::PhaseSummary {
        phase,
        text: "Phase "@ + phase + " completed with "@ + decimal(count) + " decisions"@,
        key_decisions: seq![first],
    }
}

/// The `k`-th decision is the first of its phase.
pub open spec fn begins_phase(decisions: Seq<DecisionModel>, phase: Seq<char>, k: int) -> bool {
    &&& 0 <= k < decisions.len()
    &&& decisions[k].phase == Some(phase)
    &&& forall|j: int| 0 <= j < k ==> (#[trigger] decisions[j]).phase != Some(phase)
}

proof fn lemma_same_filter(
    decisions: Seq<DecisionModel>,
    a: spec_fn(DecisionModel) -> bool,
    b: spec_fn(DecisionModel) -> bool,
)
    requires
        forall|decision: DecisionModel| #[trigger] a(decision) == b(decision),
    ensures
        decisions.filter(a) == decisions.filter(b),
    decreases decisions.len(),
{
    reveal(Seq::filter);
    if decisions.len() > 0 {
        lemma_same_filter(decisions.drop_last(), a, b);
        assert(a(decisions.last()) == b(decisions.last()));
    }
}

proof fn lemma_first_kept(
    decisions: Seq<DecisionModel>,
    keep: spec_fn(DecisionModel) -> bool,
    k: int,
)
    requires
        0 <= k < decisions.len(),
        keep(decisions[k]),
        forall|j: int| 0 <= j < k ==> !keep(#[trigger] decisions[j]),
    ensures
        decisions.filter(keep).len() > 0,
        decisions.filter(keep)[0] == decisions[k],
    decreases decisions.len(),
{
    reveal(Seq::filter);
    let rest = decisions.drop_last();
    assert(decisions =~= rest.push(decisions.last()));
    lemma_filter_push(rest, decisions.last(), keep);
    if k < rest.len() {
        assert(rest[k] == decisions[k]);
        assert forall|j: int| 0 <= j < k implies !keep(#[trigger] rest[j]) by {
            assert(rest[j] == decisions[j]);
        }
        lemma_first_kept(rest, keep, k);
    } else {
        lemma_filter_has(rest, keep);
        if rest.filter(keep).len() > 0 {
            let kept = rest.filter(keep)[0];
            assert(rest.filter(keep).contains(kept));
            let j = choose|j: int| 0 <= j < rest.len() && rest[j] == kept;
            assert(decisions[j] == kept);
        }
    }
}

proof fn lemma_phase_sound(
    picked: Picked,
    thread: CausalModel,
    phase: Seq<char>,
    current: Seq<char>,
    compress: bool,
)
    requires
        is_sound(picked, thread),
        has_phase(thread.decisions, phase, current),
    ensures
        ({
            let after = phase_picked(picked, thread.decisions, phase, current, compress);
            &&& is_sound(after, thread)
            &&& picked.items.is_prefix_of(after.items)
            &&& phase == current ==> forall|k: int|
                0 <= k < thread.decisions.len() && ((#[trigger] thread.decisions[k]).phase is None
                    || thread.decisions[k].phase == Some(current)) ==> is_shown(
                    after.items,
                    thread.decisions[k].seq,
                )
            &&& phase != current && compress ==> exists|k: int|
                #[trigger] begins_phase(thread.decisions, phase, k) && after.items.contains(
                    summary_of(thread.decisions, phase, thread.decisions[k].seq),
                ) && is_shown(after.items, thread.decisions[k].seq)
            &&& forall|i: int|
                picked.items.len() <= i < after.items.len() ==> {
                    ||| #[trigger] after.items[i] is Decision
                    ||| compress && phase != current && after.items[i] is PhaseSummary
                        && after.items[i]->PhaseSummary_phase == phase
                }
        }),
{
    let keep = in_phase(phase, current);
    let group = thread.decisions.filter(keep);
    let after = phase_picked(picked, thread.decisions, phase, current, compress);
    lemma_filter_has(thread.decisions, keep);
    assert forall|k: int| 0 <= k < group.len() implies thread.decisions.contains(
        #[trigger] group[k],
    ) by {
        assert(group.contains(group[k]));
    }
    if phase == current {
        let label = if current.len() == 0 {
            None
        } else {
            Some(current)
        };
        lemma_group_sound(picked, thread, group, label);
        assert forall|k: int|
            0 <= k < thread.decisions.len() && ((#[trigger] thread.decisions[k]).phase is None
                || thread.decisions[k].phase == Some(current)) implies is_shown(
            after.items,
            thread.decisions[k].seq,
        ) by {
            assert(thread.decisions.contains(thread.decisions[k]));
            assert(keep(thread.decisions[k]));
            assert(group.contains(thread.decisions[k]));
            let j = choose|j: int| 0 <= j < group.len() && group[j] == thread.decisions[k];
            assert(is_shown(after.items, group[j].seq));
        }
    } else if compress {
        let some = choose|k: int|
            0 <= k < thread.decisions.len() && phase_of(#[trigger] thread.decisions[k], current)
                == phase;
        let k = lemma_some_begins(thread.decisions, phase, some);
        assert forall|j: int| 0 <= j < k implies !keep(#[trigger] thread.decisions[j]) by {
            assert(thread.decisions[j].phase != Some(phase));
        }
        lemma_first_kept(thread.decisions, keep, k);
        let by_name = |decision: DecisionModel| decision.phase == Some(phase);
        assert forall|decision: DecisionModel| #[trigger] keep(decision) == by_name(decision) by {
        }
        lemma_same_filter(thread.decisions, keep, by_name);
        let key = group[0].seq;
        let item = ItemModel::Decision {
            seq: key,
            phase: Some(phase),
            text: group[0].description,
        };
        assert(thread.decisions.contains(group[0]));
        lemma_decision_item(thread, group[0], item);
        lemma_with_sound(picked, thread, key, item);
        let first = picked.with(key, item);
        let summary = summary_of(thread.decisions, phase, key);
        lemma_push_unseen(first, thread, summary);
        assert(after.items =~= first.items.push(summary));
        assert(after.items[first.items.len() as int] == summary);
        lemma_prefix_shown(first.items, after.items, key);
        assert(begins_phase(thread.decisions, phase, k));
    }
}

proof fn lemma_some_begins(decisions: Seq<DecisionModel>, phase: Seq<char>, some: int) -> (k: int)
    requires
        0 <= some < decisions.len(),
        decisions[some].phase == Some(phase),
    ensures
        begins_phase(decisions, phase, k),
    decreases some,
{
    if forall|j: int| 0 <= j < some ==> (#[trigger] decisions[j]).phase != Some(phase) {
        some
    } else {
        let j = choose|j: int| 0 <= j < some && (#[trigger] decisions[j]).phase == Some(phase);
        lemma_some_begins(decisions, phase, j)
    }
}

proof fn lemma_phases_sound(
    picked: Picked,
    thread: CausalModel,
    phases: Seq<(Seq<char>, bool)>,
    current: Seq<char>,
    compress: bool,
)
    requires
        is_sound(picked, thread),
        forall|p: int|
            0 <= p < phases.len() ==> has_phase(
                thread.decisions,
                (#[trigger] phases[p]).0,
                current,
            ),
    ensures
        ({
            let after = phases_picked(picked, thread.decisions, phases, current, compress);
            &&& is_sound(after, thread)
            &&& picked.items.is_prefix_of(after.items)
            &&& forall|p: int, k: int|
                0 <= p < phases.len() && (#[trigger] phases[p]).0 == current && 0 <= k
                    < thread.decisions.len() && ((#[trigger] thread.decisions[k]).phase is None
                    || thread.decisions[k].phase == Some(current)) ==> is_shown(
                    after.items,
                    thread.decisions[k].seq,
                )
            &&& forall|p: int|
                0 <= p < phases.len() && (#[trigger] phases[p]).0 != current && compress ==> exists|
                    k: int,
                |
                    #[trigger] begins_phase(thread.decisions, phases[p].0, k)
                        && after.items.contains(
                        summary_of(thread.decisions, phases[p].0, thread.decisions[k].seq),
                    ) && is_shown(after.items, thread.decisions[k].seq)
            &&& forall|i: int|
                picked.items.len() <= i < after.items.len() ==> {
                    ||| #[trigger] after.items[i] is Decision
                    ||| compress && after.items[i] is PhaseSummary
                        && after.items[i]->PhaseSummary_phase != current && has_phase(
                        thread.decisions,
                        after.items[i]->PhaseSummary_phase,
                        current,
                    )
                }
        }),
    decreases phases.len(),
{
    if phases.len() > 0 {
        let rest = phases.drop_last();
        let phase = phases.last().0;
        assert(phases[phases.len() - 1].0 == phase);
        let before = phases_picked(picked, thread.decisions, rest, current, compress);
        let after = phases_picked(picked, thread.decisions, phases, current, compress);
        assert forall|p: int| 0 <= p < rest.len() implies has_phase(
            thread.decisions,
            (#[trigger] rest[p]).0,
            current,
        ) by {
            assert(rest[p] == phases[p]);
        }
        lemma_phases_sound(picked, thread, rest, current, compress);
        lemma_phase_sound(before, thread, phase, current, compress);
        assert forall|p: int, k: int|
            0 <= p < phases.len() && (#[trigger] phases[p]).0 == current && 0 <= k
                < thread.decisions.len() && ((#[trigger] thread.decisions[k]).phase is None
                || thread.decisions[k].phase == Some(current)) implies is_shown(
            after.items,
            thread.decisions[k].seq,
        ) by {
            if p < rest.len() {
                assert(rest[p] == phases[p]);
                lemma_prefix_shown(before.items, after.items, thread.decisions[k].seq);
            }
        }
        assert forall|p: int|
            0 <= p < phases.len() && (#[trigger] phases[p]).0 != current && compress implies exists|
            k: int,
        |
            #[trigger] begins_phase(thread.decisions, phases[p].0, k) && after.items.contains(
                summary_of(thread.decisions, phases[p].0, thread.decisions[k].seq),
            ) && is_shown(after.items, thread.decisions[k].seq) by {
            if p < rest.len() {
                assert(rest[p] == phases[p]);
                let k = choose|k: int|
                    #[trigger] begins_phase(thread.decisions, rest[p].0, k)
                        && before.items.contains(
                        summary_of(thread.decisions, rest[p].0, thread.decisions[k].seq),
                    ) && is_shown(before.items, thread.decisions[k].seq);
                lemma_contains_grows(
                    before.items,
                    after.items,
                    summary_of(thread.decisions, rest[p].0, thread.decisions[k].seq),
                );
                lemma_prefix_shown(before.items, after.items, thread.decisions[k].seq);
                assert(begins_phase(thread.decisions, phases[p].0, k));
            }
        }
        assert forall|i: int| picked.items.len() <= i < after.items.len() implies {
            ||| #[trigger] after.items[i] is Decision
            ||| compress && after.items[i] is PhaseSummary && after.items[i]->PhaseSummary_phase
                != current && has_phase(
                thread.decisions,
                after.items[i]->PhaseSummary_phase,
                current,
            )
        } by {
            if i < before.items.len() {
                assert(after.items[i] == before.items[i]);
            }
        }
    }
}

proof fn lemma_phases_listed(decisions: Seq<DecisionModel>, current: Seq<char>)
    ensures
        forall|phase: Seq<char>| #[trigger]
            has_phase(decisions, phase, current) <==> exists|p: int|
                0 <= p < phases_in_order(decisions, current).len() && (
                #[trigger] phases_in_order(decisions, current)[p]).0 == phase,
{
    let names = Seq::new(decisions.len(), |k: int| phase_of(decisions[k], current));
    let set = phase_set(decisions, current);
    assert forall|phase: Seq<char>| set.dom().contains(phase) == names.to_set().contains(phase) by {
        if has_phase(decisions, phase, current) {
            let k = choose|k: int|
                0 <= k < decisions.len() && phase_of(#[trigger] decisions[k], current) == phase;
            assert(names[k] == phase);
        }
        if names.contains(phase) {
            let k = choose|k: int| 0 <= k < names.len() && names[k] == phase;
            assert(phase_of(decisions[k], current) == phase);
        }
    }
    assert(set.dom() =~= names.to_set());
    vstd::seq_lib::seq_to_set_is_finite(names);
    lemma_finite_rows::<String, bool>(set);
    assert forall|phase: Seq<char>| #[trigger] has_phase(decisions, phase, current) <==> exists|
        p: int,
    |
        0 <= p < phases_in_order(decisions, current).len() && (
        #[trigger] phases_in_order(decisions, current)[p]).0 == phase by {
        lemma_map_of_domain(phases_in_order(decisions, current), phase);
        assert(set.contains_key(phase) <==> has_phase(decisions, phase, current));
    }
}

/// The `c`-th decision is the last one that speaks of the objective, whatever the letter
/// case.
pub open spec fn is_current(
    decisions: Seq<DecisionModel>,
    objective: Seq<char>,
    c: int,
) -> bool {
    &&& 0 <= c < decisions.len()
    &&& text_has(lowercase(decisions[c].description), lowercase(objective))
    &&& forall|j: int|
        c < j < decisions.len() ==> !text_has(
            lowercase((#[trigger] decisions[j]).description),
            lowercase(objective),
        )
}

proof fn lemma_current(decisions: Seq<DecisionModel>, objective: Seq<char>, c: int)
    requires
        is_current(decisions, objective, c),
    ensures
        current_objective(decisions, objective) == Some(decisions[c].seq),
    decreases decisions.len(),
{
    if c < decisions.len() - 1 {
        let rest = decisions.drop_last();
        assert(!speaks_of(decisions[decisions.len() - 1], objective));
        assert(rest[c] == decisions[c]);
        assert forall|j: int| c < j < rest.len() implies !text_has(
            lowercase((#[trigger] rest[j]).description),
            lowercase(objective),
        ) by {
            assert(rest[j] == decisions[j]);
        }
        lemma_current(rest, objective, c);
    }
}

proof fn lemma_start_sound(thread: CausalModel)
    ensures
        is_sound(
            Picked { items: anomaly_items(thread.anomalies), included: Set::empty() },
            thread,
        ),
        forall|seq: u64| !#[trigger] is_shown(anomaly_items(thread.anomalies), seq),
{
}

/// What was picked before the phases.
spec fn anchors_picked(thread: CausalModel, request: AgentContextRequest) -> Picked {
    let first = Picked { items: anomaly_items(thread.anomalies), included: Set::empty() };
    match current_objective(thread.decisions, request.current_objective@) {
        Some(seq) => if request.strategy.causal_anchors {
            all_anchored(first, thread, ancestry(thread, seq![seq], Set::empty()))
        } else {
            first
        },
        None => first,
    }
}

proof fn lemma_context_sound(thread: CausalModel, request: AgentContextRequest)
    requires
        is_numbered(thread),
    ensures
        is_sound(anchors_picked(thread, request), thread),
        is_sound(thread_picked(thread, request), thread),
        anchors_picked(thread, request).items.is_prefix_of(thread_picked(thread, request).items),
        forall|i: int|
            anchors_picked(thread, request).items.len() <= i < thread_picked(
                thread,
                request,
            ).items.len() ==> {
                let item = #[trigger] thread_picked(thread, request).items[i];
                ||| item is Decision
                ||| request.strategy.compress_completed_phases && item is PhaseSummary
                    && item->PhaseSummary_phase != request.current_phase@ && has_phase(
                    thread.decisions,
                    item->PhaseSummary_phase,
                    request.current_phase@,
                )
            },
        forall|k: int|
            0 <= k < thread.decisions.len() && ((#[trigger] thread.decisions[k]).phase is None
                || thread.decisions[k].phase == Some(request.current_phase@)) ==> is_shown(
                thread_picked(thread, request).items,
                thread.decisions[k].seq,
            ),
        forall|phase: Seq<char>| #[trigger]
            has_phase(thread.decisions, phase, request.current_phase@) && phase
                != request.current_phase@ && request.strategy.compress_completed_phases ==> exists|
                k: int,
            |
                #[trigger] begins_phase(thread.decisions, phase, k) && thread_picked(
                    thread,
                    request,
                ).items.contains(summary_of(thread.decisions, phase, thread.decisions[k].seq))
                    && is_shown(thread_picked(thread, request).items, thread.decisions[k].seq),
{
    let first = Picked { items: anomaly_items(thread.anomalies), included: Set::empty() };
    let second = anchors_picked(thread, request);
    let current = request.current_phase@;
    let compress = request.strategy.compress_completed_phases;
    let phases = phases_in_order(thread.decisions, current);
    let after = thread_picked(thread, request);
    lemma_start_sound(thread);
    if let Some(seq) = current_objective(thread.decisions, request.current_objective@) {
        if request.strategy.causal_anchors {
            law_trails_are_followed(thread, seq, seq);
            lemma_all_anchored(first, thread, ancestry(thread, seq![seq], Set::empty()));
        }
    }
    lemma_phases_listed(thread.decisions, current);
    assert forall|p: int| 0 <= p < phases.len() implies has_phase(
        thread.decisions,
        (#[trigger] phases[p]).0,
        current,
    ) by {
        assert(phases_in_order(thread.decisions, current)[p].0 == phases[p].0);
    }
    lemma_phases_sound(second, thread, phases, current, compress);
    assert(after == phases_picked(second, thread.decisions, phases, current, compress));
    assert forall|k: int|
        0 <= k < thread.decisions.len() && ((#[trigger] thread.decisions[k]).phase is None
            || thread.decisions[k].phase == Some(current)) implies is_shown(
        after.items,
        thread.decisions[k].seq,
    ) by {
        assert(phase_of(thread.decisions[k], current) == current);
        assert(has_phase(thread.decisions, current, current));
        let p = choose|p: int| 0 <= p < phases.len() && (#[trigger] phases[p]).0 == current;
        assert(phases[p].0 == current);
    }
    assert forall|phase: Seq<char>| #[trigger]
        has_phase(thread.decisions, phase, current) && phase != current && compress implies exists|
        k: int,
    |
        #[trigger] begins_phase(thread.decisions, phase, k) && after.items.contains(
            summary_of(thread.decisions, phase, thread.decisions[k].seq),
        ) && is_shown(after.items, thread.decisions[k].seq) by {
        let p = choose|p: int| 0 <= p < phases.len() && (#[trigger] phases[p]).0 == phase;
        assert(phases[p].0 != current);
    }
}

proof fn lemma_candidates_prefix(
    thread: CausalModel,
    request: AgentContextRequest,
    episodes: Seq<EpisodeModel>,
)
    ensures
        thread_picked(thread, request).items.is_prefix_of(candidates(thread, request, episodes)),
{
}

/// A context is true to the thread: every decision and tool call that it can show is one of
/// the thread, in its own words, and none is shown twice.
pub proof fn law_context_is_true_to_the_thread(
    thread: CausalModel,
    request: AgentContextRequest,
    episodes: Seq<EpisodeModel>,
)
    requires
        is_numbered(thread),
    ensures
        are_true_to(candidates(thread, request, episodes), thread),
{
    lemma_context_sound(thread, request);
    let items = thread_picked(thread, request).items;
    let all = candidates(thread, request, episodes);
    assert forall|i: int| 0 <= i < all.len() implies is_true_to(#[trigger] all[i], thread) by {
        if i < items.len() {
            assert(all[i] == items[i]);
        }
    }
    assert forall|i: int, j: int, seq: u64| 0 <= i < j < all.len() implies !(#[trigger] shows(
        all[i],
        seq,
    ) && #[trigger] shows(all[j], seq)) by {
        if j < items.len() {
            assert(!(shows(items[i], seq) && shows(items[j], seq)));
        }
    }
}

/// Where anchors are asked for, a context can show everything that led to the current
/// objective: each decision and each tool call on a trail of recorded causes that begins at
/// the last decision that speaks of it.
pub proof fn law_context_shows_what_led_to_the_objective(
    thread: CausalModel,
    request: AgentContextRequest,
    episodes: Seq<EpisodeModel>,
    c: int,
)
    requires
        is_numbered(thread),
        request.strategy.causal_anchors,
        is_current(thread.decisions, request.current_objective@, c),
    ensures
        forall|k: int|
            0 <= k < thread.decisions.len() && traces_to(
                thread,
                thread.decisions[c].seq,
                (#[trigger] thread.decisions[k]).seq,
            ) ==> candidates(thread, request, episodes).contains(
                ItemModel::Decision {
                    seq: thread.decisions[k].seq,
                    phase: thread.decisions[k].phase,
                    text: thread.decisions[k].description,
                },
            ),
        forall|k: int|
            0 <= k < thread.tool_calls.len() && traces_to(
                thread,
                thread.decisions[c].seq,
                (#[trigger] thread.tool_calls[k]).seq,
            ) ==> candidates(thread, request, episodes).contains(
                ItemModel::ToolCall {
                    seq: thread.tool_calls[k].seq,
                    phase: None,
                    text: thread.tool_calls[k].tool + " -> "@ + outcome_text(
                        thread.tool_calls[k].outcome,
                    ),
                },
            ),
{
    let all = candidates(thread, request, episodes);
    let start = thread.decisions[c].seq;
    let order = ancestry(thread, seq![start], Set::empty());
    let first = Picked { items: anomaly_items(thread.anomalies), included: Set::empty() };
    let items = all_anchored(first, thread, order).items;
    lemma_current(thread.decisions, request.current_objective@, c);
    lemma_context_sound(thread, request);
    lemma_start_sound(thread);
    law_trails_are_followed(thread, start, start);
    lemma_all_anchored(first, thread, order);
    lemma_candidates_prefix(thread, request, episodes);
    assert(items.is_prefix_of(all));
    assert forall|k: int|
        0 <= k < thread.decisions.len() && traces_to(
            thread,
            thread.decisions[c].seq,
            (#[trigger] thread.decisions[k]).seq,
        ) implies all.contains(
        ItemModel::Decision {
            seq: thread.decisions[k].seq,
            phase: thread.decisions[k].phase,
            text: thread.decisions[k].description,
        },
    ) by {
        let seq = thread.decisions[k].seq;
        law_trails_are_followed(thread, start, seq);
        let i = choose|i: int| 0 <= i < order.len() && order[i] == seq;
        assert(has_node_item(items, thread, order[i]));
        lemma_nodes_found(thread, k);
        lemma_contains_grows(
            items,
            all,
            ItemModel::Decision {
                seq,
                phase: thread.decisions[k].phase,
                text: thread.decisions[k].description,
            },
        );
    }
    assert forall|k: int|
        0 <= k < thread.tool_calls.len() && traces_to(
            thread,
            thread.decisions[c].seq,
            (#[trigger] thread.tool_calls[k]).seq,
        ) implies all.contains(
        ItemModel::ToolCall {
            seq: thread.tool_calls[k].seq,
            phase: None,
            text: thread.tool_calls[k].tool + " -> "@ + outcome_text(
                thread.tool_calls[k].outcome,
            ),
        },
    ) by {
        let seq = thread.tool_calls[k].seq;
        law_trails_are_followed(thread, start, seq);
        let i = choose|i: int| 0 <= i < order.len() && order[i] == seq;
        assert(has_node_item(items, thread, order[i]));
        lemma_nodes_found(thread, k);
        lemma_contains_grows(
            items,
            all,
            ItemModel::ToolCall {
                seq,
                phase: None,
                text: thread.tool_calls[k].tool + " -> "@ + outcome_text(
                    thread.tool_calls[k].outcome,
                ),
            },
        );
    }
}

/// Only what led to the current objective brings tool calls into a context: one that it can
/// show lies on a trail of recorded causes from the last decision that speaks of it, and
/// without anchors there is none.
pub proof fn law_context_shows_no_other_calls(
    thread: CausalModel,
    request: AgentContextRequest,
    episodes: Seq<EpisodeModel>,
    i: int,
)
    requires
        is_numbered(thread),
        0 <= i < candidates(thread, request, episodes).len(),
        candidates(thread, request, episodes)[i] is ToolCall,
    ensures
        request.strategy.causal_anchors,
        exists|c: int| #[trigger]
            is_current(thread.decisions, request.current_objective@, c) && traces_to(
                thread,
                thread.decisions[c].seq,
                candidates(thread, request, episodes)[i]->ToolCall_seq,
            ),
{
    let all = candidates(thread, request, episodes);
    let items = thread_picked(thread, request).items;
    let anchors = anchors_picked(thread, request).items;
    let first = Picked { items: anomaly_items(thread.anomalies), included: Set::empty() };
    lemma_context_sound(thread, request);
    lemma_start_sound(thread);
    assert(all[i] == items[i]);
    assert(i < anchors.len());
    assert(anchors[i] == items[i]);
    let seq = all[i]->ToolCall_seq;
    assert(shows(anchors[i], seq));
    assert(is_shown(anchors, seq));
    lemma_has_current(thread.decisions, request.current_objective@);
    assert(current_objective(thread.decisions, request.current_objective@) is Some) by {
        assert(!is_shown(first.items, seq));
    }
    let c = choose|c: int| #[trigger] is_current(thread.decisions, request.current_objective@, c);
    lemma_current(thread.decisions, request.current_objective@, c);
    let start = thread.decisions[c].seq;
    law_trails_are_followed(thread, start, seq);
    lemma_all_anchored(first, thread, ancestry(thread, seq![start], Set::empty()));
    assert(request.strategy.causal_anchors) by {
        assert(!is_shown(first.items, seq));
    }
}

proof fn lemma_has_current(decisions: Seq<DecisionModel>, objective: Seq<char>)
    ensures
        current_objective(decisions, objective) is Some ==> exists|c: int| #[trigger]
            is_current(decisions, objective, c),
    decreases decisions.len(),
{
    if decisions.len() > 0 {
        let rest = decisions.drop_last();
        if speaks_of(decisions.last(), objective) {
            assert(is_current(decisions, objective, decisions.len() - 1));
        } else {
            lemma_has_current(rest, objective);
            if current_objective(decisions, objective) is Some {
                let c = choose|c: int| #[trigger] is_current(rest, objective, c);
                assert forall|j: int| c < j < decisions.len() implies !text_has(
                    lowercase((#[trigger] decisions[j]).description),
                    lowercase(objective),
                ) by {
                    if j < rest.len() {
                        assert(rest[j] == decisions[j]);
                    }
                }
                assert(rest[c] == decisions[c]);
                assert(is_current(decisions, objective, c));
            }
        }
    }
}

/// A context can show every decision of the current phase, and those without a phase.
pub proof fn law_context_shows_the_current_phase(
    thread: CausalModel,
    request: AgentContextRequest,
    episodes: Seq<EpisodeModel>,
    k: int,
)
    requires
        is_numbered(thread),
        0 <= k < thread.decisions.len(),
        thread.decisions[k].phase is None || thread.decisions[k].phase == Some(
            request.current_phase@,
        ),
    ensures
        is_shown(candidates(thread, request, episodes), thread.decisions[k].seq),
{
    lemma_context_sound(thread, request);
    lemma_candidates_prefix(thread, request, episodes);
    lemma_prefix_shown(
        thread_picked(thread, request).items,
        candidates(thread, request, episodes),
        thread.decisions[k].seq,
    );
}

/// Where completed phases are to be compressed, a context can show for each of them a
/// summary, which counts its decisions, and its first decision.
pub proof fn law_context_sums_up_completed_phases(
    thread: CausalModel,
    request: AgentContextRequest,
    episodes: Seq<EpisodeModel>,
    phase: Seq<char>,
    k: int,
)
    requires
        is_numbered(thread),
        request.strategy.compress_completed_phases,
        phase != request.current_phase@,
        begins_phase(thread.decisions, phase, k),
    ensures
        candidates(thread, request, episodes).contains(
            summary_of(thread.decisions, phase, thread.decisions[k].seq),
        ),
        is_shown(candidates(thread, request, episodes), thread.decisions[k].seq),
{
    let items = thread_picked(thread, request).items;
    let all = candidates(thread, request, episodes);
    lemma_context_sound(thread, request);
    lemma_candidates_prefix(thread, request, episodes);
    assert(phase_of(thread.decisions[k], request.current_phase@) == phase);
    assert(has_phase(thread.decisions, phase, request.current_phase@));
    let j = choose|j: int|
        #[trigger] begins_phase(thread.decisions, phase, j) && items.contains(
            summary_of(thread.decisions, phase, thread.decisions[j].seq),
        ) && is_shown(items, thread.decisions[j].seq);
    assert(j == k) by {
        if j < k {
            assert(thread.decisions[j].phase != Some(phase));
        } else if k < j {
            assert(thread.decisions[k].phase != Some(phase));
        }
    }
    lemma_contains_grows(
        items,
        all,
        summary_of(thread.decisions, phase, thread.decisions[k].seq),
    );
    lemma_prefix_shown(items, all, thread.decisions[k].seq);
}

/// A context sums up only phases that are completed and have decisions, and only where that
/// is asked for.
pub proof fn law_context_sums_up_nothing_else(
    thread: CausalModel,
    request: AgentContextRequest,
    episodes: Seq<EpisodeModel>,
    i: int,
)
    requires
        is_numbered(thread),
        0 <= i < candidates(thread, request, episodes).len(),
        candidates(thread, request, episodes)[i] is PhaseSummary,
    ensures
        request.strategy.compress_completed_phases,
        candidates(thread, request, episodes)[i]->PhaseSummary_phase != request.current_phase@,
        exists|k: int|
            0 <= k < thread.decisions.len() && (#[trigger] thread.decisions[k]).phase == Some(
                candidates(thread, request, episodes)[i]->PhaseSummary_phase,
            ),
{
    let all = candidates(thread, request, episodes);
    let items = thread_picked(thread, request).items;
    lemma_context_sound(thread, request);
    lemma_start_sound(thread);
    lemma_anchors_have_no_summary(thread, request);
    assert(all[i] == items[i]);
    let anchors = anchors_picked(thread, request).items;
    if i < anchors.len() {
        assert(anchors[i] == items[i]);
    }
    assert(thread_picked(thread, request).items[i] is PhaseSummary);
    let phase = all[i]->PhaseSummary_phase;
    assert(has_phase(thread.decisions, phase, request.current_phase@));
    let k = choose|k: int|
        0 <= k < thread.decisions.len() && phase_of(
            #[trigger] thread.decisions[k],
            request.current_phase@,
        ) == phase;
    assert(thread.decisions[k].phase == Some(phase));
}

proof fn lemma_anchors_have_no_summary(thread: CausalModel, request: AgentContextRequest)
    ensures
        forall|i: int|
            0 <= i < anchors_picked(thread, request).items.len() ==> !(
            #[trigger] anchors_picked(thread, request).items[i] is PhaseSummary),
{
    let first = Picked { items: anomaly_items(thread.anomalies), included: Set::empty() };
    if let Some(seq) = current_objective(thread.decisions, request.current_objective@) {
        lemma_anchored_no_summary(first, thread, ancestry(thread, seq![seq], Set::empty()));
    }
}

proof fn lemma_anchored_no_summary(picked: Picked, thread: CausalModel, order: Seq<u64>)
    requires
        forall|i: int|
            0 <= i < picked.items.len() ==> !(#[trigger] picked.items[i] is PhaseSummary),
    ensures
        forall|i: int|
            0 <= i < all_anchored(picked, thread, order).items.len() ==> !(
            #[trigger] all_anchored(picked, thread, order).items[i] is PhaseSummary),
    decreases order.len(),
{
    if order.len() > 0 {
        lemma_anchored_no_summary(picked, thread, order.drop_last());
        let before = all_anchored(picked, thread, order.drop_last());
        let after = all_anchored(picked, thread, order);
        assert forall|i: int| 0 <= i < after.items.len() implies !(
        #[trigger] after.items[i] is PhaseSummary) by {
            if i < before.items.len() {
                assert(!(before.items[i] is PhaseSummary));
                assert(after.items[i] == before.items[i]);
            }
        }
    }
}

/// Past episodes come last, all of them, in the order in which they were found.
pub proof fn law_episodes_come_last(
    thread: CausalModel,
    request: AgentContextRequest,
    episodes: Seq<EpisodeModel>,
)
    ensures
        ({
            let all = candidates(thread, request, episodes);
            let n = all.len() - episodes.len();
            &&& n >= 0
            &&& forall|i: int|
                0 <= i < episodes.len() ==> #[trigger] all[n + i] == (ItemModel::Episode {
                    task_id: episodes[i].task_id,
                    summary: episodes[i].summary,
                })
        }),
{
    let all = candidates(thread, request, episodes);
    let items = thread_picked(thread, request).items;
    let n = all.len() - episodes.len();
    assert(n == items.len());
    assert forall|i: int| 0 <= i < episodes.len() implies #[trigger] all[n + i] == (
    ItemModel::Episode { task_id: episodes[i].task_id, summary: episodes[i].summary }) by {
        assert(all[items.len() + i] == episode_items(episodes)[i]);
    }
}

/// Past episodes are the hits that are similar enough, in their order: those whose vector
/// similarity is above three tenths, or whose text score reaches the threshold.
pub proof fn law_episodes_are_the_relevant_hits(hits: Seq<HitModel>, text_threshold: u32)
    ensures
        ({
            let kept = hits.filter(|hit: HitModel| is_similar(hit, text_threshold));
            let episodes = episodes_of(hits, text_threshold, hits.len());
            &&& episodes.len() == kept.len()
            &&& forall|k: int|
                0 <= k < kept.len() ==> (#[trigger] episodes[k]).task_id == kept[k].id
                    && episodes[k].summary == "Episode "@ + kept[k].id
        }),
{
    lemma_relevant_kept(hits, text_threshold, hits.len());
    assert(hits.take(hits.len() as int) =~= hits);
}

/// A hit is similar enough: by a vector similarity above three tenths, or by a text score at
/// or above the threshold.
pub open spec fn is_similar(hit: HitModel, text_threshold: u32) -> bool {
    ||| hit.vector_score matches Some(score) && single_below(0x3e99_999a, score)
    ||| hit.text_score matches Some(score) && !single_below(score, text_threshold) && !single_nan(
        score,
    ) && !single_nan(text_threshold)
}

proof fn lemma_relevant_kept(hits: Seq<HitModel>, text_threshold: u32, n: nat)
    requires
        n <= hits.len(),
    ensures
        ({
            let kept = hits.take(n as int).filter(
                |hit: HitModel| is_similar(hit, text_threshold),
            );
            let episodes = episodes_of(hits, text_threshold, n);
            &&& episodes.len() == kept.len()
            &&& forall|k: int|
                0 <= k < kept.len() ==> (#[trigger] episodes[k]).task_id == kept[k].id
                    && episodes[k].summary == "Episode "@ + kept[k].id
        }),
    decreases n,
{
    let keep = |hit: HitModel| is_similar(hit, text_threshold);
    reveal(Seq::filter);
    if n > 0 {
        lemma_relevant_kept(hits, text_threshold, (n - 1) as nat);
        let part = hits.take(n - 1);
        assert(hits.take(n as int) =~= part.push(hits[n - 1]));
        lemma_filter_push(part, hits[n - 1], keep);
    }
}

/// The highest text score is below no text score of a hit, and is the score of a hit, or zero
/// where none is above zero.
pub proof fn law_the_best_text_score_is_the_highest(hits: Seq<HitModel>)
    ensures
        forall|i: int|
            0 <= i < hits.len() && (#[trigger] hits[i]).text_score is Some ==> !single_below(
                best_text_of(hits, hits.len()),
                hits[i].text_score->0,
            ),
        best_text_of(hits, hits.len()) == 0 || exists|i: int|
            0 <= i < hits.len() && (#[trigger] hits[i]).text_score == Some(
                best_text_of(hits, hits.len()),
            ),
{
    lemma_best_text(hits, hits.len());
}

proof fn lemma_best_text(hits: Seq<HitModel>, n: nat)
    requires
        n <= hits.len(),
    ensures
        !single_nan(best_text_of(hits, n)),
        forall|i: int|
            0 <= i < n && (#[trigger] hits[i]).text_score is Some ==> !single_below(
                best_text_of(hits, n),
                hits[i].text_score->0,
            ),
        best_text_of(hits, n) == 0 || exists|i: int|
            0 <= i < n && (#[trigger] hits[i]).text_score == Some(best_text_of(hits, n)),
    decreases n,
{
    if n > 0 {
        let m = (n - 1) as nat;
        let before = best_text_of(hits, m);
        lemma_best_text(hits, m);
        let now = best_text_of(hits, n);
        if now == before {
            if before != 0 {
                let i = choose|i: int|
                    0 <= i < m && (#[trigger] hits[i]).text_score == Some(before);
                assert(hits[i].text_score == Some(now));
            }
        } else {
            assert(hits[n - 1].text_score == Some(now));
        }
    }
}

/// A context takes as many items as its budget holds, from the front: what it shows fits,
/// and the next item would not.
pub proof fn law_contexts_fill_their_budget(items: Seq<ItemModel>, budget: usize, n: int)
    requires
        fills(items, budget, n),
    ensures
        tokens_of(items.take(n)) <= budget,
        n < items.len() ==> tokens_of(items.take(n)) + items[n].tokens() > budget,
        tokens_of(Seq::empty()) == 0,
{
    if n < items.len() {
        assert(items.take(n + 1).drop_last() =~= items.take(n));
        assert(items.take(n + 1).last() == items[n]);
    }
}

/// An item counts a token for every four characters that it shows, with some on top for its
/// frame: a longer text never counts less, and four more characters count one more.
pub proof fn law_tokens_grow_with_the_text(item: ItemModel)
    ensures
        item matches ItemModel::Decision { text, .. } ==> 4 * item.tokens() <= text.len() + 20 < 4
            * item.tokens() + 4,
        item matches ItemModel::ToolCall { text, .. } ==> 4 * item.tokens() <= text.len() + 20 < 4
            * item.tokens() + 4,
        item matches ItemModel::Anomaly { text } ==> 4 * item.tokens() <= text.len() + 10 < 4
            * item.tokens() + 4,
        item matches ItemModel::Episode { summary, .. } ==> 4 * item.tokens() <= summary.len() + 20
            < 4 * item.tokens() + 4,
        item matches ItemModel::PhaseSummary { text, .. } ==> 4 * item.tokens() <= text.len() + 10
            < 4 * item.tokens() + 4,
{
}

/// A context mentions a phase exactly if it sums it up, shows a decision or a tool call of
/// it, or shows one whose text holds its name.
pub proof fn law_phases_are_mentioned(items: Seq<ItemModel>, name: Seq<char>)
    ensures
        mentions(items, name) <==> exists|i: int| 0 <= i < items.len() && tells_of(
            #[trigger] items[i],
            name,
        ),
{
    if mentions(items, name) {
        if exists|i: int| 0 <= i < items.len() && from_phase(#[trigger] items[i], name) {
            let i = choose|i: int| 0 <= i < items.len() && from_phase(#[trigger] items[i], name);
            assert(tells_of(items[i], name));
        } else {
            let i = choose|i: int| 0 <= i < items.len() && shows_label(#[trigger] items[i], name);
            assert(tells_of(items[i], name));
        }
    }
    if exists|i: int| 0 <= i < items.len() && tells_of(#[trigger] items[i], name) {
        let i = choose|i: int| 0 <= i < items.len() && tells_of(#[trigger] items[i], name);
        assert(from_phase(items[i], name) || shows_label(items[i], name));
    }
}

/// An item tells of a phase.
pub open spec fn tells_of(item: ItemModel, name: Seq<char>) -> bool {
    match item {
        ItemModel::PhaseSummary { phase, .. } => phase == name,
        ItemModel::Decision { phase, text, .. } => phase == Some(name) || text_has(text, name),
        ItemModel::ToolCall { phase, text, .. } => phase == Some(name) || text_has(text, name),
        _ => false,
    }
}

/// The query for past episodes asks for documents of that kind alone, with the vector and
/// the number that are configured, and for the text of the objective where there is one.
pub proof fn law_episodes_are_asked_for(config: EpisodicConfig, objective: Seq<char>)
    ensures
        ({
            let query = episode_query_of(config, objective);
            &&& query.filters == seq![FilterModel { field: "kind"@, value: "episode"@ }]
            &&& query.vector == Some(config.vector.deep_view())
            &&& query.k == config.k
            &&& objective.len() == 0 ==> query.text is None
            &&& objective.len() > 0 ==> query.text == Some(objective)
        }),
{
}

/// Anomalies are shown in the order of the thread, each with its tool or its count.
pub proof fn law_anomalies_are_shown_first(
    thread: CausalModel,
    request: AgentContextRequest,
    episodes: Seq<EpisodeModel>,
    i: int,
)
    requires
        0 <= i < thread.anomalies.len(),
    ensures
        ({
            let anomaly = thread.anomalies[i];
            let all = candidates(thread, request, episodes);
            &&& i < all.len()
            &&& all[i] is Anomaly
            &&& anomaly.kind == AnomalyKind::ErrorLoop && anomaly.tool is Some
                ==> all[i]->Anomaly_text == "Error loop: tool "@ + ("Some("@ + debug_quoted(
                anomaly.tool->0,
            ) + ")"@) + " failed "@ + decimal(anomaly.repetitions as nat) + " times"@
            &&& anomaly.kind == AnomalyKind::ObjectiveDrift ==> text_begins(
                all[i]->Anomaly_text,
                "Objective drift: "@ + decimal(anomaly.repetitions as nat),
            )
        }),
{
    let first = Picked { items: anomaly_items(thread.anomalies), included: Set::empty() };
    let second = anchors_picked(thread, request);
    if let Some(seq) = current_objective(thread.decisions, request.current_objective@) {
        lemma_anchors_keep(first, thread, ancestry(thread, seq![seq], Set::empty()));
    }
    lemma_phases_keep(
        second,
        thread.decisions,
        phases_in_order(thread.decisions, request.current_phase@),
        request.current_phase@,
        request.strategy.compress_completed_phases,
    );
    let items = thread_picked(thread, request).items;
    assert(first.items.is_prefix_of(second.items));
    assert(second.items.is_prefix_of(items));
    assert(first.items[i] == second.items[i] && second.items[i] == items[i]);
    let all = candidates(thread, request, episodes);
    assert(all[i] == items[i]);
    let anomaly = thread.anomalies[i];
    if anomaly.kind == AnomalyKind::ObjectiveDrift {
        let head = "Objective drift: "@ + decimal(anomaly.repetitions as nat);
        let text = anomaly_text(anomaly);
        assert(text.take(head.len() as int) =~= head);
    }
}

/// A context shows the most important items, as many as fit; its anomalies are those among
/// them, and its episodes are the ones that it was given.
pub proof fn law_contexts_show_the_first_candidates(
    context: AgentContext,
    items: Seq<ItemModel>,
    episodes: Seq<EpisodeModel>,
    budget: usize,
    n: int,
    item: ItemModel,
)
    requires
        is_context(context, items, episodes, budget, n),
    ensures
        context.items.deep_view().is_prefix_of(items),
        tokens_of(context.items.deep_view()) <= budget,
        context.items.deep_view().len() < items.len() ==> tokens_of(context.items.deep_view())
            + items[context.items.deep_view().len() as int].tokens() > budget,
        context.anomalies.deep_view().contains(item) <==> context.items.deep_view().contains(item)
            && item is Anomaly,
        context.similar_episodes.deep_view() == episodes,
{
    law_contexts_fill_their_budget(items, budget, n);
    lemma_filter_has(items.take(n), is_anomaly());
}

/// The events of a phase are those of the decisions and tool calls shown in it, in order.
pub proof fn law_phases_list_their_events(items: Seq<ItemModel>, name: Seq<char>)
    ensures
        ({
            let kept = items.filter(
                |item: ItemModel|
                    (item is Decision && item->Decision_phase == Some(name)) || (item is ToolCall
                        && item->ToolCall_phase == Some(name)),
            );
            &&& phase_seqs(items, name).len() == kept.len()
            &&& forall|k: int|
                0 <= k < kept.len() ==> shows(kept[k], #[trigger] phase_seqs(items, name)[k])
        }),
    decreases items.len(),
{
    let keep = |item: ItemModel|
        (item is Decision && item->Decision_phase == Some(name)) || (item is ToolCall
            && item->ToolCall_phase == Some(name));
    reveal(Seq::filter);
    if items.len() > 0 {
        law_phases_list_their_events(items.drop_last(), name);
        assert(items =~= items.drop_last().push(items.last()));
        lemma_filter_push(items.drop_last(), items.last(), keep);
    }
}

proof fn lemma_one_parent(thread: CausalModel, seq: u64)
    requires
        is_numbered(thread),
    ensures
        parents_of(thread, seq).len() <= 1,
{
    lemma_decision_found(thread.decisions, seq);
    lemma_call_found(thread.tool_calls, seq);
    if let Some(node) = decision_at(thread.decisions, seq) {
        let d = choose|d: int| 0 <= d < thread.decisions.len() && thread.decisions[d] == node;
        lemma_nodes_found(thread, d);
    }
}

proof fn lemma_ancestry_steps(thread: CausalModel, start: u64, visited: Set<u64>)
    requires
        is_numbered(thread),
        !visited.contains(start),
    ensures
        ({
            let order = ancestry(thread, seq![start], visited);
            &&& order.len() > 0
            &&& order[0] == start
            &&& forall|i: int, j: int|
                0 <= i && j == i + 1 && j < order.len() ==> records_cause(
                    thread,
                    #[trigger] order[i],
                    #[trigger] order[j],
                )
        }),
    decreases unseen(thread, visited),
{
    let stack = seq![start];
    let order = ancestry(thread, stack, visited);
    let parents = parents_of(thread, start);
    let seen = visited.insert(start);
    lemma_unseen(thread, visited, start);
    lemma_one_parent(thread, start);
    assert(stack.last() == start);
    assert(stack.drop_last() + parents =~= parents);
    let tail = ancestry(thread, parents, seen);
    assert(order =~= seq![start] + tail);
    if parents.len() == 0 {
        assert(tail.len() == 0);
    } else {
        let parent = parents[0];
        assert(parents =~= seq![parent]);
        assert(parents.last() == parent);
        if seen.contains(parent) {
            assert(parents.drop_last() =~= Seq::empty());
            assert(tail =~= ancestry(thread, parents.drop_last(), seen));
            assert(tail.len() == 0);
        } else {
            lemma_ancestry_steps(thread, parent, seen);
            assert(parents.contains(parent));
            lemma_parents_recorded(thread, start, parent);
            assert forall|i: int, j: int| 0 <= i && j == i + 1 && j < order.len() implies
                records_cause(thread, #[trigger] order[i], #[trigger] order[j]) by {
                assert(order[j] == tail[j - 1]);
                if i > 0 {
                    assert(order[i] == tail[i - 1]);
                    assert(records_cause(thread, tail[i - 1], tail[j - 1]));
                }
            }
        }
    }
}

/// What led to an event is gone through from near to far: first the event itself, then its
/// recorded cause, then that one's, and so on.
pub proof fn law_causes_come_from_near_to_far(thread: CausalModel, start: u64)
    requires
        is_numbered(thread),
    ensures
        ({
            let order = ancestry(thread, seq![start], Set::empty());
            &&& order[0] == start
            &&& is_trail(thread, order)
        }),
{
    lemma_ancestry_steps(thread, start, Set::empty());
}

proof fn lemma_anchored_in_order(picked: Picked, thread: CausalModel, order: Seq<u64>)
    requires
        is_numbered(thread),
        is_sound(picked, thread),
        order.no_duplicates(),
        forall|seq: u64| !#[trigger] is_shown(picked.items, seq),
        forall|i: int|
            0 <= i < order.len() ==> decision_at(thread.decisions, #[trigger] order[i]) is Some
                || call_at(thread.tool_calls, order[i]) is Some,
    ensures
        all_anchored(picked, thread, order).items.len() == picked.items.len() + order.len(),
        forall|i: int|
            0 <= i < order.len() ==> shows(
                all_anchored(picked, thread, order).items[picked.items.len() + i],
                #[trigger] order[i],
            ),
    decreases order.len(),
{
    if order.len() > 0 {
        let rest = order.drop_last();
        let seq = order.last();
        let before = all_anchored(picked, thread, rest);
        let after = all_anchored(picked, thread, order);
        assert forall|i: int| 0 <= i < rest.len() implies decision_at(
            thread.decisions,
            #[trigger] rest[i],
        ) is Some || call_at(thread.tool_calls, rest[i]) is Some by {
            assert(rest[i] == order[i]);
        }
        lemma_anchored_in_order(picked, thread, rest);
        lemma_all_anchored(picked, thread, rest);
        if rest.contains(seq) {
            let i = choose|i: int| 0 <= i < rest.len() && rest[i] == seq;
            assert(order[i] == order[order.len() - 1]);
        }
        assert(!is_shown(before.items, seq));
        assert(!before.included.contains(seq));
        assert(order[order.len() - 1] == seq);
        lemma_decision_found(thread.decisions, seq);
        lemma_call_found(thread.tool_calls, seq);
        if let Some(node) = decision_at(thread.decisions, seq) {
            let d = choose|d: int| 0 <= d < thread.decisions.len() && thread.decisions[d] == node;
            lemma_nodes_found(thread, d);
        }
        let n = before.items.len() as int;
        assert(after.items.len() == n + 1);
        assert(shows(after.items[n], seq));
        assert forall|i: int| 0 <= i < order.len() implies shows(
            after.items[picked.items.len() + i],
            #[trigger] order[i],
        ) by {
            if i < rest.len() {
                assert(rest[i] == order[i]);
                assert(shows(before.items[picked.items.len() + i], rest[i]));
            }
        }
    }
}

/// A context shows what led to the current objective right after the anomalies, from near to
/// far: so a small budget holds the nearest causes. An event that is neither a decision nor
/// a tool call of the thread, which ends a trail, is not shown.
pub proof fn law_near_causes_are_shown_first(
    thread: CausalModel,
    request: AgentContextRequest,
    episodes: Seq<EpisodeModel>,
    c: int,
    i: int,
)
    requires
        is_numbered(thread),
        request.strategy.causal_anchors,
        is_current(thread.decisions, request.current_objective@, c),
        0 <= i < ancestry(thread, seq![thread.decisions[c].seq], Set::empty()).len(),
        forall|k: int|
            0 <= k <= i ==> decision_at(
                thread.decisions,
                #[trigger] ancestry(thread, seq![thread.decisions[c].seq], Set::empty())[k],
            ) is Some || call_at(
                thread.tool_calls,
                ancestry(thread, seq![thread.decisions[c].seq], Set::empty())[k],
            ) is Some,
    ensures
        thread.anomalies.len() + i < candidates(thread, request, episodes).len(),
        shows(
            candidates(thread, request, episodes)[thread.anomalies.len() + i],
            ancestry(thread, seq![thread.decisions[c].seq], Set::empty())[i],
        ),
{
    let start = thread.decisions[c].seq;
    let order = ancestry(thread, seq![start], Set::empty());
    let near = order.take(i + 1);
    let first = Picked { items: anomaly_items(thread.anomalies), included: Set::empty() };
    lemma_current(thread.decisions, request.current_objective@, c);
    lemma_start_sound(thread);
    law_trails_are_followed(thread, start, start);
    lemma_context_sound(thread, request);
    assert forall|k: int| 0 <= k < near.len() implies decision_at(
        thread.decisions,
        #[trigger] near[k],
    ) is Some || call_at(thread.tool_calls, near[k]) is Some by {
        assert(near[k] == order[k]);
    }
    lemma_anchored_in_order(first, thread, near);
    lemma_anchoring_goes_on(first, thread, order, i + 1);
    assert(near[i] == order[i]);
    let some = all_anchored(first, thread, near).items;
    let anchors = anchors_picked(thread, request).items;
    let items = thread_picked(thread, request).items;
    let at = thread.anomalies.len() + i;
    assert(some.is_prefix_of(anchors));
    assert(some[at] == anchors[at] && anchors[at] == items[at]);
    assert(candidates(thread, request, episodes)[at] == items[at]);
}

proof fn lemma_anchoring_goes_on(picked: Picked, thread: CausalModel, order: Seq<u64>, n: int)
    requires
        0 <= n <= order.len(),
    ensures
        all_anchored(picked, thread, order.take(n)).items.is_prefix_of(
            all_anchored(picked, thread, order).items,
        ),
    decreases order.len(),
{
    if n == order.len() {
        assert(order.take(n) =~= order);
    } else {
        lemma_anchoring_goes_on(picked, thread, order.drop_last(), n);
        assert(order.drop_last().take(n) =~= order.take(n));
    }
}

/// The decisions of a phase are picked in the order of the thread: each that is not shown
/// yet, and only those.
pub proof fn law_phases_are_shown_in_order(
    picked: Picked,
    group: Seq<DecisionModel>,
    label: Option<Seq<char>>,
)
    requires
        forall|i: int, j: int|
            0 <= i < j < group.len() ==> (#[trigger] group[i]).seq != (#[trigger] group[j]).seq,
    ensures
        ({
            let new = group.filter(
                |decision: DecisionModel| !picked.included.contains(decision.seq),
            );
            let after = group_picked(picked, group, label);
            &&& after.items.len() == picked.items.len() + new.len()
            &&& picked.items.is_prefix_of(after.items)
            &&& forall|k: int|
                0 <= k < new.len() ==> after.items[picked.items.len() + k] == (ItemModel::Decision {
                    seq: (#[trigger] new[k]).seq,
                    phase: label,
                    text: new[k].description,
                })
        }),
{
    lemma_group_in_order(picked, group, label);
}

proof fn lemma_group_in_order(
    picked: Picked,
    group: Seq<DecisionModel>,
    label: Option<Seq<char>>,
)
    requires
        forall|i: int, j: int|
            0 <= i < j < group.len() ==> (#[trigger] group[i]).seq != (#[trigger] group[j]).seq,
    ensures
        ({
            let new = group.filter(
                |decision: DecisionModel| !picked.included.contains(decision.seq),
            );
            let after = group_picked(picked, group, label);
            &&& after.items.len() == picked.items.len() + new.len()
            &&& picked.items.is_prefix_of(after.items)
            &&& forall|k: int|
                0 <= k < new.len() ==> after.items[picked.items.len() + k] == (ItemModel::Decision {
                    seq: (#[trigger] new[k]).seq,
                    phase: label,
                    text: new[k].description,
                })
            &&& forall|seq: u64| #[trigger]
                after.included.contains(seq) <==> picked.included.contains(seq) || exists|k: int|
                    0 <= k < group.len() && (#[trigger] group[k]).seq == seq
        }),
    decreases group.len(),
{
    let keep = |decision: DecisionModel| !picked.included.contains(decision.seq);
    reveal(Seq::filter);
    if group.len() > 0 {
        let rest = group.drop_last();
        let last = group.last();
        let n = group.len() - 1;
        assert(group[n] == last);
        assert forall|i: int, j: int| 0 <= i < j < rest.len() implies (#[trigger] rest[i]).seq != (
        #[trigger] rest[j]).seq by {
            assert(rest[i] == group[i] && rest[j] == group[j]);
        }
        lemma_group_in_order(picked, rest, label);
        assert(group =~= rest.push(last));
        lemma_filter_push(rest, last, keep);
        let before = group_picked(picked, rest, label);
        let after = group_picked(picked, group, label);
        assert(before.included.contains(last.seq) <==> picked.included.contains(last.seq)) by {
            if exists|k: int| 0 <= k < rest.len() && (#[trigger] rest[k]).seq == last.seq {
                let k = choose|k: int| 0 <= k < rest.len() && (#[trigger] rest[k]).seq == last.seq;
                assert(group[k].seq != group[n].seq);
            }
        }
        assert forall|seq: u64| #[trigger] after.included.contains(seq) <==> picked.included.contains(
            seq,
        ) || exists|k: int| 0 <= k < group.len() && (#[trigger] group[k]).seq == seq by {
            if exists|k: int| 0 <= k < rest.len() && (#[trigger] rest[k]).seq == seq {
                let k = choose|k: int| 0 <= k < rest.len() && (#[trigger] rest[k]).seq == seq;
                assert(group[k].seq == seq);
            }
            if exists|k: int| 0 <= k < group.len() && (#[trigger] group[k]).seq == seq {
                let k = choose|k: int| 0 <= k < group.len() && (#[trigger] group[k]).seq == seq;
                if k < n {
                    assert(rest[k].seq == seq);
                }
            }
        }
    }
}

/// Phases come in the order of their names, each once, and all that have a decision.
pub proof fn law_phases_come_in_order(
    decisions: Seq<DecisionModel>,
    current: Seq<char>,
    phase: Seq<char>,
    i: int,
    j: int,
)
    ensures
        (exists|p: int|
            0 <= p < phases_in_order(decisions, current).len() && (#[trigger] phases_in_order(
                decisions,
                current,
            )[p]).0 == phase) <==> exists|k: int|
            0 <= k < decisions.len() && ((#[trigger] decisions[k]).phase == Some(phase) || (
            decisions[k].phase is None && phase == current)),
        0 <= i < j < phases_in_order(decisions, current).len() ==> text_lt(
            phases_in_order(decisions, current)[i].0,
            phases_in_order(decisions, current)[j].0,
        ),
{
    let names = Seq::new(decisions.len(), |k: int| phase_of(decisions[k], current));
    let set = phase_set(decisions, current);
    assert forall|name: Seq<char>| set.dom().contains(name) == names.to_set().contains(name) by {
        if has_phase(decisions, name, current) {
            let k = choose|k: int|
                0 <= k < decisions.len() && phase_of(#[trigger] decisions[k], current) == name;
            assert(names[k] == name);
        }
        if names.contains(name) {
            let k = choose|k: int| 0 <= k < names.len() && names[k] == name;
            assert(phase_of(decisions[k], current) == name);
        }
    }
    assert(set.dom() =~= names.to_set());
    vstd::seq_lib::seq_to_set_is_finite(names);
    lemma_finite_rows::<String, bool>(set);
    lemma_phases_listed(decisions, current);
    let rows = phases_in_order(decisions, current);
    if 0 <= i < j < rows.len() {
        lemma_ascending_at::<String, bool>(rows, i, j);
    }
    if has_phase(decisions, phase, current) {
        let k = choose|k: int|
            0 <= k < decisions.len() && phase_of(#[trigger] decisions[k], current) == phase;
        assert(decisions[k].phase == Some(phase) || (decisions[k].phase is None && phase
            == current));
    }
    if exists|k: int|
        0 <= k < decisions.len() && ((#[trigger] decisions[k]).phase == Some(phase) || (
        decisions[k].phase is None && phase == current)) {
        let k = choose|k: int|
            0 <= k < decisions.len() && ((#[trigger] decisions[k]).phase == Some(phase) || (
            decisions[k].phase is None && phase == current));
        assert(phase_of(decisions[k], current) == phase);
        assert(has_phase(decisions, phase, current));
    }
}

/// A decision or a tool call tells its event, its phase and its text; other items tell none
/// of them.
pub proof fn law_items_tell_their_event(item: ItemModel, seq: u64)
    ensures
        item.seq() == Some(seq) <==> shows(item, seq),
        item.seq() is Some <==> item is Decision || item is ToolCall,
        item is Decision ==> item.own_phase() == item->Decision_phase && item.own_text() == Some(
            item->Decision_text,
        ),
        item is ToolCall ==> item.own_phase() == item->ToolCall_phase && item.own_text() == Some(
            item->ToolCall_text,
        ),
        !(item is Decision) && !(item is ToolCall) ==> item.own_phase() is None
            && item.own_text() is None,
{
}

} // verus!
