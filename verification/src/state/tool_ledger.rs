//! Aggregated statistics per tool.

use crate::event::{Event, EventKind, EventModel, KindModel};
use crate::json::{Json, JsonModel, JsonNumber, NumberModel};
use crate::projection::{fold, Projection, ProjectionScope};
use crate::sorted::{
    ascending, lemma_map_of_domain, lemma_map_of_value, map_of, Replica, SortKey, SortedMap,
};
use crate::state::causal_thread::{
    outcome_of, parse_tool_outcome, replica_text, OutcomeModel, ToolOutcome,
};
use crate::text::join2;
use vstd::prelude::*;

verus! {

/// Aggregated statistics for a single tool.
#[derive(Debug, PartialEq)]
pub struct ToolStats {
    /// Number of times the tool was invoked.
    pub invocations: u64,
    /// Number of invocations whose `outcome` parsed as `ToolOutcome::Failed` or
    /// `ToolOutcome::Timeout`.
    pub errors: u64,
    /// Sum of `latency_ms` values observed in tool call payloads.
    pub total_latency_ms: u64,
    /// The `cost` values observed in tool call payloads; their sum is the total
    /// cost.
    pub costs: Vec<JsonNumber>,
    /// Last observed `outcome` string, if any.
    pub last_outcome: Option<String>,
    /// Sequence of the last event that touched this tool.
    pub last_seq: u64,
    /// Sequence of the last event that stated an outcome, or zero, used to pick the
    /// most recent `last_outcome` when merging partial states from shards.
    pub outcome_seq: u64,
}

#[verifier::ext_equal]
pub struct StatsModel {
    pub invocations: nat,
    pub errors: nat,
    pub total_latency_ms: nat,
    pub costs: Seq<NumberModel>,
    pub last_outcome: Option<Seq<char>>,
    pub last_seq: u64,
    pub outcome_seq: u64,
}

impl DeepView for ToolStats {
    type V = StatsModel;

    open spec fn deep_view(&self) -> StatsModel {
        StatsModel {
            invocations: self.invocations as nat,
            errors: self.errors as nat,
            total_latency_ms: self.total_latency_ms as nat,
            costs: self.costs.deep_view(),
            last_outcome: self.last_outcome.deep_view(),
            last_seq: self.last_seq,
            outcome_seq: self.outcome_seq,
        }
    }
}

fn replica_numbers(numbers: &Vec<JsonNumber>) -> (r: Vec<JsonNumber>)
    ensures
        r.deep_view() == numbers.deep_view(),
{
    let mut out: Vec<JsonNumber> = Vec::new();
    append_numbers(&mut out, numbers);
    assert(out.deep_view() =~= numbers.deep_view());
    out
}

fn append_numbers(out: &mut Vec<JsonNumber>, numbers: &Vec<JsonNumber>)
    ensures
        final(out).deep_view() == old(out).deep_view() + numbers.deep_view(),
{
    let ghost start = out.deep_view();
    let mut i: usize = 0;
    while i < numbers.len()
        invariant
            i <= numbers.len(),
            out.deep_view() == start + numbers.deep_view().take(i as int),
        decreases numbers.len() - i,
    {
        let ghost was = out.deep_view();
        out.push(numbers[i].replica());
        assert(out.deep_view() =~= was.push(numbers.deep_view()[i as int]));
        assert(start + numbers.deep_view().take(i + 1) =~= was.push(
            numbers.deep_view()[i as int],
        ));
        i += 1;
    }
    assert(out.deep_view() =~= start + numbers.deep_view());
}

impl Replica for ToolStats {
    fn replica(&self) -> (r: Self) {
        ToolStats {
            invocations: self.invocations,
            errors: self.errors,
            total_latency_ms: self.total_latency_ms,
            costs: replica_numbers(&self.costs),
            last_outcome: replica_text(&self.last_outcome),
            last_seq: self.last_seq,
            outcome_seq: self.outcome_seq,
        }
    }
}

impl Clone for ToolStats {
    fn clone(&self) -> (r: Self)
        ensures
            r.deep_view() == self.deep_view(),
    {
        self.replica()
    }
}

impl Default for ToolStats {
    fn default() -> (r: Self)
        ensures
            r.deep_view() == StatsModel::zero(),
    {
        let costs: Vec<JsonNumber> = Vec::new();
        assert(costs.deep_view() =~= Seq::empty());
        ToolStats {
            invocations: 0,
            errors: 0,
            total_latency_ms: 0,
            costs,
            last_outcome: None,
            last_seq: 0,
            outcome_seq: 0,
        }
    }
}

/// The rendering of an outcome shown to callers.
pub open spec fn outcome_text(outcome: OutcomeModel) -> Seq<char> {
    match outcome {
        OutcomeModel::Succeeded => "Ok"@,
        OutcomeModel::Timeout => "Timeout"@,
        OutcomeModel::Failed(message) => "Err: "@ + message,
    }
}

impl StatsModel {
    /// Nothing observed yet.
    pub open spec fn zero() -> StatsModel {
        StatsModel {
            invocations: 0,
            errors: 0,
            total_latency_ms: 0,
            costs: Seq::empty(),
            last_outcome: None,
            last_seq: 0,
            outcome_seq: 0,
        }
    }

    /// The statistics after one more call.
    pub open spec fn after_call(self, seq: u64, payload: JsonModel) -> StatsModel {
        let outcome = outcome_of(payload);
        let stated = payload.field("outcome"@) is Some;
        StatsModel {
            invocations: self.invocations + 1,
            errors: self.errors + (if stated && !(outcome is Succeeded) {
                1nat
            } else {
                0nat
            }),
            total_latency_ms: self.total_latency_ms + (match payload.unsigned_field(
                "latency_ms"@,
            ) {
                Some(latency) => latency as nat,
                None => 0nat,
            }),
            costs: match payload.field("cost"@) {
                Some(JsonModel::Number(cost)) => self.costs.push(cost),
                _ => self.costs,
            },
            last_outcome: if stated {
                Some(outcome_text(outcome))
            } else {
                self.last_outcome
            },
            last_seq: seq,
            outcome_seq: if stated {
                seq
            } else {
                self.outcome_seq
            },
        }
    }

    /// The statistics of two shards together: sums, and the outcome that was stated
    /// last.
    pub open spec fn plus(self, part: StatsModel) -> StatsModel {
        StatsModel {
            invocations: self.invocations + part.invocations,
            errors: self.errors + part.errors,
            total_latency_ms: self.total_latency_ms + part.total_latency_ms,
            costs: self.costs + part.costs,
            last_outcome: if part.last_outcome is Some && part.outcome_seq >= self.outcome_seq {
                part.last_outcome
            } else {
                self.last_outcome
            },
            last_seq: if part.last_seq >= self.last_seq {
                part.last_seq
            } else {
                self.last_seq
            },
            outcome_seq: if part.last_outcome is Some && part.outcome_seq >= self.outcome_seq {
                part.outcome_seq
            } else {
                self.outcome_seq
            },
        }
    }

    /// The counters fit their machine type.
    pub open spec fn fits(self) -> bool {
        self.invocations <= u64::MAX && self.errors <= u64::MAX && self.total_latency_ms
            <= u64::MAX
    }
}

/// Statistics by tool.
pub type LedgerModel = Map<Seq<char>, StatsModel>;

/// The statistics of a tool, or none.
pub open spec fn stats_of(ledger: LedgerModel, tool: Seq<char>) -> StatsModel {
    if ledger.contains_key(tool) {
        ledger[tool]
    } else {
        StatsModel::zero()
    }
}

/// State of the `ToolLedger` projection.
#[derive(Debug, PartialEq)]
pub struct ToolLedgerState {
    tools: SortedMap<String, ToolStats>,
}

impl DeepView for ToolLedgerState {
    type V = LedgerModel;

    closed spec fn deep_view(&self) -> LedgerModel {
        self.tools.deep_view()
    }
}

impl Replica for ToolLedgerState {
    fn replica(&self) -> (r: Self) {
        ToolLedgerState { tools: self.tools.replica() }
    }
}

impl Clone for ToolLedgerState {
    fn clone(&self) -> (r: Self)
        ensures
            r.deep_view() == self.deep_view(),
    {
        self.replica()
    }
}

impl Default for ToolLedgerState {
    fn default() -> (r: Self)
        ensures
            r.deep_view() == ToolLedger::initial(),
    {
        ToolLedger::empty_state()
    }
}

impl ToolLedgerState {
    /// The recorded tools and their statistics, in ascending name order.
    pub closed spec fn rows(&self) -> Seq<(Seq<char>, StatsModel)> {
        self.tools.pairs()
    }

    /// Returns the aggregated stats for a tool, if any calls have been recorded.
    pub fn get(&self, tool: &str) -> (r: Option<&ToolStats>)
        ensures
            match r {
                Some(stats) => self.deep_view().contains_key(tool@) && self.deep_view()[tool@]
                    == stats.deep_view(),
                None => !self.deep_view().contains_key(tool@),
            },
    {
        self.tools.get(&tool.to_owned())
    }

    /// All recorded tools and their stats, in ascending name order.
    pub fn iter(&self) -> (r: Vec<(&String, &ToolStats)>)
        ensures
            r.len() == self.rows().len(),
            forall|i: int|
                0 <= i < r.len() ==> (#[trigger] r@[i]).0@ == self.rows()[i].0
                    && r@[i].1.deep_view() == self.rows()[i].1,
            ascending::<String, StatsModel>(self.rows()),
            self.deep_view() == map_of(self.rows()),
    {
        let n: usize = self.tools.len();
        let mut out: Vec<(&String, &ToolStats)> = Vec::new();
        let mut i: usize = 0;
        while i < n
            invariant
                i <= n,
                n == self.rows().len(),
                out.len() == i,
                forall|j: int|
                    0 <= j < i ==> (#[trigger] out@[j]).0@ == self.rows()[j].0
                        && out@[j].1.deep_view() == self.rows()[j].1,
            decreases n - i,
        {
            out.push((self.tools.key_at(i), self.tools.value_at(i)));
            i += 1;
        }
        out
    }
}

/// Renders a [`ToolOutcome`] as the `last_outcome` string exposed to callers.
pub fn stringify_outcome(outcome: &ToolOutcome) -> (r: String)
    ensures
        r@ == outcome_text(outcome.deep_view()),
{
    match outcome {
        ToolOutcome::Succeeded => "Ok".to_owned(),
        ToolOutcome::Timeout => "Timeout".to_owned(),
        ToolOutcome::Failed(message) => join2("Err: ", message.as_str()),
    }
}

/// Marker type for the `ToolLedger` projection.
///
/// Metrics are aggregated from `EventKind::ToolCall` payloads:
/// - `latency_ms` (u64) is added to `total_latency_ms`.
/// - `cost` (number) is added to the total cost.
/// - `outcome` is parsed via [`parse_tool_outcome`]; `Err` and `Timeout` both
///   increment `errors`; the stringified outcome becomes `last_outcome`.
///   This is the same parser the causal thread uses, so the two always agree on
///   whether a given tool call was a failure.
pub struct ToolLedger;

impl Projection for ToolLedger {
    type State = ToolLedgerState;

    open spec fn initial() -> LedgerModel {
        Map::empty()
    }

    open spec fn step(state: LedgerModel, event: EventModel) -> LedgerModel {
        match event.kind {
            KindModel::ToolCall { tool } => state.insert(
                tool,
                stats_of(state, tool).after_call(event.seq, event.payload),
            ),
            _ => state,
        }
    }

    open spec fn combined(whole: LedgerModel, part: LedgerModel) -> LedgerModel {
        Map::new(
            |tool: Seq<char>| whole.contains_key(tool) || part.contains_key(tool),
            |tool: Seq<char>|
                if part.contains_key(tool) {
                    stats_of(whole, tool).plus(part[tool])
                } else {
                    whole[tool]
                },
        )
    }

    open spec fn fits(state: LedgerModel) -> bool {
        forall|tool: Seq<char>| #[trigger] state.contains_key(tool) ==> state[tool].fits()
    }

    open spec fn lives_in() -> ProjectionScope {
        ProjectionScope::Agent
    }

    open spec fn registered_as() -> Seq<char> {
        "ToolLedger"@
    }

    proof fn fits_before_step(state: LedgerModel, event: EventModel) {
        assert forall|tool: Seq<char>| #[trigger] state.contains_key(tool) implies state[tool].fits() by {
            let after = Self::step(state, event);
            assert(after.contains_key(tool));
            assert(after[tool].fits());
        }
    }

    proof fn state_fits(state: &ToolLedgerState) {
        assert forall|tool: Seq<char>| #[trigger]
            state.deep_view().contains_key(tool) implies state.deep_view()[tool].fits() by {
            state.tools.lemma_value_is_view(tool);
        }
    }

    proof fn fits_before_combined(whole: LedgerModel, part: LedgerModel) {
        assert forall|tool: Seq<char>| #[trigger] whole.contains_key(tool) implies whole[tool].fits() by {
            let after = Self::combined(whole, part);
            assert(after.contains_key(tool));
            assert(after[tool].fits());
        }
    }

    fn name() -> (r: &'static str) {
        "ToolLedger"
    }

    fn scope() -> (r: ProjectionScope) {
        ProjectionScope::Agent
    }

    fn empty_state() -> (r: ToolLedgerState) {
        ToolLedgerState { tools: SortedMap::new() }
    }

    fn apply(state: &mut ToolLedgerState, event: &Event) {
        if let EventKind::ToolCall { tool } = &event.kind {
            let ghost before = state.deep_view();
            let ghost after = Self::step(before, event.deep_view());
            let ghost target = stats_of(before, tool@).after_call(
                event.seq,
                event.payload.deep_view(),
            );
            assert(after.contains_key(tool@));
            assert(target.fits());
            let mut stats = match state.tools.remove(tool) {
                Some(stats) => stats,
                None => ToolStats::default(),
            };
            assert(stats.deep_view() == stats_of(before, tool@));
            stats.invocations = stats.invocations + 1;
            stats.last_seq = event.seq;
            if let Some(latency) = event.payload.unsigned_field("latency_ms") {
                stats.total_latency_ms = stats.total_latency_ms + latency;
            }
            if let Some(cost) = event.payload.get("cost") {
                if let Json::Number(number) = cost {
                    let ghost was = stats.costs.deep_view();
                    stats.costs.push(number.replica());
                    assert(stats.costs.deep_view() =~= was.push(number.deep_view()));
                }
            }
            if event.payload.get("outcome").is_some() {
                let outcome = parse_tool_outcome(&event.payload);
                stats.last_outcome = Some(stringify_outcome(&outcome));
                stats.outcome_seq = event.seq;
                match outcome {
                    ToolOutcome::Succeeded => {},
                    _ => {
                        stats.errors = stats.errors + 1;
                    },
                }
            }
            assert(stats.deep_view() =~= target);
            state.tools.insert(tool.clone(), stats);
            assert(state.deep_view() =~= after);
        }
    }

    fn merge(whole: &mut ToolLedgerState, part: &ToolLedgerState) {
        let ghost start = whole.deep_view();
        let ghost goal = Self::combined(start, part.deep_view());
        let ghost pairs = part.tools.pairs();
        let n: usize = part.tools.len();
        let mut i: usize = 0;
        assert(Self::combined(start, map_of(pairs.take(0))) =~= start);
        while i < n
            invariant
                i <= n,
                n == pairs.len(),
                pairs == part.tools.pairs(),
                goal == Self::combined(start, map_of(pairs)),
                Self::fits(goal),
                ascending::<String, StatsModel>(pairs),
                whole.deep_view() == Self::combined(start, map_of(pairs.take(i as int))),
            decreases n - i,
        {
            let key = part.tools.key_at(i).replica();
            let extra = part.tools.value_at(i);
            let ghost k = key.deep_view();
            let ghost done = map_of(pairs.take(i as int));
            let ghost now = whole.deep_view();
            proof {
                lemma_map_of_value::<String, StatsModel>(pairs, i as int);
                if done.contains_key(k) {
                    lemma_map_of_domain(pairs.take(i as int), k);
                    let x = choose|x: int|
                        0 <= x < i && (#[trigger] pairs.take(i as int)[x]).0 == k;
                    assert(pairs[x].0 == k);
                    <String as SortKey>::before_irreflexive(k);
                    assert(<String as SortKey>::before(pairs[x].0, pairs[i as int].0));
                }
                assert(goal.contains_key(k));
                assert(goal[k] == stats_of(start, k).plus(extra.deep_view()));
                assert(goal[k].fits());
            }
            let mut stats = match whole.tools.remove(&key) {
                Some(stats) => stats,
                None => ToolStats::default(),
            };
            assert(stats.deep_view() == stats_of(start, k));
            let ghost target = stats.deep_view().plus(extra.deep_view());
            stats.invocations = stats.invocations + extra.invocations;
            stats.errors = stats.errors + extra.errors;
            stats.total_latency_ms = stats.total_latency_ms + extra.total_latency_ms;
            append_numbers(&mut stats.costs, &extra.costs);
            if extra.last_seq >= stats.last_seq {
                stats.last_seq = extra.last_seq;
            }
            if extra.last_outcome.is_some() && extra.outcome_seq >= stats.outcome_seq {
                stats.last_outcome = replica_text(&extra.last_outcome);
                stats.outcome_seq = extra.outcome_seq;
            }
            assert(stats.deep_view() =~= target);
            let ghost v = stats.deep_view();
            whole.tools.insert(key, stats);
            proof {
                let next = pairs.take(i + 1);
                assert(next.drop_last() =~= pairs.take(i as int));
                assert(map_of(next) == done.insert(k, extra.deep_view()));
                assert(whole.deep_view() =~= now.insert(k, v));
                assert(whole.deep_view() =~= Self::combined(start, map_of(next)));
            }
            i += 1;
        }
        assert(pairs.take(i as int) =~= pairs);
    }
}

/// The ledger and the causal thread agree on failures: a tool call counts as an
/// error exactly where the thread reads its outcome as other than a success.
pub proof fn law_ledger_agrees_with_thread(state: LedgerModel, event: EventModel, tool: Seq<char>)
    requires
        event.kind == (KindModel::ToolCall { tool }),
    ensures
        stats_of(ToolLedger::step(state, event), tool).errors == stats_of(state, tool).errors + (
        match crate::state::causal_thread::thread_event_of(event) {
            Some(
                crate::state::causal_thread::ThreadEventModel::ToolCall { outcome, .. },
            ) => if outcome is Succeeded {
                0nat
            } else {
                1nat
            },
            _ => 0nat,
        }),
{
}

/// The same statistics, whatever the order of the costs.
pub open spec fn same_stats(a: StatsModel, b: StatsModel) -> bool {
    &&& a.invocations == b.invocations
    &&& a.errors == b.errors
    &&& a.total_latency_ms == b.total_latency_ms
    &&& a.costs.to_multiset() == b.costs.to_multiset()
    &&& a.last_outcome == b.last_outcome
    &&& a.last_seq == b.last_seq
    &&& a.outcome_seq == b.outcome_seq
}

/// The same statistics for every tool.
pub open spec fn same_ledger(a: LedgerModel, b: LedgerModel) -> bool {
    forall|tool: Seq<char>| #[trigger]
        a.contains_key(tool) == b.contains_key(tool) && (a.contains_key(tool) ==> same_stats(
            a[tool],
            b[tool],
        ))
}

/// An outcome comes with the sequence number at which it was stated.
pub open spec fn is_stamped(ledger: LedgerModel) -> bool {
    forall|tool: Seq<char>| #[trigger]
        ledger.contains_key(tool) ==> (ledger[tool].last_outcome is None <==> ledger[tool].outcome_seq
            == 0)
}

/// What two ledgers say was stated at one sequence number is the same.
pub open spec fn no_conflict(a: LedgerModel, b: LedgerModel) -> bool {
    forall|tool: Seq<char>| #[trigger]
        a.contains_key(tool) && b.contains_key(tool) && a[tool].outcome_seq == b[tool].outcome_seq
            ==> a[tool].last_outcome == b[tool].last_outcome
}

/// The order in which the ledgers of shards are merged does not matter.
pub proof fn law_merge_order_does_not_matter(whole: LedgerModel, p: LedgerModel, q: LedgerModel)
    requires
        is_stamped(whole),
        is_stamped(p),
        is_stamped(q),
        no_conflict(whole, p),
        no_conflict(whole, q),
        no_conflict(p, q),
    ensures
        same_ledger(
            ToolLedger::combined(ToolLedger::combined(whole, p), q),
            ToolLedger::combined(ToolLedger::combined(whole, q), p),
        ),
{
    let a = ToolLedger::combined(ToolLedger::combined(whole, p), q);
    let b = ToolLedger::combined(ToolLedger::combined(whole, q), p);
    assert forall|tool: Seq<char>| #[trigger] a.contains_key(tool) == b.contains_key(tool) && (
    a.contains_key(tool) ==> same_stats(a[tool], b[tool])) by {
        let w = stats_of(whole, tool);
        assert(whole.contains_key(tool) || !whole.contains_key(tool));
        if p.contains_key(tool) && q.contains_key(tool) {
            assert(a[tool] == w.plus(p[tool]).plus(q[tool]));
            assert(b[tool] == w.plus(q[tool]).plus(p[tool]));
            lemma_costs_swap(w.costs, p[tool].costs, q[tool].costs);
            assert(whole.contains_key(tool) ==> (w.outcome_seq == p[tool].outcome_seq
                ==> w.last_outcome == p[tool].last_outcome));
            assert(whole.contains_key(tool) ==> (w.outcome_seq == q[tool].outcome_seq
                ==> w.last_outcome == q[tool].last_outcome));
        }
    }
}

proof fn lemma_costs_swap(a: Seq<NumberModel>, b: Seq<NumberModel>, c: Seq<NumberModel>)
    ensures
        (a + b + c).to_multiset() == (a + c + b).to_multiset(),
{
    vstd::seq_lib::lemma_multiset_commutative(a + b, c);
    vstd::seq_lib::lemma_multiset_commutative(a, b);
    vstd::seq_lib::lemma_multiset_commutative(a + c, b);
    vstd::seq_lib::lemma_multiset_commutative(a, c);
    assert((a + b + c).to_multiset() =~= (a + c + b).to_multiset());
}

proof fn lemma_costs_push(a: Seq<NumberModel>, b: Seq<NumberModel>, x: NumberModel)
    ensures
        (a.push(x) + b).to_multiset() == (a + b).push(x).to_multiset(),
{
    let one = seq![x];
    assert(a.push(x) + b =~= a + one + b);
    assert((a + b).push(x) =~= a + b + one);
    lemma_costs_swap(a, one, b);
}

/// No event of a ledger comes after `bound`.
pub open spec fn is_bounded(ledger: LedgerModel, bound: u64) -> bool {
    forall|tool: Seq<char>| #[trigger]
        ledger.contains_key(tool) ==> ledger[tool].last_seq <= bound && ledger[tool].outcome_seq
            <= bound
}

/// A call that comes after all others can be counted before or after a merge.
pub proof fn lemma_step_in_whole(whole: LedgerModel, part: LedgerModel, event: EventModel, bound: u64)
    requires
        is_bounded(whole, bound),
        is_bounded(part, bound),
        bound < event.seq,
    ensures
        same_ledger(
            ToolLedger::combined(ToolLedger::step(whole, event), part),
            ToolLedger::step(ToolLedger::combined(whole, part), event),
        ),
{
    if let KindModel::ToolCall { tool } = event.kind {
        let a = ToolLedger::combined(ToolLedger::step(whole, event), part);
        let b = ToolLedger::step(ToolLedger::combined(whole, part), event);
        assert forall|other: Seq<char>| #[trigger] a.contains_key(other) == b.contains_key(other)
            && (a.contains_key(other) ==> same_stats(a[other], b[other])) by {
            if other == tool && part.contains_key(tool) {
                let x = stats_of(whole, tool);
                let y = part[tool];
                assert(a[tool] == x.after_call(event.seq, event.payload).plus(y));
                assert(b[tool] == x.plus(y).after_call(event.seq, event.payload));
                if let Some(JsonModel::Number(cost)) = event.payload.field("cost"@) {
                    lemma_costs_push(x.costs, y.costs, cost);
                }
            }
        }
    }
}

/// The same of a call that is counted in the part.
pub proof fn lemma_step_in_part(whole: LedgerModel, part: LedgerModel, event: EventModel, bound: u64)
    requires
        is_bounded(whole, bound),
        is_bounded(part, bound),
        bound < event.seq,
    ensures
        same_ledger(
            ToolLedger::combined(whole, ToolLedger::step(part, event)),
            ToolLedger::step(ToolLedger::combined(whole, part), event),
        ),
{
    if let KindModel::ToolCall { tool } = event.kind {
        let a = ToolLedger::combined(whole, ToolLedger::step(part, event));
        let b = ToolLedger::step(ToolLedger::combined(whole, part), event);
        assert forall|other: Seq<char>| #[trigger] a.contains_key(other) == b.contains_key(other)
            && (a.contains_key(other) ==> same_stats(a[other], b[other])) by {
            if other == tool {
                let x = stats_of(whole, tool);
                let y = stats_of(part, tool);
                assert(a[tool] == x.plus(y.after_call(event.seq, event.payload)));
                assert(x.plus(y).costs =~= x.costs + y.costs);
                if let Some(JsonModel::Number(cost)) = event.payload.field("cost"@) {
                    assert(x.costs + y.costs.push(cost) =~= (x.costs + y.costs).push(cost));
                }
                if part.contains_key(tool) {
                    assert(b[tool] == x.plus(y).after_call(event.seq, event.payload));
                } else {
                    assert(x.costs + Seq::<NumberModel>::empty() =~= x.costs);
                    assert(b[tool] == x.after_call(event.seq, event.payload));
                }
            }
        }
    }
}

/// Counting a call keeps ledgers the same.
pub proof fn lemma_step_same(a: LedgerModel, b: LedgerModel, event: EventModel)
    requires
        same_ledger(a, b),
    ensures
        same_ledger(ToolLedger::step(a, event), ToolLedger::step(b, event)),
{
    if let KindModel::ToolCall { tool } = event.kind {
        let x = ToolLedger::step(a, event);
        let y = ToolLedger::step(b, event);
        assert forall|other: Seq<char>| #[trigger] x.contains_key(other) == y.contains_key(other)
            && (x.contains_key(other) ==> same_stats(x[other], y[other])) by {
            assert(a.contains_key(other) == b.contains_key(other));
            if other == tool {
                if let Some(JsonModel::Number(cost)) = event.payload.field("cost"@) {
                    stats_of(a, tool).costs.to_multiset_ensures();
                    stats_of(b, tool).costs.to_multiset_ensures();
                }
            }
        }
    }
}

/// Merging a part keeps ledgers the same.
pub proof fn lemma_combined_same(a: LedgerModel, b: LedgerModel, part: LedgerModel)
    requires
        same_ledger(a, b),
    ensures
        same_ledger(ToolLedger::combined(a, part), ToolLedger::combined(b, part)),
{
    let x = ToolLedger::combined(a, part);
    let y = ToolLedger::combined(b, part);
    assert forall|tool: Seq<char>| #[trigger] x.contains_key(tool) == y.contains_key(tool) && (
    x.contains_key(tool) ==> same_stats(x[tool], y[tool])) by {
        assert(a.contains_key(tool) == b.contains_key(tool));
        if part.contains_key(tool) {
            vstd::seq_lib::lemma_multiset_commutative(stats_of(a, tool).costs, part[tool].costs);
            vstd::seq_lib::lemma_multiset_commutative(stats_of(b, tool).costs, part[tool].costs);
        }
    }
}

pub proof fn lemma_same_ledger_chain(a: LedgerModel, b: LedgerModel, c: LedgerModel)
    requires
        same_ledger(a, b),
        same_ledger(b, c),
    ensures
        same_ledger(a, c),
{
    assert forall|tool: Seq<char>| #[trigger] a.contains_key(tool) == c.contains_key(tool) && (
    a.contains_key(tool) ==> same_stats(a[tool], c[tool])) by {
        assert(a.contains_key(tool) == b.contains_key(tool));
        assert(b.contains_key(tool) == c.contains_key(tool));
    }
}

/// Every tool call counts once for its tool, and for no other: one more invocation, one
/// more error if it failed or timed out, its latency and its cost on top, and what it says
/// of its outcome is the last word. Other events count for no tool.
pub proof fn law_calls_add_up(events: Seq<EventModel>, event: EventModel, tool: Seq<char>)
    ensures
        ({
            let before = stats_of(fold::<ToolLedger>(events), tool);
            let after = stats_of(fold::<ToolLedger>(events.push(event)), tool);
            if event.kind == (KindModel::ToolCall { tool }) {
                &&& fold::<ToolLedger>(events.push(event)).contains_key(tool)
                &&& after.invocations == before.invocations + 1
                &&& after.errors == before.errors + (if outcome_of(event.payload) is Failed
                    || outcome_of(event.payload) is Timeout {
                    1int
                } else {
                    0int
                })
                &&& after.total_latency_ms == before.total_latency_ms + (match event.payload.field(
                    "latency_ms"@,
                ) {
                    Some(JsonModel::Number(ms)) => match ms.unsigned {
                        Some(latency) => latency as int,
                        None => 0int,
                    },
                    _ => 0int,
                })
                &&& after.costs == (match event.payload.field("cost"@) {
                    Some(JsonModel::Number(cost)) => before.costs.push(cost),
                    _ => before.costs,
                })
                &&& after.last_seq == event.seq
                &&& match event.payload.field("outcome"@) {
                    None => after.last_outcome == before.last_outcome && after.outcome_seq
                        == before.outcome_seq,
                    Some(_) => {
                        &&& after.outcome_seq == event.seq
                        &&& after.last_outcome is Some
                        &&& outcome_of(event.payload) is Succeeded ==> after.last_outcome->0
                            == "Ok"@
                        &&& outcome_of(event.payload) is Timeout ==> after.last_outcome->0
                            == "Timeout"@
                        &&& outcome_of(event.payload) matches OutcomeModel::Failed(
                            message,
                        ) ==> after.last_outcome->0 == "Err: "@ + message
                    },
                }
            } else {
                &&& after == before
                &&& fold::<ToolLedger>(events.push(event)).contains_key(tool) == fold::<ToolLedger>(
                    events,
                ).contains_key(tool)
            }
        }),
        fold::<ToolLedger>(Seq::empty()) == Map::<Seq<char>, StatsModel>::empty(),
{
    assert(events.push(event).drop_last() =~= events);
    assert(events.push(event).last() == event);
    let before = fold::<ToolLedger>(events);
    assert(fold::<ToolLedger>(events.push(event)) == ToolLedger::step(before, event));
    crate::state::causal_thread::law_outcomes_are_canonical(event.payload);
}

/// The ledgers of two shards add up: counters and costs of a tool are those of both, and
/// the last word is that of the shard that spoke last.
pub proof fn law_shards_add_up(whole: LedgerModel, part: LedgerModel, tool: Seq<char>)
    ensures
        ({
            let all = stats_of(ToolLedger::combined(whole, part), tool);
            let left = stats_of(whole, tool);
            let right = stats_of(part, tool);
            &&& ToolLedger::combined(whole, part).contains_key(tool) <==> whole.contains_key(tool)
                || part.contains_key(tool)
            &&& all.invocations == left.invocations + right.invocations
            &&& all.errors == left.errors + right.errors
            &&& all.total_latency_ms == left.total_latency_ms + right.total_latency_ms
            &&& all.costs == left.costs + right.costs
            &&& all.last_seq == vstd::math::max(left.last_seq as int, right.last_seq as int)
            &&& right.last_outcome is None ==> all.last_outcome == left.last_outcome
            &&& right.last_outcome is Some && left.outcome_seq <= right.outcome_seq
                ==> all.last_outcome == right.last_outcome
            &&& right.last_outcome is Some && left.outcome_seq > right.outcome_seq
                ==> all.last_outcome == left.last_outcome
        }),
{
    let all = stats_of(ToolLedger::combined(whole, part), tool);
    let left = stats_of(whole, tool);
    let right = stats_of(part, tool);
    assert(all.costs =~= left.costs + right.costs);
}

} // verus!
