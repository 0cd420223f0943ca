//! The sharded event log.
//!
//! Every event gets the next global sequence number and goes to the shard of its
//! agent. Projections that span all agents are folded from the whole log.

use crate::error::{ErrorModel, HiveError, HiveResult};
use crate::event::{AgentId, Event, EventInput, EventKind, EventModel, InputModel, StreamId};
use crate::lists::{
    lemma_filter_has, lemma_filter_push, lemma_occurrences_absent, lemma_occurrences_once,
    lemma_occurrences_push, lemma_occurrences_reverse, occurrences,
};
use crate::projection::{
    combine_all, fold, law_fold_resumes, replay, Folded, Projection, ProjectionScope,
};
use crate::shard::{
    last_seq_of, law_appending_stays_current, of_stream, seqs_ascend, settled, AgentShard,
    Materialized, ShardModel, Standing,
};
use crate::sorted::{
    ascending, lemma_ascending_at, lemma_ascending_unique, lemma_map_of_domain, lemma_map_of_pair,
    lemma_map_of_value, lemma_rows_of, map_of, Replica, SortKey, SortedMap,
};
use crate::state::consent_graph::{ConsentGraph, ConsentGraphState};
use crate::state::current_facts::CurrentFacts;
use crate::state::task_state::TaskState;
use crate::state::tool_ledger::{
    is_bounded, lemma_combined_same, lemma_same_ledger_chain, lemma_step_in_part,
    lemma_step_in_whole, lemma_step_same, same_ledger, LedgerModel, ToolLedger,
};
use crate::text::{chars_of, decimal, join2, text_of, text_same, u64_text};
use vstd::prelude::*;

verus! {

/// The events of one agent.
pub open spec fn of_agent(agent: Seq<char>) -> spec_fn(EventModel) -> bool {
    |event: EventModel| event.agent_id == agent
}

/// The events of the listed agents.
pub open spec fn of_agents(agents: Seq<Seq<char>>) -> spec_fn(EventModel) -> bool {
    |event: EventModel| agents.contains(event.agent_id)
}

/// What the log persists about itself: the next free sequence number, and
/// whether the last session ended in an orderly way.
#[derive(Clone, Copy, Debug, PartialEq, Eq, Structural)]
pub struct LogMeta {
    pub next_seq: Option<u64>,
    pub clean_shutdown: bool,
}

/// What a log holds.
#[verifier::ext_equal]
pub struct LogModel {
    /// All events, in the order of their sequence numbers.
    pub history: Seq<EventModel>,
    /// The agents that have a shard, in ascending order.
    pub agents: Seq<Seq<char>>,
    /// The next free sequence number.
    pub next_seq: u64,
    /// The sequence number up to which global projections have been applied.
    pub global_checkpoint: u64,
    /// What is persisted about the log.
    pub meta: LogMeta,
}

/// The next free sequence number of a log that is opened: the persisted one can
/// be trusted only if it exists and the last session ended in an orderly way.
pub open spec fn restored_next_seq(meta: LogMeta, max_seq: u64) -> int {
    match meta.next_seq {
        Some(stored) => if meta.clean_shutdown {
            stored as int
        } else if stored > max_seq + 1 {
            stored as int
        } else {
            max_seq + 1
        },
        None => max_seq + 1,
    }
}

impl LogModel {
    /// The events of one agent, in order.
    pub open spec fn shard(self, agent: Seq<char>) -> Seq<EventModel> {
        self.history.filter(of_agent(agent))
    }

    /// The event with the given sequence number is in the log.
    pub open spec fn has_seq(self, seq: u64) -> bool {
        exists|i: int| 0 <= i < self.history.len() && (#[trigger] self.history[i]).seq == seq
    }

    /// The input can be appended: there is a sequence number left, and the
    /// agent's tool counters do not run over.
    pub open spec fn can_append(self, input: InputModel, timestamp: u64) -> bool {
        &&& self.next_seq < u64::MAX
        &&& ToolLedger::fits(
            fold::<ToolLedger>(
                self.shard(input.agent_id).push(input.event(self.next_seq, timestamp)),
            ),
        )
    }

    /// The states of a projection in the shards of the given agents; an agent
    /// without a shard has none.
    pub open spec fn parts<P: Projection>(self, agents: Seq<Seq<char>>) -> Seq<Folded<P>>
        decreases agents.len(),
    {
        if agents.len() == 0 {
            Seq::empty()
        } else {
            let before = self.parts::<P>(agents.drop_last());
            if self.agents.contains(agents.last()) {
                before.push(fold::<P>(self.shard(agents.last())))
            } else {
                before
            }
        }
    }
}

/// The sequence numbers of the log with their agents.
spec fn owners_of(history: Seq<EventModel>) -> Seq<(u64, Seq<char>)> {
    Seq::new(history.len(), |i: int| (history[i].seq, history[i].agent_id))
}

/// The keys of a sequence of pairs.
spec fn keys_of<L, W>(pairs: Seq<(L, W)>) -> Seq<L> {
    Seq::new(pairs.len(), |i: int| pairs[i].0)
}

/// Sequence numbers do not decrease.
pub open spec fn in_seq_order(events: Seq<EventModel>) -> bool {
    forall|i: int, j: int|
        0 <= i < j < events.len() ==> (#[trigger] events[i]).seq <= (#[trigger] events[j]).seq
}

/// Merges two lists that are in the order of their sequence numbers.
#[verifier::spinoff_prover]
#[verifier::rlimit(40)]
pub fn merge_by_seq(left: Vec<Event>, right: Vec<Event>) -> (r: Vec<Event>)
    requires
        in_seq_order(left.deep_view()),
        in_seq_order(right.deep_view()),
    ensures
        in_seq_order(r.deep_view()),
        forall|event: EventModel| #[trigger]
            occurrences(r.deep_view(), event) == occurrences(left.deep_view(), event) + occurrences(
                right.deep_view(),
                event,
            ),
{
    let ghost a = left.deep_view();
    let ghost b = right.deep_view();
    let mut left = left;
    let mut right = right;
    let mut taken: Vec<Event> = Vec::new();
    proof {
        assert(taken.deep_view() =~= Seq::empty());
    }
    while left.len() > 0 || right.len() > 0
        invariant
            in_seq_order(left.deep_view()),
            in_seq_order(right.deep_view()),
            in_seq_order(taken.deep_view().reverse()),
            forall|i: int, j: int|
                0 <= i < left.deep_view().len() && 0 <= j < taken.deep_view().len() ==> (
                #[trigger] left.deep_view()[i]).seq <= (#[trigger] taken.deep_view()[j]).seq,
            forall|i: int, j: int|
                0 <= i < right.deep_view().len() && 0 <= j < taken.deep_view().len() ==> (
                #[trigger] right.deep_view()[i]).seq <= (#[trigger] taken.deep_view()[j]).seq,
            forall|event: EventModel| #[trigger]
                occurrences(taken.deep_view(), event) + occurrences(left.deep_view(), event)
                    + occurrences(right.deep_view(), event) == occurrences(a, event) + occurrences(
                    b,
                    event,
                ),
        decreases left.len() + right.len(),
    {
        let ghost l = left.deep_view();
        let ghost r = right.deep_view();
        let ghost t = taken.deep_view();
        let from_left = if left.len() == 0 {
            false
        } else if right.len() == 0 {
            true
        } else {
            left[left.len() - 1].seq > right[right.len() - 1].seq
        };
        proof {
            if l.len() > 0 {
                assert(l.last() == left@[left@.len() - 1].deep_view());
            }
            if r.len() > 0 {
                assert(r.last() == right@[right@.len() - 1].deep_view());
            }
        }
        if from_left {
            if let Some(event) = left.pop() {
                taken.push(event);
                proof {
                    let e = l.last();
                    assert(taken.deep_view() =~= t.push(e));
                    assert(left.deep_view() =~= l.drop_last());
                    assert(taken.deep_view().reverse() =~= seq![e] + t.reverse());
                    assert forall|i: int, j: int|
                        0 <= i < j < taken.deep_view().len() implies (
                    #[trigger] taken.deep_view().reverse()[i]).seq <= (
                    #[trigger] taken.deep_view().reverse()[j]).seq by {
                        if i == 0 {
                            assert(taken.deep_view().reverse()[j] == t[t.len() - j]);
                            assert(l[l.len() - 1].seq <= t[t.len() - j].seq);
                        } else {
                            assert(taken.deep_view().reverse()[i] == t.reverse()[i - 1]);
                            assert(taken.deep_view().reverse()[j] == t.reverse()[j - 1]);
                        }
                    }
                    assert forall|event: EventModel| #[trigger]
                        occurrences(taken.deep_view(), event) + occurrences(left.deep_view(), event)
                            + occurrences(right.deep_view(), event) == occurrences(a, event)
                            + occurrences(b, event) by {
                        lemma_occurrences_push(t, e, event);
                        assert(occurrences(t, event) + occurrences(l, event) + occurrences(r, event)
                            == occurrences(a, event) + occurrences(b, event));
                    }
                }
            }
        } else {
            if let Some(event) = right.pop() {
                taken.push(event);
                proof {
                    let e = r.last();
                    assert(taken.deep_view() =~= t.push(e));
                    assert(right.deep_view() =~= r.drop_last());
                    assert(taken.deep_view().reverse() =~= seq![e] + t.reverse());
                    assert forall|i: int, j: int|
                        0 <= i < j < taken.deep_view().len() implies (
                    #[trigger] taken.deep_view().reverse()[i]).seq <= (
                    #[trigger] taken.deep_view().reverse()[j]).seq by {
                        if i == 0 {
                            assert(taken.deep_view().reverse()[j] == t[t.len() - j]);
                            assert(r[r.len() - 1].seq <= t[t.len() - j].seq);
                        } else {
                            assert(taken.deep_view().reverse()[i] == t.reverse()[i - 1]);
                            assert(taken.deep_view().reverse()[j] == t.reverse()[j - 1]);
                        }
                    }
                    assert forall|i: int, j: int|
                        0 <= i < left.deep_view().len() && 0 <= j < taken.deep_view().len() implies (
                    #[trigger] left.deep_view()[i]).seq <= (#[trigger] taken.deep_view()[j]).seq by {
                        if j == t.len() {
                            if i < l.len() - 1 {
                                assert(l[i].seq <= l[l.len() - 1].seq);
                            }
                        }
                    }
                    assert forall|event: EventModel| #[trigger]
                        occurrences(taken.deep_view(), event) + occurrences(left.deep_view(), event)
                            + occurrences(right.deep_view(), event) == occurrences(a, event)
                            + occurrences(b, event) by {
                        lemma_occurrences_push(t, e, event);
                        assert(occurrences(t, event) + occurrences(l, event) + occurrences(r, event)
                            == occurrences(a, event) + occurrences(b, event));
                    }
                }
            }
        }
    }
    let ghost t = taken.deep_view();
    let mut out: Vec<Event> = Vec::new();
    proof {
        assert(out.deep_view() =~= Seq::empty());
    }
    while taken.len() > 0
        invariant
            out.deep_view() + taken.deep_view().reverse() == t.reverse(),
        decreases taken.len(),
    {
        let ghost was = out.deep_view();
        let ghost rest = taken.deep_view();
        if let Some(event) = taken.pop() {
            out.push(event);
            assert(out.deep_view() =~= was.push(rest.last()));
            assert(taken.deep_view() =~= rest.drop_last());
            assert(rest.reverse() =~= seq![rest.last()] + rest.drop_last().reverse());
            assert(out.deep_view() + taken.deep_view().reverse() =~= was + rest.reverse());
        }
    }
    proof {
        assert(out.deep_view() =~= t.reverse());
        assert forall|event: EventModel| #[trigger]
            occurrences(out.deep_view(), event) == occurrences(a, event) + occurrences(b, event) by {
            lemma_occurrences_reverse(t, event);
            assert(occurrences(t, event) + occurrences(left.deep_view(), event) + occurrences(
                right.deep_view(),
                event,
            ) == occurrences(a, event) + occurrences(b, event));
        }
    }
    out
}

/// Whether an event also affects the projections that span all agents.
pub fn affects_global_projections(kind: &EventKind) -> (r: bool)
    ensures
        r == kind.deep_view().is_global(),
{
    match kind {
        EventKind::ConsentGranted { .. } => true,
        EventKind::ConsentRevoked { .. } => true,
        EventKind::IntentLogged { .. } => true,
        _ => false,
    }
}

/// A projection that every agent shard materializes.
pub trait AgentProjection: Projection {
    /// Where it stands in a shard.
    spec fn standing_in(shard: ShardModel) -> Standing<Folded<Self>>;

    /// In a current shard it has been folded from exactly the shard's events.
    proof fn current_is_settled(events: Seq<EventModel>)
        ensures
            Self::standing_in(ShardModel::current(events)) == settled::<Self>(events),
    ;

    /// Its state in a shard.
    fn in_shard(shard: &AgentShard) -> (r: &Materialized<Self>)
        ensures
            r.standing() == Self::standing_in(shard.deep_view()),
    ;
}

impl AgentProjection for CurrentFacts {
    open spec fn standing_in(shard: ShardModel) -> Standing<Folded<Self>> {
        shard.facts
    }

    proof fn current_is_settled(events: Seq<EventModel>) {
    }

    fn in_shard(shard: &AgentShard) -> (r: &Materialized<Self>) {
        shard.facts()
    }
}

impl AgentProjection for TaskState {
    open spec fn standing_in(shard: ShardModel) -> Standing<Folded<Self>> {
        shard.tasks
    }

    proof fn current_is_settled(events: Seq<EventModel>) {
    }

    fn in_shard(shard: &AgentShard) -> (r: &Materialized<Self>) {
        shard.tasks()
    }
}

impl AgentProjection for ToolLedger {
    open spec fn standing_in(shard: ShardModel) -> Standing<Folded<Self>> {
        shard.ledger
    }

    proof fn current_is_settled(events: Seq<EventModel>) {
    }

    fn in_shard(shard: &AgentShard) -> (r: &Materialized<Self>) {
        shard.ledger()
    }
}

/// The sharded event log.
pub struct EventLog {
    shards: SortedMap<String, AgentShard>,
    /// The agent of every sequence number.
    owners: SortedMap<u64, String>,
    /// The projection that spans all agents.
    consent: Materialized<ConsentGraph>,
    next_seq: u64,
    meta: LogMeta,
    history: Ghost<Seq<EventModel>>,
}

impl DeepView for EventLog {
    type V = LogModel;

    closed spec fn deep_view(&self) -> LogModel {
        LogModel {
            history: self.history@,
            agents: keys_of(self.shards.pairs()),
            next_seq: self.next_seq,
            global_checkpoint: self.consent.applied_to(),
            meta: self.meta,
        }
    }
}

proof fn lemma_keys_of<K: SortKey, W>(pairs: Seq<(K::V, W)>, key: K::V)
    ensures
        keys_of(pairs).contains(key) <==> map_of(pairs).contains_key(key),
{
    lemma_map_of_domain(pairs, key);
    if keys_of(pairs).contains(key) {
        let i = choose|i: int| 0 <= i < keys_of(pairs).len() && keys_of(pairs)[i] == key;
        assert(pairs[i].0 == key);
    }
    if exists|i: int| 0 <= i < pairs.len() && (#[trigger] pairs[i]).0 == key {
        let i = choose|i: int| 0 <= i < pairs.len() && (#[trigger] pairs[i]).0 == key;
        assert(keys_of(pairs)[i] == key);
    }
}

proof fn lemma_owners_ascend(history: Seq<EventModel>)
    requires
        seqs_ascend(history),
    ensures
        ascending::<u64, Seq<char>>(owners_of(history)),
{
    let pairs = owners_of(history);
    assert forall|i: int, j: int| 0 <= i < j < pairs.len() implies <u64 as SortKey>::before(
        #[trigger] pairs[i].0,
        #[trigger] pairs[j].0,
    ) by {
        assert(history[i].seq < history[j].seq);
    }
}

proof fn lemma_filtered_order(history: Seq<EventModel>, keep: spec_fn(EventModel) -> bool)
    requires
        seqs_ascend(history),
    ensures
        seqs_ascend(history.filter(keep)),
        history.filter(keep).len() > 0 ==> last_seq_of(history.filter(keep)) <= last_seq_of(
            history,
        ),
    decreases history.len(),
{
    reveal(Seq::filter);
    let kept = history.filter(keep);
    lemma_filter_has(history, keep);
    if history.len() > 0 {
        let rest = history.drop_last();
        let before = rest.filter(keep);
        assert(seqs_ascend(rest));
        lemma_filtered_order(rest, keep);
        lemma_filter_has(rest, keep);
        assert forall|i: int, j: int| 0 <= i < j < kept.len() implies (#[trigger] kept[i]).seq < (
        #[trigger] kept[j]).seq by {
            if j == before.len() {
                assert(before.contains(before[i]));
                let k = choose|k: int| 0 <= k < rest.len() && rest[k] == before[i];
                assert(history[k].seq < history[history.len() - 1].seq);
            }
        }
        assert forall|i: int| 0 <= i < kept.len() implies (#[trigger] kept[i]).seq >= 1 by {
            assert(kept.contains(kept[i]));
            let k = choose|k: int| 0 <= k < history.len() && history[k] == kept[i];
            assert(history[k].seq >= 1);
        }
        if kept.len() > 0 {
            assert(kept.contains(kept.last()));
            let k = choose|k: int| 0 <= k < history.len() && history[k] == kept.last();
            if k < history.len() - 1 {
                assert(history[k].seq < history[history.len() - 1].seq);
            }
        }
    }
}

/// Two ordered logs with the same events are equal.
proof fn lemma_same_events(a: Seq<EventModel>, b: Seq<EventModel>)
    requires
        seqs_ascend(a),
        seqs_ascend(b),
        forall|e: EventModel| #[trigger] a.contains(e) <==> b.contains(e),
    ensures
        a == b,
{
    let pa = Seq::new(a.len(), |i: int| (a[i].seq, a[i]));
    let pb = Seq::new(b.len(), |i: int| (b[i].seq, b[i]));
    assert(ascending::<u64, EventModel>(pa));
    assert(ascending::<u64, EventModel>(pb));
    let ma = map_of(pa);
    let mb = map_of(pb);
    assert forall|seq: u64| #[trigger] ma.contains_key(seq) implies mb.contains_key(seq) && ma[seq]
        == mb[seq] by {
        lemma_map_of_domain(pa, seq);
        lemma_map_of_domain(pb, seq);
        let i = choose|i: int| 0 <= i < pa.len() && (#[trigger] pa[i]).0 == seq;
        assert(a.contains(a[i]));
        assert(b.contains(a[i]));
        let j = choose|j: int| 0 <= j < b.len() && b[j] == a[i];
        assert(pb[j].0 == seq);
        lemma_map_of_value::<u64, EventModel>(pa, i);
        lemma_map_of_value::<u64, EventModel>(pb, j);
    }
    assert forall|seq: u64| #[trigger] mb.contains_key(seq) implies ma.contains_key(seq) by {
        lemma_map_of_domain(pa, seq);
        lemma_map_of_domain(pb, seq);
        let j = choose|j: int| 0 <= j < pb.len() && (#[trigger] pb[j]).0 == seq;
        assert(b.contains(b[j]));
        assert(a.contains(b[j]));
        let i = choose|i: int| 0 <= i < a.len() && a[i] == b[j];
        assert(pa[i].0 == seq);
    }
    assert(ma =~= mb);
    lemma_ascending_unique::<u64, EventModel>(pa, pb);
    assert(a =~= b) by {
        assert forall|i: int| 0 <= i < a.len() implies a[i] == b[i] by {
            assert(pa[i] == pb[i]);
        }
    }
}

impl EventLog {
    /// The log is in order, every shard holds its agent's events with its projections
    /// folded from them, and the global projection is the fold of all events.
    pub closed spec fn wf(&self) -> bool {
        &&& seqs_ascend(self.history@)
        &&& last_seq_of(self.history@) < self.next_seq
        &&& ascending::<String, ShardModel>(self.shards.pairs())
        &&& forall|agent: Seq<char>| #[trigger]
            self.shards.deep_view().contains_key(agent) ==> self.shards.deep_view()[agent]
                == ShardModel::current(self.history@.filter(of_agent(agent)))
        &&& forall|i: int|
            0 <= i < self.history@.len() ==> self.shards.deep_view().contains_key(
                (#[trigger] self.history@[i]).agent_id,
            )
        &&& self.owners.deep_view() == map_of(owners_of(self.history@))
        &&& self.consent.folded() == fold::<ConsentGraph>(self.history@)
        &&& self.consent.applied_to() < self.next_seq
        &&& forall|i: int|
            0 <= i < self.history@.len() && (#[trigger] self.history@[i]).seq
                > self.consent.applied_to() ==> !self.history@[i].kind.is_global()
        &&& self.meta.next_seq is Some
        &&& self.meta.next_seq->0 <= self.next_seq
        &&& forall|agent: Seq<char>| #[trigger]
            self.shards.deep_view().contains_key(agent) ==> ToolLedger::fits(
                fold::<ToolLedger>(self.shards.deep_view()[agent].events),
            )
    }

    /// In every state: sequence numbers start at one and ascend strictly, the next
    /// one is higher than all of them, and every event's agent has a shard.
    pub proof fn law_log_in_order(&self)
        requires
            self.wf(),
        ensures
            seqs_ascend(self.deep_view().history),
            self.deep_view().next_seq >= 1,
            last_seq_of(self.deep_view().history) < self.deep_view().next_seq,
            forall|i: int|
                0 <= i < self.deep_view().history.len() ==> self.deep_view().agents.contains(
                    (#[trigger] self.deep_view().history[i]).agent_id,
                ),
            self.deep_view().agents.no_duplicates(),
            self.deep_view().global_checkpoint < self.deep_view().next_seq,
            self.deep_view().meta.next_seq is Some,
            self.deep_view().meta.next_seq->0 <= self.deep_view().next_seq,
    {
        let model = self.deep_view();
        assert forall|i: int| 0 <= i < model.history.len() implies model.agents.contains(
            (#[trigger] model.history[i]).agent_id,
        ) by {
            lemma_keys_of::<String, ShardModel>(
                self.shards.pairs(),
                model.history[i].agent_id,
            );
        }
        let pairs = self.shards.pairs();
        assert forall|i: int, j: int|
            0 <= i < model.agents.len() && 0 <= j < model.agents.len() && i
                != j implies model.agents[i] != model.agents[j] by {
            if i < j {
                lemma_ascending_at::<String, ShardModel>(pairs, i, j);
            } else {
                lemma_ascending_at::<String, ShardModel>(pairs, j, i);
            }
            <String as SortKey>::before_irreflexive(pairs[i].0);
        }
    }

    /// Only tool calls are counted, so every other event can be appended as long as
    /// there is a sequence number left.
    pub proof fn lemma_can_append(&self, input: InputModel, timestamp: u64)
        requires
            self.wf(),
            self.deep_view().next_seq < u64::MAX,
            !(input.kind is ToolCall),
        ensures
            self.deep_view().can_append(input, timestamp),
    {
        let model = self.deep_view();
        let shard = model.shard(input.agent_id);
        let event = input.event(model.next_seq, timestamp);
        assert(shard.push(event).drop_last() =~= shard);
        if !self.shards.deep_view().contains_key(input.agent_id) {
            self.lemma_no_shard(input.agent_id);
        }
        assert(ToolLedger::step(fold::<ToolLedger>(shard), event) == fold::<ToolLedger>(shard));
    }

    /// A log without events.
    pub fn new() -> (r: Self)
        ensures
            r.wf(),
            r.deep_view() == (LogModel {
                history: Seq::empty(),
                agents: Seq::empty(),
                next_seq: 1,
                global_checkpoint: 0,
                meta: LogMeta { next_seq: Some(1), clean_shutdown: false },
            }),
    {
        let r = EventLog {
            shards: SortedMap::new(),
            owners: SortedMap::new(),
            consent: Materialized::new(),
            next_seq: 1,
            meta: LogMeta { next_seq: Some(1), clean_shutdown: false },
            history: Ghost(Seq::empty()),
        };
        assert(owners_of(r.history@) =~= Seq::empty());
        assert(r.deep_view().agents =~= Seq::empty());
        r
    }

    /// Puts an event, which carries the next sequence number, in its place.
    fn store(&mut self, event: &Event)
        requires
            old(self).wf(),
            event.seq >= old(self).deep_view().next_seq,
            event.seq < u64::MAX,
            ToolLedger::fits(
                fold::<ToolLedger>(
                    old(self).deep_view().shard(event.deep_view().agent_id).push(
                        event.deep_view(),
                    ),
                ),
            ),
        ensures
            final(self).wf(),
            final(self).deep_view().history == old(self).deep_view().history.push(
                event.deep_view(),
            ),
            final(self).deep_view().next_seq == event.seq + 1,
            forall|agent: Seq<char>| #[trigger]
                final(self).deep_view().agents.contains(agent) <==> old(
                    self,
                ).deep_view().agents.contains(agent) || agent == event.deep_view().agent_id,
            final(self).deep_view().global_checkpoint == (if event.deep_view().kind.is_global() {
                event.seq
            } else {
                old(self).deep_view().global_checkpoint
            }),
            final(self).deep_view().meta == (if event.deep_view().kind.is_global() {
                LogMeta { next_seq: Some((event.seq + 1) as u64), ..old(self).deep_view().meta }
            } else {
                old(self).deep_view().meta
            }),
    {
        let ghost h = self.history@;
        let ghost e = event.deep_view();
        let ghost after = h.push(e);
        let ghost a = e.agent_id;
        let ghost before = self.shards.deep_view();
        let ghost was = *self;
        let mut shard = match self.shards.remove(&event.agent_id.0) {
            Some(shard) => shard,
            None => AgentShard::new(),
        };
        proof {
            assert(shard.deep_view().events =~= h.filter(of_agent(a))) by {
                if !before.contains_key(a) {
                    lemma_filter_has(h, of_agent(a));
                    let f = h.filter(of_agent(a));
                    if f.len() > 0 {
                        assert(f.contains(f[0]));
                        let i = choose|i: int| 0 <= i < h.len() && h[i] == f[0];
                        assert(before.contains_key(h[i].agent_id));
                    }
                }
            }
            lemma_filtered_order(h, of_agent(a));
            lemma_filter_push(h, e, of_agent(a));
            law_appending_stays_current(h.filter(of_agent(a)), e);
        }
        shard.append_event(event);
        self.shards.insert(event.agent_id.0.clone(), shard);
        self.owners.insert(event.seq, event.agent_id.0.clone());
        if affects_global_projections(&event.kind) {
            self.consent.apply_event(event);
            self.meta.next_seq = Some(event.seq + 1);
        }
        self.next_seq = event.seq + 1;
        self.history = Ghost(after);
        let count: usize = self.shards.len();
        proof {
            assert(after.drop_last() =~= h);
            assert(seqs_ascend(after)) by {
                assert forall|i: int, j: int| 0 <= i < j < after.len() implies (
                #[trigger] after[i]).seq < (#[trigger] after[j]).seq by {
                    if j == h.len() && i < h.len() - 1 {
                        assert(h[i].seq < h[h.len() - 1].seq);
                    }
                }
            }
            let now = self.shards.deep_view();
            assert(now =~= before.insert(a, ShardModel::current(after.filter(of_agent(a)))));
            assert forall|agent: Seq<char>| #[trigger]
                now.contains_key(agent) implies now[agent] == ShardModel::current(
                after.filter(of_agent(agent)),
            ) by {
                lemma_filter_push(h, e, of_agent(agent));
            }
            assert(owners_of(after).drop_last() =~= owners_of(h));
            assert(owners_of(after).last() == (e.seq, a));
            assert forall|agent: Seq<char>| #[trigger]
                self.deep_view().agents.contains(agent) <==> was.deep_view().agents.contains(agent)
                    || agent == a by {
                lemma_keys_of::<String, ShardModel>(self.shards.pairs(), agent);
                lemma_keys_of::<String, ShardModel>(was.shards.pairs(), agent);
            }
        }
    }

    /// Append a new event and update the projections of the agent shard (and the
    /// global one if the event affects it).
    pub fn append(&mut self, input: EventInput, timestamp: u64) -> (r: Event)
        requires
            old(self).wf(),
            old(self).deep_view().can_append(input.deep_view(), timestamp),
        ensures
            final(self).wf(),
            r.deep_view() == input.deep_view().event(old(self).deep_view().next_seq, timestamp),
            final(self).deep_view().history == old(self).deep_view().history.push(r.deep_view()),
            final(self).deep_view().next_seq == old(self).deep_view().next_seq + 1,
            forall|agent: Seq<char>| #[trigger]
                final(self).deep_view().agents.contains(agent) <==> old(
                    self,
                ).deep_view().agents.contains(agent) || agent == input.deep_view().agent_id,
            final(self).deep_view().global_checkpoint == (if input.deep_view().kind.is_global() {
                r.seq
            } else {
                old(self).deep_view().global_checkpoint
            }),
            final(self).deep_view().meta == (if input.deep_view().kind.is_global() {
                LogMeta { next_seq: Some((r.seq + 1) as u64), ..old(self).deep_view().meta }
            } else {
                old(self).deep_view().meta
            }),
    {
        let event = Event {
            seq: self.next_seq,
            agent_id: input.agent_id,
            stream_id: input.stream_id,
            kind: input.kind,
            timestamp,
            causation: input.causation,
            correlation: input.correlation,
            payload: input.payload,
        };
        self.store(&event);
        event
    }

    /// Read a single event by sequence number.
    pub fn read(&self, seq: u64) -> (r: HiveResult<Event>)
        requires
            self.wf(),
        ensures
            match r {
                Ok(event) => event.seq == seq && self.deep_view().history.contains(
                    event.deep_view(),
                ),
                Err(error) => !self.deep_view().has_seq(seq) && error.deep_view()
                    == ErrorModel::NotFound("event seq="@ + decimal(seq as nat)),
            },
            forall|event: EventModel| #[trigger]
                self.deep_view().history.contains(event) && event.seq == seq ==> r is Ok
                    && r->Ok_0.deep_view() == event,
    {
        let ghost h = self.history@;
        let ghost pairs = owners_of(h);
        if let Some(agent) = self.owners.get(&seq) {
            proof {
                lemma_map_of_pair(pairs, seq);
            }
            let ghost i = choose|i: int|
                0 <= i < pairs.len() && #[trigger] pairs[i] == (seq, map_of(pairs)[seq]);
            assert(pairs[i] == (h[i].seq, h[i].agent_id));
            if let Some(shard) = self.shards.get(agent) {
                proof {
                    lemma_filter_has(h, of_agent(agent@));
                    assert(h.contains(h[i]));
                    assert(shard.deep_view().events.contains(h[i]));
                }
                if let Some(event) = shard.read_event(seq) {
                    proof {
                        assert forall|other: EventModel| #[trigger]
                            h.contains(other) && other.seq == seq implies event.deep_view()
                            == other by {
                            law_one_event_per_seq(h, event.deep_view(), other);
                        }
                    }
                    return Ok(event);
                }
                proof {
                    let k = choose|k: int|
                        0 <= k < shard.deep_view().events.len() && shard.deep_view().events[k]
                            == h[i];
                    assert(shard.deep_view().events[k].seq != seq);
                }
            }
            assert(false);
        }
        proof {
            lemma_map_of_domain(pairs, seq);
            if self.deep_view().has_seq(seq) {
                let i = choose|i: int| 0 <= i < h.len() && (#[trigger] h[i]).seq == seq;
                assert(pairs[i].0 == seq);
            }
            assert forall|other: EventModel| #[trigger] h.contains(other) implies other.seq
                != seq by {
                let k = choose|k: int| 0 <= k < h.len() && h[k] == other;
                assert(h[k].seq == other.seq);
            }
        }
        Err(HiveError::NotFound(join2("event seq=", u64_text(seq).as_str())))
    }

    /// Returns the highest assigned sequence number, or 0 if the log is empty.
    pub fn last_seq(&self) -> (r: u64)
        requires
            self.wf(),
        ensures
            r == self.deep_view().next_seq - 1,
    {
        self.next_seq - 1
    }

    /// Returns the number of events in the log.
    pub fn len(&self) -> (r: u64)
        requires
            self.wf(),
        ensures
            r == self.deep_view().history.len(),
    {
        proof {
            lemma_owners_ascend(self.history@);
            lemma_rows_of::<u64, Seq<char>>(owners_of(self.history@));
        }
        self.owners.len() as u64
    }

    /// What is persisted about the log.
    pub fn meta(&self) -> (r: LogMeta)
        ensures
            r == self.deep_view().meta,
    {
        self.meta
    }

    /// Persists the counter and marks the shutdown as orderly, together: a new
    /// counter with the old mark, or the other way round, would mislead the next
    /// opening.
    pub fn flush_next_seq(&mut self)
        requires
            old(self).wf(),
        ensures
            final(self).wf(),
            final(self).deep_view() == (LogModel {
                meta: LogMeta {
                    next_seq: Some(old(self).deep_view().next_seq),
                    clean_shutdown: true,
                },
                ..old(self).deep_view()
            }),
    {
        self.meta = LogMeta { next_seq: Some(self.next_seq), clean_shutdown: true };
    }

    /// All agents with a shard, in ascending order.
    pub fn all_agents(&self) -> (r: Vec<AgentId>)
        requires
            self.wf(),
        ensures
            r.deep_view() == self.deep_view().agents,
    {
        let n: usize = self.shards.len();
        let ghost pairs = self.shards.pairs();
        let ghost agents = keys_of(pairs);
        let mut out: Vec<AgentId> = Vec::new();
        let mut i: usize = 0;
        assert(out.deep_view() =~= agents.take(0));
        while i < n
            invariant
                i <= n,
                n == pairs.len(),
                pairs == self.shards.pairs(),
                agents == keys_of(pairs),
                out.deep_view() == agents.take(i as int),
            decreases n - i,
        {
            let ghost was = out.deep_view();
            out.push(AgentId(self.shards.key_at(i).clone()));
            assert(out.deep_view() =~= was.push(agents[i as int]));
            assert(agents.take(i + 1) =~= was.push(agents[i as int]));
            i += 1;
        }
        assert(agents.take(i as int) =~= agents);
        out
    }

    /// Read all events for a given agent/stream in ascending order.
    pub fn read_stream(&self, agent_id: &AgentId, stream_id: &StreamId) -> (r: Vec<Event>)
        requires
            self.wf(),
        ensures
            r.deep_view() == self.deep_view().shard(agent_id.deep_view()).filter(
                of_stream(stream_id.deep_view()),
            ),
    {
        match self.shards.get(&agent_id.0) {
            Some(shard) => shard.stream_events(stream_id),
            None => {
                let nothing: Vec<Event> = Vec::new();
                proof {
                    self.lemma_no_shard(agent_id.deep_view());
                    reveal(Seq::filter);
                    assert(nothing.deep_view() =~= Seq::empty());
                }
                nothing
            },
        }
    }

    /// An agent without a shard has no events.
    proof fn lemma_no_shard(&self, agent: Seq<char>)
        requires
            self.wf(),
            !self.shards.deep_view().contains_key(agent),
        ensures
            self.deep_view().shard(agent) == Seq::<EventModel>::empty(),
    {
        let h = self.history@;
        let f = h.filter(of_agent(agent));
        lemma_filter_has(h, of_agent(agent));
        if f.len() > 0 {
            assert(f.contains(f[0]));
            let i = choose|i: int| 0 <= i < h.len() && h[i] == f[0];
            assert(self.shards.deep_view().contains_key(h[i].agent_id));
        }
        assert(f =~= Seq::empty());
    }

    /// Reads a stream restricted to a list of agents, in seq order. Each event of
    /// the stream comes as often as its agent is listed.
    ///
    /// This is the variant for a base that several tenants share: it touches only
    /// the shards of the agents asked for, so it neither returns the events of
    /// other tenants nor pays for them.
    pub fn read_stream_for_agents(&self, agents: &Vec<AgentId>, stream_id: &StreamId) -> (r: Vec<
        Event,
    >)
        requires
            self.wf(),
        ensures
            in_seq_order(r.deep_view()),
            forall|event: EventModel| #[trigger]
                occurrences(r.deep_view(), event) == times_listed(
                    self.deep_view(),
                    agents.deep_view(),
                    stream_id.deep_view(),
                    event,
                ),
            agents.deep_view().no_duplicates() ==> r.deep_view() == self.deep_view().history.filter(
                in_stream_of(agents.deep_view(), stream_id.deep_view()),
            ),
    {
        let ghost model = self.deep_view();
        let ghost listed = agents.deep_view();
        let ghost stream = stream_id.deep_view();
        let mut out: Vec<Event> = Vec::new();
        let mut i: usize = 0;
        proof {
            assert(out.deep_view() =~= Seq::empty());
            assert(listed.take(0) =~= Seq::empty());
        }
        while i < agents.len()
            invariant
                i <= agents.len(),
                self.wf(),
                model == self.deep_view(),
                listed == agents.deep_view(),
                stream == stream_id.deep_view(),
                in_seq_order(out.deep_view()),
                forall|event: EventModel| #[trigger]
                    occurrences(out.deep_view(), event) == times_listed(
                        model,
                        listed.take(i as int),
                        stream,
                        event,
                    ),
            decreases agents.len() - i,
        {
            let ghost was = out.deep_view();
            let part = self.read_stream(&agents[i], stream_id);
            let ghost agent = listed[i as int];
            proof {
                assert(agent == agents@[i as int].deep_view());
                lemma_filtered_order(model.history, of_agent(agent));
                lemma_filtered_order(model.shard(agent), of_stream(stream));
            }
            let ghost found = part.deep_view();
            out = merge_by_seq(out, part);
            proof {
                let next = listed.take(i + 1);
                assert(next.drop_last() =~= listed.take(i as int));
                assert forall|event: EventModel| #[trigger]
                    occurrences(out.deep_view(), event) == times_listed(
                        model,
                        next,
                        stream,
                        event,
                    ) by {
                    assert(occurrences(was, event) == times_listed(
                        model,
                        listed.take(i as int),
                        stream,
                        event,
                    ));
                    lemma_once_in_part(model, agent, stream, event);
                }
            }
            i += 1;
        }
        proof {
            assert(listed.take(i as int) =~= listed);
            if listed.no_duplicates() {
                let keep = in_stream_of(listed, stream);
                let all = out.deep_view();
                lemma_filtered_order(model.history, keep);
                lemma_filter_has(model.history, keep);
                assert forall|event: EventModel| #[trigger] all.contains(event) <==> model.history.filter(
                    keep,
                ).contains(event) by {
                    assert(occurrences(all, event) == times_listed(model, listed, stream, event));
                    lemma_occurrences_absent(all, event);
                    lemma_occurrences_absent(listed, event.agent_id);
                }
                assert(seqs_ascend(all)) by {
                    assert forall|x: int| 0 <= x < all.len() implies (#[trigger] all[x]).seq >= 1 by {
                        assert(all.contains(all[x]));
                        assert(model.history.filter(keep).contains(all[x]));
                        let k = choose|k: int|
                            0 <= k < model.history.len() && model.history[k] == all[x];
                        assert(model.history[k].seq >= 1);
                    }
                    assert forall|x: int, y: int| 0 <= x < y < all.len() implies (
                    #[trigger] all[x]).seq < (#[trigger] all[y]).seq by {
                        if all[x].seq == all[y].seq {
                            assert(all.contains(all[x]));
                            assert(all.contains(all[y]));
                            assert(model.history.contains(all[x]));
                            assert(model.history.contains(all[y]));
                            let k = choose|k: int|
                                0 <= k < model.history.len() && model.history[k] == all[x];
                            let l = choose|l: int|
                                0 <= l < model.history.len() && model.history[l] == all[y];
                            if k < l {
                                assert(model.history[k].seq < model.history[l].seq);
                            } else if l < k {
                                assert(model.history[l].seq < model.history[k].seq);
                            }
                            assert(all[x] == all[y]);
                            assert(occurrences(all, all[x]) == times_listed(
                                model,
                                listed,
                                stream,
                                all[x],
                            ));
                            lemma_occurrences_once(listed, all[x].agent_id);
                            lemma_twice(all, x, y);
                        }
                    }
                }
                lemma_same_events(all, model.history.filter(keep));
            }
        }
        out
    }

    /// Read all events for a stream across every agent shard, in seq order.
    ///
    /// Covers the whole log. Where the base hosts several tenants, use
    /// [`EventLog::read_stream_for_agents`], which does not mix their events.
    pub fn read_stream_all_agents(&self, stream_id: &StreamId) -> (r: Vec<Event>)
        requires
            self.wf(),
        ensures
            r.deep_view() == self.deep_view().history.filter(of_stream(stream_id.deep_view())),
    {
        let agents = self.all_agents();
        proof {
            self.law_log_in_order();
            let model = self.deep_view();
            let stream = stream_id.deep_view();
            lemma_same_filter(
                model.history,
                in_stream_of(model.agents, stream),
                of_stream(stream),
            );
        }
        self.read_stream_for_agents(&agents, stream_id)
    }
}

/// Whether an agent is among the listed ones.
fn lists(agents: &Vec<AgentId>, agent: &String) -> (r: bool)
    ensures
        r == agents.deep_view().contains(agent@),
{
    let ghost all = agents.deep_view();
    let mut i: usize = 0;
    while i < agents.len()
        invariant
            i <= agents.len(),
            all == agents.deep_view(),
            forall|j: int| 0 <= j < i ==> #[trigger] all[j] != agent@,
        decreases agents.len() - i,
    {
        assert(all[i as int] == agents@[i as int].deep_view());
        if agents[i].0 == *agent {
            return true;
        }
        i += 1;
    }
    false
}

/// The events of the log, in order, gathered from the shards.
fn gather(
    shards: &SortedMap<String, AgentShard>,
    owners: &SortedMap<u64, String>,
    Ghost(history): Ghost<Seq<EventModel>>,
) -> (r: Vec<Event>)
    requires
        seqs_ascend(history),
        owners.deep_view() == map_of(owners_of(history)),
        forall|i: int|
            0 <= i < history.len() ==> shards.deep_view().contains_key(
                (#[trigger] history[i]).agent_id,
            ),
        forall|agent: Seq<char>| #[trigger]
            shards.deep_view().contains_key(agent) ==> shards.deep_view()[agent].events
                == history.filter(of_agent(agent)),
    ensures
        r.deep_view() == history,
{
    let n: usize = owners.len();
    let ghost pairs = owners.pairs();
    proof {
        lemma_owners_ascend(history);
        lemma_rows_of::<u64, Seq<char>>(owners_of(history));
        assert(pairs == owners_of(history));
    }
    let mut out: Vec<Event> = Vec::new();
    let mut i: usize = 0;
    assert(out.deep_view() =~= history.take(0));
    while i < n
        invariant
            i <= n,
            n == history.len(),
            pairs == owners_of(history),
            pairs == owners.pairs(),
            seqs_ascend(history),
            forall|i: int|
                0 <= i < history.len() ==> shards.deep_view().contains_key(
                    (#[trigger] history[i]).agent_id,
                ),
            forall|agent: Seq<char>| #[trigger]
                shards.deep_view().contains_key(agent) ==> shards.deep_view()[agent].events
                    == history.filter(of_agent(agent)),
            out.deep_view() == history.take(i as int),
        decreases n - i,
    {
        let seq: u64 = *owners.key_at(i);
        let agent = owners.value_at(i);
        let ghost e = history[i as int];
        let ghost was = out.deep_view();
        assert(pairs[i as int] == (e.seq, e.agent_id));
        if let Some(shard) = shards.get(agent) {
            let ghost events = shard.deep_view().events;
            proof {
                lemma_filter_has(history, of_agent(agent@));
                assert(history.contains(e));
                assert(events.contains(e));
            }
            if let Some(event) = shard.read_event(seq) {
                proof {
                    let found = event.deep_view();
                    assert(events.contains(found));
                    assert(history.contains(found));
                    let k = choose|k: int| 0 <= k < history.len() && history[k] == found;
                    if k < i {
                        assert(history[k].seq < history[i as int].seq);
                    } else if i < k {
                        assert(history[i as int].seq < history[k].seq);
                    }
                }
                out.push(event);
                assert(out.deep_view() =~= was.push(e));
            } else {
                proof {
                    let k = choose|k: int| 0 <= k < events.len() && events[k] == e;
                    assert(events[k].seq != seq);
                }
            }
        }
        assert(history.take(i + 1) =~= was.push(e));
        i += 1;
    }
    assert(history.take(i as int) =~= history);
    out
}

/// The shards hold exactly the events of this history, each at its agent, and their
/// projections are current.
pub open spec fn is_history(
    history: Seq<EventModel>,
    shards: Seq<(Seq<char>, ShardModel)>,
) -> bool {
    &&& seqs_ascend(history)
    &&& forall|i: int, j: int|
        0 <= i < j < shards.len() ==> (#[trigger] shards[i]).0 != (#[trigger] shards[j]).0
    &&& forall|i: int|
        0 <= i < shards.len() ==> (#[trigger] shards[i]).1 == ShardModel::current(
            history.filter(of_agent(shards[i].0)),
        )
    &&& forall|i: int|
        0 <= i < history.len() ==> has_shard(shards, (#[trigger] history[i]).agent_id)
}

/// The agent is among the shards.
pub open spec fn has_shard(
    shards: Seq<(Seq<char>, ShardModel)>,
    agent: Seq<char>,
) -> bool {
    exists|i: int| 0 <= i < shards.len() && (#[trigger] shards[i]).0 == agent
}

/// A state that global projections had been persisted in: it is the fold of the
/// events up to its checkpoint, or of those and later ones that do not concern it.
pub open spec fn resumes(
    consent: Materialized<ConsentGraph>,
    history: Seq<EventModel>,
    n: int,
) -> bool {
    &&& 0 <= n <= history.len()
    &&& consent.folded() == fold::<ConsentGraph>(history.take(n))
    &&& n > 0 ==> history[n - 1].seq <= consent.applied_to()
    &&& n < history.len() ==> consent.applied_to() < history[n].seq
}

/// The shards, and the global projection, can be opened as a log.
pub open spec fn can_open(
    shards: Seq<(Seq<char>, ShardModel)>,
    consent: Materialized<ConsentGraph>,
    meta: LogMeta,
    history: Seq<EventModel>,
) -> bool {
    &&& is_history(history, shards)
    &&& exists|n: int| #[trigger] resumes(consent, history, n)
    &&& last_seq_of(history) < restored_next_seq(meta, last_seq_of(history)) <= u64::MAX
    &&& consent.applied_to() < restored_next_seq(meta, last_seq_of(history))
}

impl EventLog {
    /// Opens a log from its shards, the persisted global projection and what was
    /// persisted about the log.
    ///
    /// After an orderly shutdown the persisted counter is enough. If the last
    /// session broke off, it may lag behind, since events that are not global do
    /// not persist it, and it is found again from the events themselves. The log is
    /// marked as open, so that the next opening knows if this session breaks off,
    /// and the global projection catches up.
    #[verifier::rlimit(40)]
    pub fn open(
        shards: Vec<(AgentId, AgentShard)>,
        consent: Materialized<ConsentGraph>,
        meta: LogMeta,
    ) -> (r: Self)
        requires
            exists|history: Seq<EventModel>| #[trigger]
                can_open(shards.deep_view(), consent, meta, history),
        ensures
            r.wf(),
            is_history(r.deep_view().history, shards.deep_view()),
            r.deep_view().next_seq == restored_next_seq(
                meta,
                last_seq_of(r.deep_view().history),
            ),
            forall|agent: Seq<char>| #[trigger]
                r.deep_view().agents.contains(agent) <==> has_shard(shards.deep_view(), agent),
            r.deep_view().global_checkpoint == r.deep_view().next_seq - 1,
            r.deep_view().meta == (LogMeta {
                next_seq: Some(r.deep_view().next_seq),
                clean_shutdown: false,
            }),
    {
        let ghost given = shards.deep_view();
        let ghost history = choose|history: Seq<EventModel>| #[trigger]
            can_open(given, consent, meta, history);
        let ghost n = choose|n: int| #[trigger] resumes(consent, history, n);
        let mut rest = shards;
        let mut shards: SortedMap<String, AgentShard> = SortedMap::new();
        let mut owners: SortedMap<u64, String> = SortedMap::new();
        proof {
            assert(given.take(given.len() as int) =~= given);
        }
        while rest.len() > 0
            invariant
                rest@.len() <= given.len(),
                rest.deep_view() == given.take(rest@.len() as int),
                is_history(history, given),
                forall|agent: Seq<char>| #[trigger]
                    shards.deep_view().contains_key(agent) <==> has_shard(
                        given.skip(rest@.len() as int),
                        agent,
                    ),
                forall|agent: Seq<char>| #[trigger]
                    shards.deep_view().contains_key(agent) ==> shards.deep_view()[agent]
                        == ShardModel::current(history.filter(of_agent(agent))),
                forall|seq: u64| #[trigger]
                    owners.deep_view().contains_key(seq) ==> owns(
                        history,
                        seq,
                        owners.deep_view()[seq],
                    ),
                forall|i: int|
                    0 <= i < history.len() && shards.deep_view().contains_key(
                        (#[trigger] history[i]).agent_id,
                    ) ==> owners.deep_view().contains_key(history[i].seq),
                forall|agent: Seq<char>| #[trigger]
                    shards.deep_view().contains_key(agent) ==> ToolLedger::fits(
                        fold::<ToolLedger>(shards.deep_view()[agent].events),
                    ),
            decreases rest@.len(),
        {
            let ghost count = rest@.len();
            let ghost were = rest.deep_view();
            let ghost before = shards.deep_view();
            let ghost owned = owners.deep_view();
            let (agent, shard) = rest.pop().unwrap();
            let ghost a = agent.deep_view();
            let ghost events = shard.deep_view().events;
            let counters = shard.ledger().state();
            proof {
                ToolLedger::state_fits(counters);
                assert(given[count - 1] == were[count - 1]);
                assert(given[count - 1] == (a, shard.deep_view()));
                assert(rest.deep_view() =~= given.take(count - 1));
                lemma_filter_has(history, of_agent(a));
            }
            let list = shard.iter_events();
            let mut j: usize = 0;
            while j < list.len()
                invariant
                    j <= list.len(),
                    list.deep_view() == events,
                    events == history.filter(of_agent(a)),
                    a == agent.deep_view(),
                    seqs_ascend(history),
                    forall|e: EventModel| #[trigger]
                        events.contains(e) <==> history.contains(e) && of_agent(a)(e),
                    forall|seq: u64| #[trigger]
                        owners.deep_view().contains_key(seq) ==> owns(
                            history,
                            seq,
                            owners.deep_view()[seq],
                        ),
                    forall|seq: u64| #[trigger]
                        owned.contains_key(seq) ==> owners.deep_view().contains_key(seq),
                    forall|k: int|
                        0 <= k < j ==> owners.deep_view().contains_key((#[trigger] events[k]).seq),
                decreases list.len() - j,
            {
                let ghost e = events[j as int];
                proof {
                    assert(list@[j as int].deep_view() == e);
                    assert(events.contains(e));
                    assert(history.contains(e));
                    let k = choose|k: int| 0 <= k < history.len() && history[k] == e;
                    assert(history[k].seq == e.seq && history[k].agent_id == a);
                    assert(owns(history, e.seq, a));
                }
                owners.insert(list[j].seq, agent.0.clone());
                j += 1;
            }
            proof {
                let now = before.insert(a, shard.deep_view());
                let tail = given.skip(count - 1);
                assert forall|other: Seq<char>| #[trigger]
                    now.contains_key(other) <==> has_shard(tail, other) by {
                    let short = given.skip(count as int);
                    if has_shard(tail, other) {
                        let i = choose|i: int| 0 <= i < tail.len() && (#[trigger] tail[i]).0 == other;
                        if i > 0 {
                            assert(short[i - 1].0 == other);
                        }
                    }
                    if has_shard(short, other) {
                        let i = choose|i: int|
                            0 <= i < short.len() && (#[trigger] short[i]).0 == other;
                        assert(tail[i + 1].0 == other);
                    }
                    assert(tail[0].0 == a);
                }
                assert forall|i: int|
                    0 <= i < history.len() && now.contains_key(
                        (#[trigger] history[i]).agent_id,
                    ) implies owners.deep_view().contains_key(history[i].seq) by {
                    if history[i].agent_id == a {
                        assert(history.contains(history[i]));
                        assert(events.contains(history[i]));
                        let k = choose|k: int| 0 <= k < events.len() && events[k] == history[i];
                        assert(owners.deep_view().contains_key(events[k].seq));
                    } else {
                        assert(before.contains_key(history[i].agent_id));
                        assert(owned.contains_key(history[i].seq));
                    }
                }
            }
            shards.insert(agent.0, shard);
        }
        proof {
            assert(given.skip(0) =~= given);
            assert forall|i: int| 0 <= i < history.len() implies shards.deep_view().contains_key(
                (#[trigger] history[i]).agent_id,
            ) by {
                assert(has_shard(given, history[i].agent_id));
            }
            lemma_owners_map(history, owners.deep_view());
        }
        let events = gather(&shards, &owners, Ghost(history));
        let max_seq: u64 = if events.len() > 0 {
            assert(history.last() == events@[events@.len() - 1].deep_view());
            events[events.len() - 1].seq
        } else {
            0
        };
        let next_seq: u64 = match meta.next_seq {
            Some(stored) => if meta.clean_shutdown {
                stored
            } else if stored > max_seq && stored - 1 > max_seq {
                stored
            } else {
                max_seq + 1
            },
            None => max_seq + 1,
        };
        let mut at: usize = 0;
        while at < events.len() && events[at].seq <= consent.checkpoint()
            invariant
                at <= events.len(),
                history == events.deep_view(),
                seqs_ascend(history),
                resumes(consent, history, n),
                at <= n,
            decreases events.len() - at,
        {
            proof {
                assert(history[at as int] == events@[at as int].deep_view());
            }
            at += 1;
        }
        proof {
            if at < n {
                assert(history[at as int] == events@[at as int].deep_view());
                if at < n - 1 {
                    assert(history[at as int].seq < history[n - 1].seq);
                }
            }
            assert(at == n);
            law_fold_resumes::<ConsentGraph>(
                ConsentGraph::initial(),
                history.take(n),
                history.skip(n),
            );
            assert(history.take(n) + history.skip(n) =~= history);
        }
        let mut state = consent.state().replica();
        replay::<ConsentGraph>(&mut state, &events, at);
        let count: usize = shards.len();
        let r = EventLog {
            shards,
            owners,
            consent: Materialized::from_parts(state, next_seq - 1),
            next_seq,
            meta: LogMeta { next_seq: Some(next_seq), clean_shutdown: false },
            history: Ghost(history),
        };
        proof {
            assert forall|agent: Seq<char>| #[trigger]
                r.deep_view().agents.contains(agent) <==> has_shard(given, agent) by {
                lemma_keys_of::<String, ShardModel>(r.shards.pairs(), agent);
            }
        }
        r
    }

    /// Wipe all materialized projection state and rebuild it from the log. The
    /// events stay, and every projection comes out as it was.
    pub fn wipe_projections_and_rebuild(&mut self)
        requires
            old(self).wf(),
        ensures
            final(self).wf(),
            final(self).deep_view() == (LogModel {
                global_checkpoint: (old(self).deep_view().next_seq - 1) as u64,
                ..old(self).deep_view()
            }),
    {
        let ghost before = self.shards.deep_view();
        let ghost was = *self;
        let n: usize = self.shards.len();
        let agents = self.all_agents();
        let mut i: usize = 0;
        while i < agents.len()
            invariant
                i <= agents.len(),
                self.shards.deep_view() == before,
                forall|agent: Seq<char>| #[trigger]
                    before.contains_key(agent) ==> before[agent] == ShardModel::current(
                        was.history@.filter(of_agent(agent)),
                    ),
                self.owners == was.owners,
                self.consent == was.consent,
                self.next_seq == was.next_seq,
                self.meta == was.meta,
                self.history == was.history,
            decreases agents.len() - i,
        {
            let ghost a = agents@[i as int].0@;
            if let Some(taken) = self.shards.remove(&agents[i].0) {
                let mut shard = taken;
                shard.wipe_and_rebuild_local();
                self.shards.insert(agents[i].0.clone(), shard);
                assert(self.shards.deep_view() =~= before);
            }
            assert(self.shards.deep_view() =~= before);
            i += 1;
        }
        let count: usize = self.shards.len();
        let events = gather(&self.shards, &self.owners, Ghost(self.history@));
        let mut state = ConsentGraph::empty_state();
        assert(events.deep_view().skip(0) =~= events.deep_view());
        replay::<ConsentGraph>(&mut state, &events, 0);
        self.consent = Materialized::from_parts(state, self.next_seq - 1);
        assert(self.shards.pairs() == was.shards.pairs());
    }

    /// State of a projection, restricted to a list of agents.
    ///
    /// The state lives in the shards and is combined here. In a base that several
    /// tenants share, combining all shards would count the other tenants too, so
    /// the caller says whom it asks about.
    pub fn project_local<P: AgentProjection>(&self, agents: &Vec<AgentId>) -> (r: P::State)
        requires
            self.wf(),
            P::fits(combine_all::<P>(self.deep_view().parts::<P>(agents.deep_view()))),
        ensures
            r.deep_view() == combine_all::<P>(self.deep_view().parts::<P>(agents.deep_view())),
    {
        let ghost model = self.deep_view();
        let ghost listed = agents.deep_view();
        let mut whole = P::empty_state();
        let mut i: usize = 0;
        assert(listed.take(0) =~= Seq::empty());
        while i < agents.len()
            invariant
                i <= agents.len(),
                self.wf(),
                model == self.deep_view(),
                listed == agents.deep_view(),
                P::fits(combine_all::<P>(model.parts::<P>(listed))),
                whole.deep_view() == combine_all::<P>(model.parts::<P>(listed.take(i as int))),
            decreases agents.len() - i,
        {
            let ghost next = listed.take(i + 1);
            proof {
                assert(next.drop_last() =~= listed.take(i as int));
                assert(next.last() == agents@[i as int].deep_view());
                lemma_parts_prefix::<P>(model, listed, i + 1);
                lemma_keys_of::<String, ShardModel>(self.shards.pairs(), next.last());
                assert(model.parts::<P>(next).drop_last() =~= model.parts::<P>(next.drop_last())
                    || model.parts::<P>(next) == model.parts::<P>(next.drop_last()));
            }
            if let Some(shard) = self.shards.get(&agents[i].0) {
                proof {
                    P::current_is_settled(model.shard(next.last()));
                    let here = fold::<P>(model.shard(next.last()));
                    assert(model.parts::<P>(next) == model.parts::<P>(next.drop_last()).push(here));
                    assert(model.parts::<P>(next).drop_last() =~= model.parts::<P>(
                        next.drop_last(),
                    ));
                }
                P::merge(&mut whole, P::in_shard(shard).state());
            }
            i += 1;
        }
        assert(listed.take(i as int) =~= listed);
        whole
    }

    /// The sequence number of the last event that a projection has taken in, in
    /// whichever shard; zero where there is none.
    pub fn local_checkpoint<P: AgentProjection>(&self) -> (r: u64)
        requires
            self.wf(),
        ensures
            r == last_seq_of(self.deep_view().history),
    {
        let n: usize = self.shards.len();
        let ghost model = self.deep_view();
        let ghost pairs = self.shards.pairs();
        let mut last: u64 = 0;
        let mut i: usize = 0;
        while i < n
            invariant
                i <= n,
                self.wf(),
                pairs == self.shards.pairs(),
                n == pairs.len(),
                model == self.deep_view(),
                last <= last_seq_of(model.history),
                forall|j: int|
                    0 <= j < i ==> last_seq_of(model.shard((#[trigger] pairs[j]).0)) <= last,
            decreases n - i,
        {
            let here: u64 = P::in_shard(self.shards.value_at(i)).checkpoint();
            proof {
                let agent = pairs[i as int].0;
                P::current_is_settled(model.shard(agent));
                assert(here == last_seq_of(model.shard(agent)));
                lemma_filtered_order(model.history, of_agent(agent));
            }
            if here > last {
                last = here;
            }
            i += 1;
        }
        proof {
            let h = model.history;
            if h.len() > 0 {
                let agent = h.last().agent_id;
                assert(h[h.len() - 1] == h.last());
                assert(self.shards.deep_view().contains_key(agent));
                lemma_map_of_domain(pairs, agent);
                let j = choose|j: int| 0 <= j < pairs.len() && (#[trigger] pairs[j]).0 == agent;
                reveal(Seq::filter);
                assert(model.shard(agent).last() == h.last());
                assert(last_seq_of(model.shard(pairs[j].0)) <= last);
            }
        }
        last
    }

    /// The events of the listed agents, in order. Only their shards are read.
    pub fn read_for_agents(&self, agents: &Vec<AgentId>) -> (r: Vec<Event>)
        requires
            self.wf(),
        ensures
            r.deep_view() == self.deep_view().history.filter(of_agents(agents.deep_view())),
    {
        let ghost history = self.history@;
        let ghost keep = of_agents(agents.deep_view());
        let n: usize = self.owners.len();
        let ghost pairs = self.owners.pairs();
        proof {
            lemma_owners_ascend(history);
            lemma_rows_of::<u64, Seq<char>>(owners_of(history));
            assert(pairs == owners_of(history));
            reveal(Seq::filter);
        }
        let mut out: Vec<Event> = Vec::new();
        let mut i: usize = 0;
        assert(out.deep_view() =~= history.take(0).filter(keep));
        while i < n
            invariant
                i <= n,
                n == history.len(),
                self.wf(),
                history == self.history@,
                keep == of_agents(agents.deep_view()),
                pairs == owners_of(history),
                pairs == self.owners.pairs(),
                out.deep_view() == history.take(i as int).filter(keep),
            decreases n - i,
        {
            let seq: u64 = *self.owners.key_at(i);
            let agent = self.owners.value_at(i);
            let ghost e = history[i as int];
            let ghost was = out.deep_view();
            proof {
                assert(pairs[i as int] == (e.seq, e.agent_id));
                assert(history.take(i + 1) =~= history.take(i as int).push(e));
                lemma_filter_push(history.take(i as int), e, keep);
            }
            if lists(agents, agent) {
                if let Some(shard) = self.shards.get(agent) {
                    let ghost events = shard.deep_view().events;
                    proof {
                        lemma_filter_has(history, of_agent(agent@));
                        assert(history.contains(e));
                        assert(events.contains(e));
                    }
                    if let Some(event) = shard.read_event(seq) {
                        proof {
                            assert(history.contains(event.deep_view()));
                            law_one_event_per_seq(history, event.deep_view(), e);
                        }
                        out.push(event);
                        assert(out.deep_view() =~= was.push(e));
                    } else {
                        proof {
                            let k = choose|k: int| 0 <= k < events.len() && events[k] == e;
                            assert(events[k].seq != seq);
                        }
                    }
                }
            }
            i += 1;
        }
        assert(history.take(i as int) =~= history);
        out
    }

    /// The grants in force, over all agents.
    pub fn grants(&self) -> (r: &ConsentGraphState)
        requires
            self.wf(),
        ensures
            r.deep_view() == fold::<ConsentGraph>(self.deep_view().history),
    {
        self.consent.state()
    }

    /// The global projection with its checkpoint, as it is persisted: a log that is
    /// opened with it catches up.
    pub fn consent(&self) -> (r: &Materialized<ConsentGraph>)
        requires
            self.wf(),
        ensures
            r.applied_to() == self.deep_view().global_checkpoint,
            exists|n: int| #[trigger] resumes(*r, self.deep_view().history, n),
    {
        proof {
            assert(self.history@.take(self.history@.len() as int) =~= self.history@);
            lemma_resumes(self.history@, self.consent.applied_to(), self.history@.len() as int);
            let n = choose|n: int| #[trigger]
                concerned(self.history@, self.consent.applied_to(), n);
            assert(resumes(self.consent, self.deep_view().history, n));
        }
        &self.consent
    }

    /// The sequence number up to which global projections have been applied.
    pub fn global_checkpoint(&self) -> (r: u64)
        ensures
            r == self.deep_view().global_checkpoint,
    {
        self.consent.checkpoint()
    }
}

/// Among the first `n` events are all up to the checkpoint, and the later ones do
/// not concern global projections.
spec fn concerned(history: Seq<EventModel>, checkpoint: u64, n: int) -> bool {
    &&& 0 <= n <= history.len()
    &&& n > 0 ==> history[n - 1].seq <= checkpoint
    &&& n < history.len() ==> checkpoint < history[n].seq
    &&& fold::<ConsentGraph>(history) == fold::<ConsentGraph>(history.take(n))
}

proof fn lemma_resumes(history: Seq<EventModel>, checkpoint: u64, m: int)
    requires
        seqs_ascend(history),
        0 <= m <= history.len(),
        m < history.len() ==> checkpoint < history[m].seq,
        fold::<ConsentGraph>(history) == fold::<ConsentGraph>(history.take(m)),
        forall|i: int|
            0 <= i < history.len() && (#[trigger] history[i]).seq > checkpoint
                ==> !history[i].kind.is_global(),
    ensures
        exists|n: int| #[trigger] concerned(history, checkpoint, n),
    decreases m,
{
    if m > 0 && history[m - 1].seq > checkpoint {
        assert(history.take(m).drop_last() =~= history.take(m - 1));
        assert(history.take(m).last() == history[m - 1]);
        lemma_resumes(history, checkpoint, m - 1);
    } else {
        assert(concerned(history, checkpoint, m));
    }
}

spec fn owns(history: Seq<EventModel>, seq: u64, agent: Seq<char>) -> bool {
    exists|i: int|
        0 <= i < history.len() && (#[trigger] history[i]).seq == seq && history[i].agent_id == agent
}

proof fn lemma_owners_map(history: Seq<EventModel>, owners: Map<u64, Seq<char>>)
    requires
        seqs_ascend(history),
        forall|seq: u64| #[trigger]
            owners.contains_key(seq) ==> owns(history, seq, owners[seq]),
        forall|i: int|
            0 <= i < history.len() ==> owners.contains_key((#[trigger] history[i]).seq),
    ensures
        owners == map_of(owners_of(history)),
{
    let pairs = owners_of(history);
    lemma_owners_ascend(history);
    assert forall|seq: u64| #[trigger] owners.contains_key(seq) implies map_of(pairs).contains_key(
        seq,
    ) && map_of(pairs)[seq] == owners[seq] by {
        let i = choose|i: int|
            0 <= i < history.len() && (#[trigger] history[i]).seq == seq && history[i].agent_id
                == owners[seq];
        assert(pairs[i] == (seq, owners[seq]));
        lemma_map_of_value::<u64, Seq<char>>(pairs, i);
    }
    assert forall|seq: u64| #[trigger] map_of(pairs).contains_key(seq) implies owners.contains_key(
        seq,
    ) by {
        lemma_map_of_domain(pairs, seq);
        let i = choose|i: int| 0 <= i < pairs.len() && (#[trigger] pairs[i]).0 == seq;
        assert(history[i].seq == seq);
    }
    assert(owners =~= map_of(pairs));
}

/// Where all parts fit together, so do those of the first agents.
proof fn lemma_parts_prefix<P: Projection>(model: LogModel, agents: Seq<Seq<char>>, n: int)
    requires
        P::fits(combine_all::<P>(model.parts::<P>(agents))),
        0 <= n <= agents.len(),
    ensures
        P::fits(combine_all::<P>(model.parts::<P>(agents.take(n)))),
    decreases agents.len(),
{
    if n < agents.len() {
        let parts = model.parts::<P>(agents);
        let before = model.parts::<P>(agents.drop_last());
        if model.agents.contains(agents.last()) {
            assert(parts.drop_last() =~= before);
            P::fits_before_combined(combine_all::<P>(before), parts.last());
        }
        lemma_parts_prefix::<P>(model, agents.drop_last(), n);
        assert(agents.drop_last().take(n) =~= agents.take(n));
    } else {
        assert(agents.take(n) =~= agents);
    }
}

/// A log is what another one becomes by one more event.
pub open spec fn follows(before: LogModel, after: LogModel, event: EventModel) -> bool {
    &&& after.history == before.history.push(event)
    &&& event.seq == before.next_seq
    &&& after.next_seq == before.next_seq + 1
    &&& forall|agent: Seq<char>| #[trigger]
        after.agents.contains(agent) <==> before.agents.contains(agent) || agent == event.agent_id
    &&& after.global_checkpoint == (if event.kind.is_global() {
        event.seq
    } else {
        before.global_checkpoint
    })
    &&& after.meta == (if event.kind.is_global() {
        LogMeta { next_seq: Some(after.next_seq), ..before.meta }
    } else {
        before.meta
    })
}

/// The events of a stream by one of the listed agents.
pub open spec fn in_stream_of(agents: Seq<Seq<char>>, stream: Seq<char>) -> spec_fn(
    EventModel,
) -> bool {
    |event: EventModel| event.stream_id == stream && agents.contains(event.agent_id)
}

/// How often an event comes in a stream read for a list of agents.
pub open spec fn times_listed(
    model: LogModel,
    agents: Seq<Seq<char>>,
    stream: Seq<char>,
    event: EventModel,
) -> nat {
    if model.history.contains(event) && event.stream_id == stream {
        occurrences(agents, event.agent_id)
    } else {
        0
    }
}

proof fn lemma_twice(s: Seq<EventModel>, x: int, y: int)
    requires
        0 <= x < y < s.len(),
        s[x] == s[y],
    ensures
        occurrences(s, s[x]) >= 2,
    decreases s.len(),
{
    let rest = s.drop_last();
    if y < s.len() - 1 {
        assert(rest[x] == s[x] && rest[y] == s[y]);
        lemma_twice(rest, x, y);
    } else {
        assert(rest[x] == s[x]);
        lemma_occurrences_absent(rest, s[x]);
        assert(rest.contains(s[x]));
    }
}

/// An event comes once in the part of its agent, and in no other.
proof fn lemma_once_in_part(
    model: LogModel,
    agent: Seq<char>,
    stream: Seq<char>,
    event: EventModel,
)
    requires
        seqs_ascend(model.history),
    ensures
        occurrences(model.shard(agent).filter(of_stream(stream)), event) == (
        if model.history.contains(event) && event.stream_id == stream && event.agent_id == agent {
            1nat
        } else {
            0nat
        }),
{
    let shard = model.shard(agent);
    let part = shard.filter(of_stream(stream));
    lemma_filtered_order(model.history, of_agent(agent));
    lemma_filtered_order(shard, of_stream(stream));
    lemma_filter_has(model.history, of_agent(agent));
    lemma_filter_has(shard, of_stream(stream));
    assert(part.no_duplicates()) by {
        assert forall|i: int, j: int|
            0 <= i < part.len() && 0 <= j < part.len() && i != j implies part[i] != part[j] by {
            if i < j {
                assert(part[i].seq < part[j].seq);
            } else {
                assert(part[j].seq < part[i].seq);
            }
        }
    }
    lemma_occurrences_once(part, event);
    assert(part.contains(event) <==> shard.contains(event) && of_stream(stream)(event));
}

/// Conditions that agree on a sequence filter it alike.
proof fn lemma_same_filter(
    s: Seq<EventModel>,
    a: spec_fn(EventModel) -> bool,
    b: spec_fn(EventModel) -> bool,
)
    requires
        forall|i: int| 0 <= i < s.len() ==> a(#[trigger] s[i]) == b(s[i]),
    ensures
        s.filter(a) == s.filter(b),
    decreases s.len(),
{
    reveal(Seq::filter);
    if s.len() > 0 {
        let rest = s.drop_last();
        assert forall|i: int| 0 <= i < rest.len() implies a(#[trigger] rest[i]) == b(rest[i]) by {
            assert(rest[i] == s[i]);
        }
        lemma_same_filter(rest, a, b);
        assert(a(s[s.len() - 1]) == b(s[s.len() - 1]));
    }
}

/// A sequence number names at most one event, so reading it gives the same event
/// at any time.
pub proof fn law_one_event_per_seq(history: Seq<EventModel>, a: EventModel, b: EventModel)
    requires
        seqs_ascend(history),
        history.contains(a),
        history.contains(b),
        a.seq == b.seq,
    ensures
        a == b,
{
    let i = choose|i: int| 0 <= i < history.len() && history[i] == a;
    let j = choose|j: int| 0 <= j < history.len() && history[j] == b;
    if i < j {
        assert(history[i].seq < history[j].seq);
    } else if j < i {
        assert(history[j].seq < history[i].seq);
    }
}

/// Two logs that agree on the listed agents give the same combined state for
/// them, whatever other agents did.
pub proof fn law_projection_isolated<P: Projection>(
    a: LogModel,
    b: LogModel,
    agents: Seq<Seq<char>>,
)
    requires
        forall|agent: Seq<char>| #[trigger]
            agents.contains(agent) ==> a.shard(agent) == b.shard(agent) && a.agents.contains(agent)
                == b.agents.contains(agent),
    ensures
        a.parts::<P>(agents) == b.parts::<P>(agents),
    decreases agents.len(),
{
    if agents.len() > 0 {
        assert(agents.contains(agents.last()));
        assert forall|agent: Seq<char>| #[trigger]
            agents.drop_last().contains(agent) implies agents.contains(agent) by {
            let i = choose|i: int|
                0 <= i < agents.drop_last().len() && agents.drop_last()[i] == agent;
            assert(agents[i] == agent);
        }
        law_projection_isolated::<P>(a, b, agents.drop_last());
    }
}

/// The same of the facts: two logs that agree on the listed agents give the same facts
/// for them, whatever other agents did.
pub proof fn law_facts_isolated(a: LogModel, b: LogModel, agents: Seq<Seq<char>>)
    requires
        seqs_ascend(a.history),
        seqs_ascend(b.history),
        forall|agent: Seq<char>| #[trigger]
            agents.contains(agent) ==> a.shard(agent) == b.shard(agent),
    ensures
        CurrentFacts::across(a, agents) == CurrentFacts::across(b, agents),
{
    let keep = of_agents(agents);
    lemma_filtered_order(a.history, keep);
    lemma_filtered_order(b.history, keep);
    lemma_filter_has(a.history, keep);
    lemma_filter_has(b.history, keep);
    assert forall|e: EventModel| #[trigger] a.history.filter(keep).contains(e)
        <==> b.history.filter(keep).contains(e) by {
        lemma_filter_has(a.history, of_agent(e.agent_id));
        lemma_filter_has(b.history, of_agent(e.agent_id));
        if agents.contains(e.agent_id) {
            assert(a.shard(e.agent_id) == b.shard(e.agent_id));
            assert(a.shard(e.agent_id).contains(e) <==> a.history.contains(e));
            assert(b.shard(e.agent_id).contains(e) <==> b.history.contains(e));
        }
    }
    lemma_same_events(a.history.filter(keep), b.history.filter(keep));
}

/// The facts over all agents are what replaying the whole log gives: a fact is valid
/// until some event, of whichever agent, voids it.
pub proof fn law_facts_replay_the_log(log: EventLog)
    requires
        log.wf(),
    ensures
        CurrentFacts::across(log.deep_view(), log.deep_view().agents) == fold::<CurrentFacts>(
            log.deep_view().history,
        ),
{
    let model = log.deep_view();
    log.law_log_in_order();
    lemma_same_filter(model.history, of_agents(model.agents), |event: EventModel| true);
    lemma_filter_all(model.history);
}

proof fn lemma_filter_all(s: Seq<EventModel>)
    ensures
        s.filter(|event: EventModel| true) == s,
    decreases s.len(),
{
    reveal(Seq::filter);
    if s.len() > 0 {
        lemma_filter_all(s.drop_last());
        assert(s =~= s.drop_last().push(s.last()));
    }
}

/// The ledger of two groups of agents together is that of all their events.
proof fn lemma_ledgers_join(
    history: Seq<EventModel>,
    a: spec_fn(EventModel) -> bool,
    b: spec_fn(EventModel) -> bool,
    both: spec_fn(EventModel) -> bool,
)
    requires
        seqs_ascend(history),
        forall|e: EventModel| #[trigger] both(e) == (a(e) || b(e)),
        forall|e: EventModel| !(#[trigger] a(e) && b(e)),
    ensures
        same_ledger(
            ToolLedger::combined(
                fold::<ToolLedger>(history.filter(a)),
                fold::<ToolLedger>(history.filter(b)),
            ),
            fold::<ToolLedger>(history.filter(both)),
        ),
        is_bounded(fold::<ToolLedger>(history.filter(a)), last_seq_of(history)),
        is_bounded(fold::<ToolLedger>(history.filter(b)), last_seq_of(history)),
    decreases history.len(),
{
    reveal(Seq::filter);
    if history.len() > 0 {
        let rest = history.drop_last();
        let e = history.last();
        let bound = last_seq_of(rest);
        assert(seqs_ascend(rest));
        if rest.len() > 0 {
            assert(history[rest.len() - 1].seq < history[history.len() - 1].seq);
        } else {
            assert(history[0].seq >= 1);
        }
        lemma_ledgers_join(rest, a, b, both);
        let fa = fold::<ToolLedger>(rest.filter(a));
        let fb = fold::<ToolLedger>(rest.filter(b));
        let fc = fold::<ToolLedger>(rest.filter(both));
        assert(rest.filter(a).push(e).drop_last() =~= rest.filter(a));
        assert(rest.filter(b).push(e).drop_last() =~= rest.filter(b));
        assert(rest.filter(both).push(e).drop_last() =~= rest.filter(both));
        assert(both(e) == (a(e) || b(e)));
        lemma_bounded_step(fa, e, bound);
        lemma_bounded_step(fb, e, bound);
        lemma_step_same(ToolLedger::combined(fa, fb), fc, e);
        if a(e) {
            lemma_step_in_whole(fa, fb, e, bound);
            lemma_same_ledger_chain(
                ToolLedger::combined(ToolLedger::step(fa, e), fb),
                ToolLedger::step(ToolLedger::combined(fa, fb), e),
                ToolLedger::step(fc, e),
            );
        } else if b(e) {
            lemma_step_in_part(fa, fb, e, bound);
            lemma_same_ledger_chain(
                ToolLedger::combined(fa, ToolLedger::step(fb, e)),
                ToolLedger::step(ToolLedger::combined(fa, fb), e),
                ToolLedger::step(fc, e),
            );
        }
    }
}

proof fn lemma_bounded_step(ledger: LedgerModel, event: EventModel, bound: u64)
    requires
        is_bounded(ledger, bound),
        bound < event.seq,
    ensures
        is_bounded(ledger, event.seq),
        is_bounded(ToolLedger::step(ledger, event), event.seq),
{
    let after = ToolLedger::step(ledger, event);
    assert forall|tool: Seq<char>| #[trigger] after.contains_key(tool) implies after[tool].last_seq
        <= event.seq && after[tool].outcome_seq <= event.seq by {
        if ledger.contains_key(tool) {
            assert(ledger[tool].last_seq <= bound);
        }
    }
}

proof fn lemma_ledger_of_agents(model: LogModel, agents: Seq<Seq<char>>)
    requires
        seqs_ascend(model.history),
        agents.no_duplicates(),
        forall|i: int| 0 <= i < agents.len() ==> model.agents.contains(#[trigger] agents[i]),
    ensures
        same_ledger(
            combine_all::<ToolLedger>(model.parts::<ToolLedger>(agents)),
            fold::<ToolLedger>(model.history.filter(of_agents(agents))),
        ),
    decreases agents.len(),
{
    if agents.len() == 0 {
        lemma_filter_has(model.history, of_agents(agents));
        let none = model.history.filter(of_agents(agents));
        if none.len() > 0 {
            assert(none.contains(none[0]));
        }
    } else {
        let rest = agents.drop_last();
        let last = agents.last();
        assert(rest.no_duplicates());
        assert forall|i: int| 0 <= i < rest.len() implies model.agents.contains(
            #[trigger] rest[i],
        ) by {
            assert(rest[i] == agents[i]);
        }
        lemma_ledger_of_agents(model, rest);
        assert(model.agents.contains(agents[agents.len() - 1]));
        let parts = model.parts::<ToolLedger>(agents);
        assert(parts.drop_last() =~= model.parts::<ToolLedger>(rest));
        let part = fold::<ToolLedger>(model.shard(last));
        let whole = fold::<ToolLedger>(model.history.filter(of_agents(rest)));
        assert forall|e: EventModel| #[trigger] of_agents(agents)(e) == (of_agents(rest)(e)
            || of_agent(last)(e)) by {
            if agents.contains(e.agent_id) && e.agent_id != last {
                let i = choose|i: int| 0 <= i < agents.len() && agents[i] == e.agent_id;
                assert(rest[i] == e.agent_id);
            }
            if rest.contains(e.agent_id) {
                let i = choose|i: int| 0 <= i < rest.len() && rest[i] == e.agent_id;
                assert(agents[i] == e.agent_id);
            }
            assert(agents[agents.len() - 1] == last);
        }
        assert forall|e: EventModel| !(#[trigger] of_agents(rest)(e) && of_agent(last)(e)) by {
            if rest.contains(e.agent_id) {
                let i = choose|i: int| 0 <= i < rest.len() && rest[i] == e.agent_id;
                assert(agents[i] != agents[agents.len() - 1]);
            }
        }
        lemma_ledgers_join(model.history, of_agents(rest), of_agent(last), of_agents(agents));
        lemma_combined_same(
            combine_all::<ToolLedger>(model.parts::<ToolLedger>(rest)),
            whole,
            part,
        );
        lemma_same_ledger_chain(
            combine_all::<ToolLedger>(parts),
            ToolLedger::combined(whole, part),
            fold::<ToolLedger>(model.history.filter(of_agents(agents))),
        );
    }
}

/// The statistics combined from the shards of several agents are what replaying all
/// their events, in order, gives: the same counts, costs and last outcome, in whichever
/// order the shards are merged.
pub proof fn law_tool_stats_replay_the_log(log: EventLog, agents: Seq<Seq<char>>)
    requires
        log.wf(),
        agents.no_duplicates(),
        forall|i: int|
            0 <= i < agents.len() ==> log.deep_view().agents.contains(#[trigger] agents[i]),
    ensures
        same_ledger(
            ToolLedger::across(log.deep_view(), agents),
            fold::<ToolLedger>(log.deep_view().history.filter(of_agents(agents))),
        ),
{
    lemma_ledger_of_agents(log.deep_view(), agents);
}

/// An append by one agent leaves the shards of all others as they are.
pub proof fn law_append_stays_in_shard(
    history: Seq<EventModel>,
    event: EventModel,
    other: Seq<char>,
)
    requires
        other != event.agent_id,
    ensures
        history.push(event).filter(of_agent(other)) == history.filter(of_agent(other)),
{
    lemma_filter_push(history, event, of_agent(other));
}

/// The shards of a log: each agent's events, with current projections.
pub open spec fn shards_of(model: LogModel) -> Seq<(Seq<char>, ShardModel)> {
    Seq::new(
        model.agents.len(),
        |i: int| (model.agents[i], ShardModel::current(model.shard(model.agents[i]))),
    )
}

/// In every state the shards of a log hold exactly its events, so that it can be opened
/// from them again.
pub proof fn law_shards_hold_the_log(log: EventLog)
    requires
        log.wf(),
    ensures
        is_history(log.deep_view().history, shards_of(log.deep_view())),
{
    let model = log.deep_view();
    let shards = shards_of(model);
    log.law_log_in_order();
    assert forall|i: int| 0 <= i < model.history.len() implies has_shard(
        shards,
        (#[trigger] model.history[i]).agent_id,
    ) by {
        assert(model.agents.contains(model.history[i].agent_id));
        let k = choose|k: int|
            0 <= k < model.agents.len() && model.agents[k] == model.history[i].agent_id;
        assert(shards[k].0 == model.history[i].agent_id);
    }
    assert forall|i: int, j: int| 0 <= i < j < shards.len() implies (#[trigger] shards[i]).0 != (
    #[trigger] shards[j]).0 by {
        assert(model.agents[i] != model.agents[j]);
    }
}

/// Opening a log from its shards brings back the very events: shards hold one history
/// only, so that an event that was appended under a sequence number is read back under
/// it, whatever was appended since.
pub proof fn law_reopening_restores_events(
    history: Seq<EventModel>,
    restored: Seq<EventModel>,
    shards: Seq<(Seq<char>, ShardModel)>,
)
    requires
        is_history(history, shards),
        is_history(restored, shards),
    ensures
        restored == history,
{
    assert forall|e: EventModel| #[trigger] history.contains(e) <==> restored.contains(e) by {
        if history.contains(e) {
            lemma_in_one_shard(history, restored, shards, e);
        }
        if restored.contains(e) {
            lemma_in_one_shard(restored, history, shards, e);
        }
    }
    lemma_same_events(history, restored);
}

proof fn lemma_in_one_shard(
    history: Seq<EventModel>,
    restored: Seq<EventModel>,
    shards: Seq<(Seq<char>, ShardModel)>,
    event: EventModel,
)
    requires
        is_history(history, shards),
        is_history(restored, shards),
        history.contains(event),
    ensures
        restored.contains(event),
{
    let k = choose|k: int| 0 <= k < history.len() && history[k] == event;
    assert(has_shard(shards, history[k].agent_id));
    let i = choose|i: int| 0 <= i < shards.len() && (#[trigger] shards[i]).0 == event.agent_id;
    lemma_filter_has(history, of_agent(event.agent_id));
    lemma_filter_has(restored, of_agent(event.agent_id));
    assert(shards[i].1.events == history.filter(of_agent(event.agent_id)));
    assert(shards[i].1.events == restored.filter(of_agent(event.agent_id)));
    assert(history.filter(of_agent(event.agent_id)).contains(event));
}

/// After an orderly shutdown the next session goes on with the very counter; after
/// any other end it starts behind every stored event and never ahead of where the
/// broken session was.
pub proof fn law_reopening_continues(log: EventLog)
    requires
        log.wf(),
    ensures
        restored_next_seq(
            LogMeta { next_seq: Some(log.deep_view().next_seq), clean_shutdown: true },
            last_seq_of(log.deep_view().history),
        ) == log.deep_view().next_seq,
        !log.deep_view().meta.clean_shutdown ==> last_seq_of(log.deep_view().history)
            < restored_next_seq(log.deep_view().meta, last_seq_of(log.deep_view().history))
            <= log.deep_view().next_seq,
{
}

/// The characters of a file name that an agent's name stands for.
pub open spec fn file_stem_of(agent: Seq<char>) -> Seq<char> {
    Seq::new(
        agent.len(),
        |i: int|
            if agent[i] == '/' || agent[i] == '\\' || agent[i] == '.' {
                '_'
            } else {
                agent[i]
            },
    )
}

/// The file name of an agent's shard: path separators and dots are replaced.
pub fn shard_file_name(agent_id: &AgentId) -> (r: String)
    ensures
        r@ == file_stem_of(agent_id.deep_view()) + ".redb"@,
{
    let chars = chars_of(agent_id.0.as_str());
    let ghost agent = agent_id.deep_view();
    let mut name: Vec<char> = Vec::new();
    let mut i: usize = 0;
    while i < chars.len()
        invariant
            i <= chars.len(),
            chars@ == agent,
            name@ == file_stem_of(agent).take(i as int),
        decreases chars.len() - i,
    {
        let c: char = chars[i];
        if c == '/' || c == '\\' || c == '.' {
            name.push('_');
        } else {
            name.push(c);
        }
        assert(file_stem_of(agent).take(i + 1) =~= file_stem_of(agent).take(i as int).push(
            file_stem_of(agent)[i as int],
        ));
        i += 1;
    }
    assert(file_stem_of(agent).take(i as int) =~= file_stem_of(agent));
    join2(text_of(&name).as_str(), ".redb")
}

/// The agent whose shard a file is, by its stem and extension; none for the global
/// shard and for other files.
pub fn census_agent(stem: &str, extension: &str) -> (r: Option<AgentId>)
    ensures
        match r {
            Some(agent) => extension@ == "redb"@ && stem@ != "_global"@ && agent.deep_view() == stem@,
            None => extension@ != "redb"@ || stem@ == "_global"@,
        },
{
    if text_same(extension, "redb") && !text_same(stem, "_global") {
        Some(AgentId(stem.to_string()))
    } else {
        None
    }
}

proof fn lemma_task_state_of_agent(
    history: Seq<EventModel>,
    key: (Seq<char>, Seq<char>),
    agent: Seq<char>,
)
    ensures
        ({
            let whole = fold::<TaskState>(history);
            let part = fold::<TaskState>(history.filter(of_agent(agent)));
            &&& part.contains_key(key) <==> whole.contains_key(key) && key.0 == agent
            &&& part.contains_key(key) ==> part[key] == whole[key]
        }),
    decreases history.len(),
{
    reveal(Seq::filter);
    if history.len() > 0 {
        let event = history.last();
        lemma_task_state_of_agent(history.drop_last(), key, agent);
        let before = history.drop_last().filter(of_agent(agent));
        if event.agent_id == agent {
            assert(before.push(event).drop_last() =~= before);
        }
    }
}

proof fn lemma_task_state_of_agents(
    model: LogModel,
    agents: Seq<Seq<char>>,
    key: (Seq<char>, Seq<char>),
)
    requires
        forall|i: int| 0 <= i < agents.len() ==> model.agents.contains(#[trigger] agents[i]),
    ensures
        ({
            let whole = fold::<TaskState>(model.history);
            let parts = combine_all::<TaskState>(model.parts::<TaskState>(agents));
            &&& parts.contains_key(key) <==> whole.contains_key(key) && agents.contains(key.0)
            &&& parts.contains_key(key) ==> parts[key] == whole[key]
        }),
    decreases agents.len(),
{
    if agents.len() > 0 {
        let rest = agents.drop_last();
        let last = agents.last();
        assert forall|i: int| 0 <= i < rest.len() implies model.agents.contains(
            #[trigger] rest[i],
        ) by {
            assert(rest[i] == agents[i]);
        }
        lemma_task_state_of_agents(model, rest, key);
        lemma_task_state_of_agent(model.history, key, last);
        assert(model.agents.contains(agents[agents.len() - 1]));
        let parts = model.parts::<TaskState>(agents);
        assert(parts.drop_last() =~= model.parts::<TaskState>(rest));
        if agents.contains(key.0) && key.0 != last {
            let i = choose|i: int| 0 <= i < agents.len() && agents[i] == key.0;
            assert(rest[i] == key.0);
        }
        if rest.contains(key.0) {
            let i = choose|i: int| 0 <= i < rest.len() && rest[i] == key.0;
            assert(agents[i] == key.0);
        }
    }
}

/// The task states combined from all shards are what replaying the whole log, event
/// by event, gives.
pub proof fn law_task_states_replay_the_log(log: EventLog)
    requires
        log.wf(),
    ensures
        combine_all::<TaskState>(log.deep_view().parts::<TaskState>(log.deep_view().agents))
            == fold::<TaskState>(log.deep_view().history),
{
    let model = log.deep_view();
    let whole = fold::<TaskState>(model.history);
    let parts = combine_all::<TaskState>(model.parts::<TaskState>(model.agents));
    log.law_log_in_order();
    assert forall|key: (Seq<char>, Seq<char>)| #[trigger] whole.contains_key(
        key,
    ) implies parts.contains_key(key) by {
        lemma_task_state_of_agents(model, model.agents, key);
        lemma_task_keys(model.history, key);
        let i = choose|i: int|
            0 <= i < model.history.len() && (#[trigger] model.history[i]).agent_id == key.0;
        assert(model.agents.contains(model.history[i].agent_id));
    }
    assert forall|key: (Seq<char>, Seq<char>)| #[trigger] parts.contains_key(
        key,
    ) implies whole.contains_key(key) && parts[key] == whole[key] by {
        lemma_task_state_of_agents(model, model.agents, key);
    }
    assert(parts =~= whole);
}

proof fn lemma_task_keys(history: Seq<EventModel>, key: (Seq<char>, Seq<char>))
    requires
        fold::<TaskState>(history).contains_key(key),
    ensures
        exists|i: int| 0 <= i < history.len() && (#[trigger] history[i]).agent_id == key.0,
    decreases history.len(),
{
    let last = history.last();
    if last.agent_id == key.0 {
        assert(history[history.len() - 1].agent_id == key.0);
    } else {
        lemma_task_keys(history.drop_last(), key);
        let i = choose|i: int|
            0 <= i < history.len() - 1 && (#[trigger] history.drop_last()[i]).agent_id == key.0;
        assert(history[i].agent_id == key.0);
    }
}

/// A correction leaves the log as it was but for the new event: the corrected event
/// is still there.
pub proof fn law_appending_keeps_events(history: Seq<EventModel>, event: EventModel, kept: EventModel)
    requires
        history.contains(kept),
    ensures
        history.push(event).contains(kept),
        history.is_prefix_of(history.push(event)),
{
    let i = choose|i: int| 0 <= i < history.len() && history[i] == kept;
    assert(history.push(event)[i] == kept);
}


/// A projection that the log materializes, in the shards or globally.
pub trait Registered: Projection {
    /// Its state over the given agents.
    spec fn across(model: LogModel, agents: Seq<Seq<char>>) -> Folded<Self>;

    /// The sequence number of the last event that it has taken in.
    spec fn checkpoint_in(model: LogModel) -> u64;

    fn read_across(log: &EventLog, agents: &Vec<AgentId>) -> (r: Self::State)
        requires
            log.wf(),
            Self::fits(Self::across(log.deep_view(), agents.deep_view())),
        ensures
            r.deep_view() == Self::across(log.deep_view(), agents.deep_view()),
    ;

    fn read_checkpoint(log: &EventLog) -> (r: u64)
        requires
            log.wf(),
        ensures
            r == Self::checkpoint_in(log.deep_view()),
    ;
}

impl Registered for CurrentFacts {
    /// A fact of one listed agent can be voided by another, so their events are folded
    /// together, in order.
    open spec fn across(model: LogModel, agents: Seq<Seq<char>>) -> Folded<Self> {
        fold::<Self>(model.history.filter(of_agents(agents)))
    }

    open spec fn checkpoint_in(model: LogModel) -> u64 {
        last_seq_of(model.history)
    }

    fn read_across(log: &EventLog, agents: &Vec<AgentId>) -> (r: Self::State) {
        let events = log.read_for_agents(agents);
        let mut state = Self::empty_state();
        assert(events.deep_view().skip(0) =~= events.deep_view());
        replay::<Self>(&mut state, &events, 0);
        state
    }

    fn read_checkpoint(log: &EventLog) -> (r: u64) {
        log.local_checkpoint::<Self>()
    }
}

impl Registered for TaskState {
    open spec fn across(model: LogModel, agents: Seq<Seq<char>>) -> Folded<Self> {
        combine_all::<Self>(model.parts::<Self>(agents))
    }

    open spec fn checkpoint_in(model: LogModel) -> u64 {
        last_seq_of(model.history)
    }

    fn read_across(log: &EventLog, agents: &Vec<AgentId>) -> (r: Self::State) {
        log.project_local::<Self>(agents)
    }

    fn read_checkpoint(log: &EventLog) -> (r: u64) {
        log.local_checkpoint::<Self>()
    }
}

impl Registered for ToolLedger {
    open spec fn across(model: LogModel, agents: Seq<Seq<char>>) -> Folded<Self> {
        combine_all::<Self>(model.parts::<Self>(agents))
    }

    open spec fn checkpoint_in(model: LogModel) -> u64 {
        last_seq_of(model.history)
    }

    fn read_across(log: &EventLog, agents: &Vec<AgentId>) -> (r: Self::State) {
        log.project_local::<Self>(agents)
    }

    fn read_checkpoint(log: &EventLog) -> (r: u64) {
        log.local_checkpoint::<Self>()
    }
}

impl Registered for ConsentGraph {
    /// Grants span all agents.
    open spec fn across(model: LogModel, agents: Seq<Seq<char>>) -> Folded<Self> {
        fold::<Self>(model.history)
    }

    open spec fn checkpoint_in(model: LogModel) -> u64 {
        model.global_checkpoint
    }

    fn read_across(log: &EventLog, agents: &Vec<AgentId>) -> (r: Self::State) {
        log.grants().replica()
    }

    fn read_checkpoint(log: &EventLog) -> (r: u64) {
        log.global_checkpoint()
    }
}

impl EventLog {
    /// State of a projection, restricted to a list of agents.
    pub fn project_for_agents<P: Registered>(&self, agents: &Vec<AgentId>) -> (r: P::State)
        requires
            self.wf(),
            P::fits(P::across(self.deep_view(), agents.deep_view())),
        ensures
            r.deep_view() == P::across(self.deep_view(), agents.deep_view()),
    {
        P::read_across(self, agents)
    }

    /// Query the current state of a projection, over all shards of the base.
    pub fn project<P: Registered>(&self) -> (r: P::State)
        requires
            self.wf(),
            P::fits(P::across(self.deep_view(), self.deep_view().agents)),
        ensures
            r.deep_view() == P::across(self.deep_view(), self.deep_view().agents),
    {
        let agents = self.all_agents();
        P::read_across(self, &agents)
    }

    /// Returns the last sequence number applied to a projection.
    pub fn projection_checkpoint<P: Registered>(&self) -> (r: u64)
        requires
            self.wf(),
        ensures
            r == P::checkpoint_in(self.deep_view()),
    {
        P::read_checkpoint(self)
    }
}

/// Reading a part of the log gives exactly its events, in the order of the log: those of a
/// stream, of an agent, of several agents, or of several agents in a stream.
pub proof fn law_readings_are_exact(
    history: Seq<EventModel>,
    agents: Seq<Seq<char>>,
    agent: Seq<char>,
    stream: Seq<char>,
    event: EventModel,
)
    requires
        seqs_ascend(history),
    ensures
        history.filter(of_stream(stream)).contains(event) <==> history.contains(event)
            && event.stream_id == stream,
        history.filter(of_agent(agent)).contains(event) <==> history.contains(event)
            && event.agent_id == agent,
        history.filter(of_agents(agents)).contains(event) <==> history.contains(event) && exists|
            i: int,
        |
            0 <= i < agents.len() && #[trigger] agents[i] == event.agent_id,
        history.filter(in_stream_of(agents, stream)).contains(event) <==> history.contains(event)
            && event.stream_id == stream && exists|i: int|
            0 <= i < agents.len() && #[trigger] agents[i] == event.agent_id,
        seqs_ascend(history.filter(of_stream(stream))),
        seqs_ascend(history.filter(of_agent(agent))),
        seqs_ascend(history.filter(of_agents(agents))),
        seqs_ascend(history.filter(in_stream_of(agents, stream))),
{
    lemma_filter_has(history, of_stream(stream));
    lemma_filter_has(history, of_agent(agent));
    lemma_filter_has(history, of_agents(agents));
    lemma_filter_has(history, in_stream_of(agents, stream));
    lemma_filtered_order(history, of_stream(stream));
    lemma_filtered_order(history, of_agent(agent));
    lemma_filtered_order(history, of_agents(agents));
    lemma_filtered_order(history, in_stream_of(agents, stream));
    if agents.contains(event.agent_id) {
        let i = choose|i: int| 0 <= i < agents.len() && agents[i] == event.agent_id;
        assert(agents[i] == event.agent_id);
    }
}

/// A log that is opened never assigns a number again: after a session that did not end in
/// an orderly way, or without a record, the next number is above every stored one, and it
/// is never below the one that was recorded.
pub proof fn law_numbers_are_not_reused(meta: LogMeta, max_seq: u64)
    ensures
        !meta.clean_shutdown || meta.next_seq is None ==> restored_next_seq(meta, max_seq)
            > max_seq,
        meta.next_seq matches Some(stored) ==> restored_next_seq(meta, max_seq) >= stored,
        meta.next_seq is None ==> restored_next_seq(meta, max_seq) == max_seq + 1,
        meta.next_seq matches Some(stored) ==> restored_next_seq(meta, max_seq) == stored
            || restored_next_seq(meta, max_seq) == max_seq + 1,
        meta.next_seq matches Some(stored) ==> meta.clean_shutdown ==> restored_next_seq(
            meta,
            max_seq,
        ) == stored,
{
}

/// Facts, task states and tool statistics have taken in every event of the log.
pub proof fn law_checkpoints_do_not_lag(model: LogModel, i: int)
    requires
        seqs_ascend(model.history),
        0 <= i < model.history.len(),
    ensures
        model.history[i].seq <= CurrentFacts::checkpoint_in(model),
        model.history[i].seq <= TaskState::checkpoint_in(model),
        model.history[i].seq <= ToolLedger::checkpoint_in(model),
{
    if i < model.history.len() - 1 {
        assert(model.history[i].seq < model.history[model.history.len() - 1].seq);
    }
}

/// A shard's file is named after its agent: as long as the name, and the same but for the
/// characters that file names cannot hold.
pub proof fn law_file_names_keep_the_agent(agent: Seq<char>, i: int)
    requires
        0 <= i < agent.len(),
    ensures
        file_stem_of(agent).len() == agent.len(),
        agent[i] != '/' && agent[i] != '\\' && agent[i] != '.' ==> file_stem_of(agent)[i]
            == agent[i],
        agent[i] == '/' || agent[i] == '\\' || agent[i] == '.' ==> file_stem_of(agent)[i] == '_',
{
}

/// The grants over all agents are what replaying the whole log gives, whichever agents are
/// asked for; facts are those of the events of the listed agents alone.
pub proof fn law_projections_cover_their_agents(model: LogModel, agents: Seq<Seq<char>>)
    ensures
        ConsentGraph::across(model, agents) == fold::<ConsentGraph>(model.history),
        CurrentFacts::across(model, agents) == fold::<CurrentFacts>(
            model.history.filter(|event: EventModel| agents.contains(event.agent_id)),
        ),
{
    assert(of_agents(agents) =~= |event: EventModel| agents.contains(event.agent_id));
}

/// Each projection is registered under its own name; consent is kept for all agents
/// together, the others shard by shard.
pub proof fn law_projections_are_registered()
    ensures
        CurrentFacts::registered_as() == "CurrentFacts"@,
        TaskState::registered_as() == "TaskState"@,
        ToolLedger::registered_as() == "ToolLedger"@,
        ConsentGraph::registered_as() == "ConsentGraph"@,
        CurrentFacts::lives_in() == ProjectionScope::Agent,
        TaskState::lives_in() == ProjectionScope::Agent,
        ToolLedger::lives_in() == ProjectionScope::Agent,
        ConsentGraph::lives_in() == ProjectionScope::Global,
{
}

/// An appended event is added at the end of the log under the next number, which rises by
/// one; its agent has a shard from then on, and what concerns all agents moves the global
/// checkpoint.
pub proof fn law_appending_adds_one_event(before: LogModel, after: LogModel, event: EventModel)
    requires
        follows(before, after, event),
    ensures
        after.history.len() == before.history.len() + 1,
        after.history.last() == event,
        before.history.is_prefix_of(after.history),
        event.seq == before.next_seq,
        after.next_seq == before.next_seq + 1,
        after.agents.contains(event.agent_id),
        forall|agent: Seq<char>| #[trigger]
            before.agents.contains(agent) ==> after.agents.contains(agent),
        event.kind is ConsentGranted || event.kind is ConsentRevoked || event.kind is IntentLogged
            ==> after.global_checkpoint == event.seq && after.meta.next_seq == Some(
            after.next_seq,
        ),
        !(event.kind is ConsentGranted || event.kind is ConsentRevoked
            || event.kind is IntentLogged) ==> after.global_checkpoint == before.global_checkpoint,
        after.meta.clean_shutdown == before.meta.clean_shutdown,
{
}

/// A log opened from shards has every event of every shard, and no other.
pub proof fn law_opening_gathers_the_shards(
    history: Seq<EventModel>,
    shards: Seq<(Seq<char>, ShardModel)>,
    event: EventModel,
)
    requires
        is_history(history, shards),
    ensures
        history.contains(event) <==> exists|i: int|
            0 <= i < shards.len() && (#[trigger] shards[i]).1.events.contains(event),
        seqs_ascend(history),
{
    if history.contains(event) {
        let k = choose|k: int| 0 <= k < history.len() && history[k] == event;
        assert(has_shard(shards, history[k].agent_id));
        let i = choose|i: int| 0 <= i < shards.len() && (#[trigger] shards[i]).0 == event.agent_id;
        lemma_filter_has(history, of_agent(shards[i].0));
        assert(shards[i].1.events.contains(event));
    }
    if exists|i: int| 0 <= i < shards.len() && (#[trigger] shards[i]).1.events.contains(event) {
        let i = choose|i: int|
            0 <= i < shards.len() && (#[trigger] shards[i]).1.events.contains(event);
        lemma_filter_has(history, of_agent(shards[i].0));
    }
}

/// Task states are those of the listed agents alone: a task has a state
/// exactly if its agent is listed and moved it, and it is the last one that the agent gave
/// it.
pub proof fn law_task_states_are_of_the_listed_agents(
    model: LogModel,
    agents: Seq<Seq<char>>,
    agent: Seq<char>,
    stream: Seq<char>,
)
    requires
        forall|i: int| 0 <= i < agents.len() ==> model.agents.contains(#[trigger] agents[i]),
    ensures
        ({
            let states = TaskState::across(model, agents);
            let whole = fold::<TaskState>(model.history);
            &&& states.contains_key((agent, stream)) <==> whole.contains_key((agent, stream))
                && agents.contains(agent)
            &&& states.contains_key((agent, stream)) ==> states[(agent, stream)] == whole[(
                agent,
                stream,
            )]
        }),
{
    lemma_task_state_of_agents(model, agents, (agent, stream));
}

/// The statistics over several agents add up those of each: one more agent adds its own
/// shard's, and an agent without a shard adds nothing.
pub proof fn law_statistics_add_up_over_agents(
    model: LogModel,
    agents: Seq<Seq<char>>,
    agent: Seq<char>,
)
    ensures
        ToolLedger::across(model, agents.push(agent)) == (if model.agents.contains(agent) {
            ToolLedger::combined(
                ToolLedger::across(model, agents),
                fold::<ToolLedger>(model.history.filter(of_agent(agent))),
            )
        } else {
            ToolLedger::across(model, agents)
        }),
        ToolLedger::across(model, Seq::empty()) == ToolLedger::initial(),
{
    assert(agents.push(agent).drop_last() =~= agents);
    let before = model.parts::<ToolLedger>(agents);
    let part = fold::<ToolLedger>(model.history.filter(of_agent(agent)));
    if model.agents.contains(agent) {
        assert(before.push(part).drop_last() =~= before);
    }
}

} // verus!
