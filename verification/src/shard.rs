//! A single agent's shard: its events, and the projections materialized from
//! them.

use crate::event::{Event, EventModel, StreamId};
use crate::json::JsonModel;
use crate::projection::{fold, fold_from, law_fold_resumes, replay, Folded, Projection};
use crate::sorted::Replica;
use crate::state::current_facts::{CurrentFacts, FactsModel};
use crate::state::task_state::TaskState;
use crate::state::tool_ledger::{LedgerModel, ToolLedger};
use vstd::prelude::*;

verus! {

/// Events come in strictly ascending order of their sequence numbers, which
/// start at one.
pub open spec fn seqs_ascend(events: Seq<EventModel>) -> bool {
    &&& forall|i: int| 0 <= i < events.len() ==> (#[trigger] events[i]).seq >= 1
    &&& forall|i: int, j: int|
        0 <= i < j < events.len() ==> (#[trigger] events[i]).seq < (#[trigger] events[j]).seq
}

/// The sequence number of the last event, or zero.
pub open spec fn last_seq_of(events: Seq<EventModel>) -> u64 {
    if events.len() == 0 {
        0
    } else {
        events.last().seq
    }
}

/// A projection's state, with the sequence number up to which it has been
/// applied.
#[verifier::ext_equal]
pub struct Standing<V> {
    pub state: V,
    pub checkpoint: u64,
}

/// Where a projection stands that has been folded from exactly these events.
pub open spec fn settled<P: Projection>(events: Seq<EventModel>) -> Standing<Folded<P>> {
    Standing { state: fold::<P>(events), checkpoint: last_seq_of(events) }
}

/// The events after a checkpoint.
pub open spec fn later(events: Seq<EventModel>, checkpoint: u64) -> Seq<EventModel> {
    events.filter(|event: EventModel| event.seq > checkpoint)
}

/// Where a projection stands once the events after its checkpoint were applied.
pub open spec fn recovered<P: Projection>(
    standing: Standing<Folded<P>>,
    events: Seq<EventModel>,
) -> Standing<Folded<P>> {
    let missed = later(events, standing.checkpoint);
    Standing {
        state: fold_from::<P>(standing.state, missed),
        checkpoint: if missed.len() == 0 {
            standing.checkpoint
        } else {
            last_seq_of(events)
        },
    }
}

/// In an ordered log the events after a checkpoint are a last part of it.
proof fn lemma_later(events: Seq<EventModel>, checkpoint: u64, at: int)
    requires
        seqs_ascend(events),
        0 <= at <= events.len(),
        forall|i: int| 0 <= i < at ==> (#[trigger] events[i]).seq <= checkpoint,
        at < events.len() ==> events[at].seq > checkpoint,
    ensures
        later(events, checkpoint) == events.skip(at),
    decreases events.len(),
{
    reveal(Seq::filter);
    if events.len() > 0 {
        let rest = events.drop_last();
        let last = events.len() - 1;
        assert(seqs_ascend(rest));
        if at <= last {
            if at < last {
                assert(events[at].seq < events[last].seq);
            }
            lemma_later(rest, checkpoint, at);
            assert(events.skip(at) =~= rest.skip(at).push(events.last()));
        } else {
            lemma_later(rest, checkpoint, last);
            assert(events[last].seq <= checkpoint);
            assert(events.skip(at) =~= rest.skip(last));
        }
    } else {
        assert(later(events, checkpoint) =~= events.skip(at));
    }
}

/// A projection that was folded from the first events of a log catches up: what
/// recovery makes of it has been folded from all of them.
pub proof fn law_recovery_catches_up<P: Projection>(events: Seq<EventModel>, n: int)
    requires
        seqs_ascend(events),
        0 <= n <= events.len(),
    ensures
        recovered::<P>(settled::<P>(events.take(n)), events) == settled::<P>(events),
{
    let checkpoint = last_seq_of(events.take(n));
    assert forall|i: int| 0 <= i < n implies (#[trigger] events[i]).seq <= checkpoint by {
        assert(events.take(n).last() == events[n - 1]);
        if i < n - 1 {
            assert(events[i].seq < events[n - 1].seq);
        }
    }
    if 0 < n < events.len() {
        assert(events.take(n).last() == events[n - 1]);
        assert(events[n - 1].seq < events[n].seq);
    }
    lemma_later(events, checkpoint, n);
    law_fold_resumes::<P>(P::initial(), events.take(n), events.skip(n));
    assert(events.take(n) + events.skip(n) =~= events);
    if n == events.len() {
        assert(events.take(n) =~= events);
    }
}

/// A projection's state, with the sequence number up to which it has been
/// applied, as a shard holds them.
pub struct Materialized<P: Projection> {
    state: P::State,
    checkpoint: u64,
}

impl<P: Projection> Materialized<P> {
    /// What the state stands for.
    pub closed spec fn folded(&self) -> Folded<P> {
        self.state.deep_view()
    }

    /// The sequence number up to which the state has been applied.
    pub closed spec fn applied_to(&self) -> u64 {
        self.checkpoint
    }

    /// Both of them.
    pub open spec fn standing(&self) -> Standing<Folded<P>> {
        Standing { state: self.folded(), checkpoint: self.applied_to() }
    }

    /// The state before any event.
    pub fn new() -> (r: Self)
        ensures
            r.standing() == settled::<P>(Seq::empty()),
    {
        Materialized { state: P::empty_state(), checkpoint: 0 }
    }

    /// A state as it was persisted.
    pub fn from_parts(state: P::State, checkpoint: u64) -> (r: Self)
        ensures
            r.folded() == state.deep_view(),
            r.applied_to() == checkpoint,
    {
        Materialized { state, checkpoint }
    }

    /// The projected state.
    pub fn state(&self) -> (r: &P::State)
        ensures
            r.deep_view() == self.folded(),
    {
        &self.state
    }

    /// The sequence number up to which the state has been applied.
    pub fn checkpoint(&self) -> (r: u64)
        ensures
            r == self.applied_to(),
    {
        self.checkpoint
    }

    /// Applies one more event.
    pub fn apply_event(&mut self, event: &Event)
        requires
            P::fits(P::step(old(self).folded(), event.deep_view())),
        ensures
            final(self).folded() == P::step(old(self).folded(), event.deep_view()),
            final(self).applied_to() == event.seq,
    {
        P::apply(&mut self.state, event);
        self.checkpoint = event.seq;
    }

    /// Applies the events after the checkpoint.
    fn recover(&mut self, events: &Vec<Event>)
        requires
            seqs_ascend(events.deep_view()),
            P::fits(recovered::<P>(old(self).standing(), events.deep_view()).state),
        ensures
            final(self).standing() == recovered::<P>(old(self).standing(), events.deep_view()),
    {
        let ghost all = events.deep_view();
        let mut at: usize = 0;
        while at < events.len() && events[at].seq <= self.checkpoint
            invariant
                at <= events.len(),
                all == events.deep_view(),
                forall|i: int| 0 <= i < at ==> (#[trigger] all[i]).seq <= self.checkpoint,
            decreases events.len() - at,
        {
            assert(all[at as int] == events@[at as int].deep_view());
            at += 1;
        }
        proof {
            if at < events.len() {
                assert(all[at as int] == events@[at as int].deep_view());
            }
            lemma_later(all, self.checkpoint, at as int);
        }
        if at < events.len() {
            replay::<P>(&mut self.state, events, at);
            self.checkpoint = events[events.len() - 1].seq;
            assert(all.last() == events@[events@.len() - 1].deep_view());
        }
    }

    /// Drops the state and folds it again from all events.
    pub fn wipe_and_rebuild(&mut self, events: &Vec<Event>)
        requires
            P::fits(fold::<P>(events.deep_view())),
        ensures
            final(self).standing() == settled::<P>(events.deep_view()),
    {
        let mut state = P::empty_state();
        assert(events.deep_view().skip(0) =~= events.deep_view());
        replay::<P>(&mut state, events, 0);
        let checkpoint: u64 = if events.len() > 0 {
            assert(events.deep_view().last() == events@[events@.len() - 1].deep_view());
            events[events.len() - 1].seq
        } else {
            0
        };
        *self = Materialized { state, checkpoint };
    }
}

/// A single-agent shard.
pub struct AgentShard {
    events: Vec<Event>,
    facts: Materialized<CurrentFacts>,
    tasks: Materialized<TaskState>,
    ledger: Materialized<ToolLedger>,
}

/// What a shard holds: its events, and where its projections stand.
#[verifier::ext_equal]
pub struct ShardModel {
    pub events: Seq<EventModel>,
    pub facts: Standing<FactsModel>,
    pub tasks: Standing<Map<(Seq<char>, Seq<char>), JsonModel>>,
    pub ledger: Standing<LedgerModel>,
}

impl ShardModel {
    /// A shard whose projections have all been folded from exactly its events.
    pub open spec fn current(events: Seq<EventModel>) -> ShardModel {
        ShardModel {
            events,
            facts: settled::<CurrentFacts>(events),
            tasks: settled::<TaskState>(events),
            ledger: settled::<ToolLedger>(events),
        }
    }

    /// The shard once an event was stored and applied to every projection.
    pub open spec fn appended(self, event: EventModel) -> ShardModel {
        ShardModel {
            events: self.events.push(event),
            facts: Standing {
                state: CurrentFacts::step(self.facts.state, event),
                checkpoint: event.seq,
            },
            tasks: Standing {
                state: TaskState::step(self.tasks.state, event),
                checkpoint: event.seq,
            },
            ledger: Standing {
                state: ToolLedger::step(self.ledger.state, event),
                checkpoint: event.seq,
            },
        }
    }
}

/// Appending keeps projections current.
pub proof fn law_appending_stays_current(events: Seq<EventModel>, event: EventModel)
    ensures
        ShardModel::current(events).appended(event) == ShardModel::current(events.push(event)),
{
    assert(events.push(event).drop_last() =~= events);
}

impl DeepView for AgentShard {
    type V = ShardModel;

    closed spec fn deep_view(&self) -> ShardModel {
        ShardModel {
            events: self.events.deep_view(),
            facts: self.facts.standing(),
            tasks: self.tasks.standing(),
            ledger: self.ledger.standing(),
        }
    }
}

/// The events of one stream.
pub open spec fn of_stream(stream: Seq<char>) -> spec_fn(EventModel) -> bool {
    |event: EventModel| event.stream_id == stream
}

impl AgentShard {
    /// The events are in order, and their tool counters fit.
    #[verifier::type_invariant]
    spec fn in_order(self) -> bool {
        &&& seqs_ascend(self.events.deep_view())
        &&& ToolLedger::fits(fold::<ToolLedger>(self.events.deep_view()))
    }

    /// A shard without events.
    pub fn new() -> (r: Self)
        ensures
            r.deep_view() == ShardModel::current(Seq::empty()),
    {
        let events: Vec<Event> = Vec::new();
        assert(events.deep_view() =~= Seq::empty());
        AgentShard {
            events,
            facts: Materialized::new(),
            tasks: Materialized::new(),
            ledger: Materialized::new(),
        }
    }

    /// Opens a shard from its events and its persisted projections, each of which
    /// may lag behind, and applies to each projection the events that it missed.
    pub fn open(
        events: Vec<Event>,
        facts: Materialized<CurrentFacts>,
        tasks: Materialized<TaskState>,
        ledger: Materialized<ToolLedger>,
    ) -> (r: Self)
        requires
            seqs_ascend(events.deep_view()),
            ToolLedger::fits(fold::<ToolLedger>(events.deep_view())),
            ToolLedger::fits(
                recovered::<ToolLedger>(ledger.standing(), events.deep_view()).state,
            ),
        ensures
            r.deep_view() == (ShardModel {
                events: events.deep_view(),
                facts: recovered::<CurrentFacts>(facts.standing(), events.deep_view()),
                tasks: recovered::<TaskState>(tasks.standing(), events.deep_view()),
                ledger: recovered::<ToolLedger>(ledger.standing(), events.deep_view()),
            }),
    {
        let mut facts = facts;
        let mut tasks = tasks;
        let mut ledger = ledger;
        facts.recover(&events);
        tasks.recover(&events);
        ledger.recover(&events);
        AgentShard { events, facts, tasks, ledger }
    }

    /// Stores the event and applies it to every projection.
    pub fn append_event(&mut self, event: &Event)
        requires
            event.seq > last_seq_of(old(self).deep_view().events),
            ToolLedger::fits(
                fold::<ToolLedger>(old(self).deep_view().events.push(event.deep_view())),
            ),
            ToolLedger::fits(old(self).deep_view().appended(event.deep_view()).ledger.state),
        ensures
            final(self).deep_view() == old(self).deep_view().appended(event.deep_view()),
    {
        let mut shard = AgentShard::new();
        std::mem::swap(self, &mut shard);
        proof {
            use_type_invariant(&shard);
        }
        let ghost before = shard.events.deep_view();
        let ghost after = before.push(event.deep_view());
        let AgentShard { mut events, mut facts, mut tasks, mut ledger } = shard;
        events.push(event.replica());
        proof {
            assert(events.deep_view() =~= after);
            assert(seqs_ascend(after)) by {
                assert forall|i: int, j: int| 0 <= i < j < after.len() implies (
                #[trigger] after[i]).seq < (#[trigger] after[j]).seq by {
                    if j == before.len() && i < before.len() - 1 {
                        assert(before[i].seq < before[before.len() - 1].seq);
                    }
                }
            }
        }
        facts.apply_event(event);
        tasks.apply_event(event);
        ledger.apply_event(event);
        *self = AgentShard { events, facts, tasks, ledger };
    }

    /// The position of the event with the given sequence number.
    fn find(&self, seq: u64) -> (r: Option<usize>)
        ensures
            match r {
                Some(i) => i < self.events.len() && self.events@[i as int].seq == seq,
                None => forall|i: int|
                    0 <= i < self.deep_view().events.len() ==> (#[trigger] self.deep_view().events[i]).seq != seq,
            },
    {
        proof {
            use_type_invariant(self);
        }
        let ghost all = self.deep_view().events;
        let mut lo: usize = 0;
        let mut hi: usize = self.events.len();
        while lo < hi
            invariant
                lo <= hi <= self.events.len(),
                all == self.events.deep_view(),
                seqs_ascend(all),
                forall|i: int| 0 <= i < lo ==> (#[trigger] all[i]).seq < seq,
                forall|i: int| hi <= i < all.len() ==> (#[trigger] all[i]).seq > seq,
            decreases hi - lo,
        {
            let mid: usize = lo + (hi - lo) / 2;
            assert(all[mid as int] == self.events@[mid as int].deep_view());
            let here: u64 = self.events[mid].seq;
            if here == seq {
                return Some(mid);
            }
            if here < seq {
                lo = mid + 1;
            } else {
                hi = mid;
            }
        }
        None
    }

    /// The event with the given sequence number, if it is in this shard.
    pub fn read_event(&self, seq: u64) -> (r: Option<Event>)
        ensures
            match r {
                Some(event) => event.seq == seq && self.deep_view().events.contains(event.deep_view()),
                None => forall|i: int|
                    0 <= i < self.deep_view().events.len() ==> (#[trigger] self.deep_view().events[i]).seq != seq,
            },
    {
        match self.find(seq) {
            Some(i) => {
                assert(self.deep_view().events[i as int] == self.events@[i as int].deep_view());
                let event = self.events[i].replica();
                assert(event.deep_view().seq == seq);
                Some(event)
            },
            None => None,
        }
    }

    /// All events of this shard in ascending seq order.
    pub fn iter_events(&self) -> (r: &Vec<Event>)
        ensures
            r.deep_view() == self.deep_view().events,
    {
        &self.events
    }

    /// The events of a stream in ascending seq order.
    pub fn stream_events(&self, stream_id: &StreamId) -> (r: Vec<Event>)
        ensures
            r.deep_view() == self.deep_view().events.filter(of_stream(stream_id.deep_view())),
    {
        let ghost all = self.deep_view().events;
        let ghost keep = of_stream(stream_id.deep_view());
        let mut out: Vec<Event> = Vec::new();
        let mut i: usize = 0;
        proof {
            reveal(Seq::filter);
            assert(all.take(0).filter(keep) =~= Seq::empty());
            assert(out.deep_view() =~= Seq::empty());
        }
        while i < self.events.len()
            invariant
                i <= self.events.len(),
                all == self.events.deep_view(),
                keep == of_stream(stream_id.deep_view()),
                out.deep_view() == all.take(i as int).filter(keep),
            decreases self.events.len() - i,
        {
            let ghost was = out.deep_view();
            proof {
                reveal(Seq::filter);
                assert(all.take(i + 1).drop_last() =~= all.take(i as int));
                assert(all.take(i + 1).last() == self.events@[i as int].deep_view());
            }
            if self.events[i].stream_id.0 == stream_id.0 {
                out.push(self.events[i].replica());
                assert(out.deep_view() =~= was.push(all[i as int]));
            }
            i += 1;
        }
        assert(all.take(i as int) =~= all);
        out
    }

    /// The sequence number of the last event, or zero.
    pub fn last_seq(&self) -> (r: u64)
        ensures
            r == last_seq_of(self.deep_view().events),
    {
        if self.events.len() > 0 {
            assert(self.deep_view().events.last() == self.events@[self.events@.len() - 1].deep_view());
            self.events[self.events.len() - 1].seq
        } else {
            0
        }
    }

    pub fn facts(&self) -> (r: &Materialized<CurrentFacts>)
        ensures
            r.standing() == self.deep_view().facts,
    {
        &self.facts
    }

    pub fn tasks(&self) -> (r: &Materialized<TaskState>)
        ensures
            r.standing() == self.deep_view().tasks,
    {
        &self.tasks
    }

    pub fn ledger(&self) -> (r: &Materialized<ToolLedger>)
        ensures
            r.standing() == self.deep_view().ledger,
    {
        &self.ledger
    }

    /// Wipe local projection state and rebuild it from this shard's events. The
    /// events stay, and whatever the projections were, they come out folded from
    /// exactly these events.
    pub fn wipe_and_rebuild_local(&mut self)
        ensures
            final(self).deep_view() == ShardModel::current(old(self).deep_view().events),
    {
        let mut shard = AgentShard::new();
        std::mem::swap(self, &mut shard);
        proof {
            use_type_invariant(&shard);
        }
        let AgentShard { events, mut facts, mut tasks, mut ledger } = shard;
        facts.wipe_and_rebuild(&events);
        tasks.wipe_and_rebuild(&events);
        ledger.wipe_and_rebuild(&events);
        *self = AgentShard { events, facts, tasks, ledger };
    }
}

} // verus!
