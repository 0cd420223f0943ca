//! Projections: states folded from the event log.

use crate::event::{Event, EventModel};
use crate::sorted::Replica;
use vstd::prelude::*;

verus! {

/// Scope of a projection.
#[derive(Clone, Copy, Debug, PartialEq, Eq, Structural)]
pub enum ProjectionScope {
    /// Projection state is scoped to a single agent shard.
    Agent,
    /// Projection state spans all agents and lives in the global shard.
    Global,
}

/// What a projection's state stands for.
pub type Folded<P> = <<P as Projection>::State as DeepView>::V;

/// A deterministic fold over the event log: given the same sequence of events,
/// the state is always the same.
pub trait Projection: Sized {
    /// The accumulated state type.
    type State: Replica;

    /// The state before any event.
    spec fn initial() -> Folded<Self>;

    /// The state after one more event.
    spec fn step(state: Folded<Self>, event: EventModel) -> Folded<Self>;

    /// A whole combined with the partial state of one more shard.
    spec fn combined(whole: Folded<Self>, part: Folded<Self>) -> Folded<Self>;

    /// The counters of the state fit their machine types.
    spec fn fits(state: Folded<Self>) -> bool;

    /// Where a projection's state lives.
    spec fn lives_in() -> ProjectionScope;

    /// The name under which a projection is registered and persisted.
    spec fn registered_as() -> Seq<char>;

    /// Counters only grow with further events.
    proof fn fits_before_step(state: Folded<Self>, event: EventModel)
        requires
            Self::fits(Self::step(state, event)),
        ensures
            Self::fits(state),
    ;

    /// Counters that a state holds fit.
    proof fn state_fits(state: &Self::State)
        ensures
            Self::fits(state.deep_view()),
    ;

    /// Counters only grow with further shards.
    proof fn fits_before_combined(whole: Folded<Self>, part: Folded<Self>)
        requires
            Self::fits(Self::combined(whole, part)),
        ensures
            Self::fits(whole),
    ;

    /// Unique name used as registry key and persistence prefix.
    fn name() -> (r: &'static str)
        ensures
            r@ == Self::registered_as(),
    ;

    /// Scope of the projection.
    fn scope() -> (r: ProjectionScope)
        ensures
            r == Self::lives_in(),
    ;

    /// Returns the empty state for this projection.
    fn empty_state() -> (r: Self::State)
        ensures
            r.deep_view() == Self::initial(),
    ;

    /// Apply one event to the state.
    fn apply(state: &mut Self::State, event: &Event)
        requires
            Self::fits(Self::step(old(state).deep_view(), event.deep_view())),
        ensures
            final(state).deep_view() == Self::step(old(state).deep_view(), event.deep_view()),
    ;

    /// Merge a partial shard state into a whole.
    fn merge(whole: &mut Self::State, part: &Self::State)
        requires
            Self::fits(Self::combined(old(whole).deep_view(), part.deep_view())),
        ensures
            final(whole).deep_view() == Self::combined(old(whole).deep_view(), part.deep_view()),
    ;
}

/// Extension trait that lets users start from a projection's state.
pub trait ProjectionExt {
    type State;

    /// The state is the one before any event.
    spec fn is_initial(state: Self::State) -> bool;

    /// Returns the empty state for this projection.
    fn initial_state() -> (r: Self::State)
        ensures
            Self::is_initial(r),
    ;
}

impl<P: Projection> ProjectionExt for P {
    type State = <P as Projection>::State;

    open spec fn is_initial(state: <P as Projection>::State) -> bool {
        state.deep_view() == P::initial()
    }

    fn initial_state() -> (r: <P as Projection>::State) {
        P::empty_state()
    }
}

/// The state after a sequence of events.
pub open spec fn fold<P: Projection>(events: Seq<EventModel>) -> Folded<P> {
    fold_from::<P>(P::initial(), events)
}

/// The state after a sequence of events that continues from `state`.
pub open spec fn fold_from<P: Projection>(state: Folded<P>, events: Seq<EventModel>) -> Folded<P>
    decreases events.len(),
{
    if events.len() == 0 {
        state
    } else {
        P::step(fold_from::<P>(state, events.drop_last()), events.last())
    }
}

/// The combination of the states of several shards.
pub open spec fn combine_all<P: Projection>(parts: Seq<Folded<P>>) -> Folded<P>
    decreases parts.len(),
{
    if parts.len() == 0 {
        P::initial()
    } else {
        P::combined(combine_all::<P>(parts.drop_last()), parts.last())
    }
}

/// Folding a log in two runs gives what folding it in one run gives: a
/// checkpointed state and the events after its checkpoint are enough.
pub proof fn law_fold_resumes<P: Projection>(
    state: Folded<P>,
    done: Seq<EventModel>,
    rest: Seq<EventModel>,
)
    ensures
        fold_from::<P>(state, done + rest) == fold_from::<P>(fold_from::<P>(state, done), rest),
    decreases rest.len(),
{
    if rest.len() == 0 {
        assert(done + rest =~= done);
    } else {
        assert((done + rest).drop_last() =~= done + rest.drop_last());
        assert((done + rest).last() == rest.last());
        law_fold_resumes::<P>(state, done, rest.drop_last());
    }
}

/// Where the state after all events fits, it fits after any first part of them.
pub proof fn lemma_fits_prefix<P: Projection>(state: Folded<P>, events: Seq<EventModel>, n: int)
    requires
        P::fits(fold_from::<P>(state, events)),
        0 <= n <= events.len(),
    ensures
        P::fits(fold_from::<P>(state, events.take(n))),
    decreases events.len(),
{
    if n < events.len() {
        P::fits_before_step(fold_from::<P>(state, events.drop_last()), events.last());
        lemma_fits_prefix::<P>(state, events.drop_last(), n);
        assert(events.drop_last().take(n) =~= events.take(n));
    } else {
        assert(events.take(n) =~= events);
    }
}

/// Where the combination of all shards fits, so does that of the first few.
pub proof fn lemma_combined_prefix<P: Projection>(parts: Seq<Folded<P>>, n: int)
    requires
        P::fits(combine_all::<P>(parts)),
        0 <= n <= parts.len(),
    ensures
        P::fits(combine_all::<P>(parts.take(n))),
    decreases parts.len(),
{
    if n < parts.len() {
        P::fits_before_combined(combine_all::<P>(parts.drop_last()), parts.last());
        lemma_combined_prefix::<P>(parts.drop_last(), n);
        assert(parts.drop_last().take(n) =~= parts.take(n));
    } else {
        assert(parts.take(n) =~= parts);
    }
}

/// Applies the events, in order, to a state.
pub fn replay<P: Projection>(state: &mut P::State, events: &Vec<Event>, from: usize)
    requires
        from <= events.len(),
        P::fits(
            fold_from::<P>(
                old(state).deep_view(),
                events.deep_view().skip(from as int),
            ),
        ),
    ensures
        final(state).deep_view() == fold_from::<P>(
            old(state).deep_view(),
            events.deep_view().skip(from as int),
        ),
{
    let ghost start = state.deep_view();
    let ghost run = events.deep_view().skip(from as int);
    let mut i: usize = from;
    assert(run.take(0) =~= Seq::empty());
    while i < events.len()
        invariant
            from <= i <= events.len(),
            run == events.deep_view().skip(from as int),
            P::fits(fold_from::<P>(start, run)),
            state.deep_view() == fold_from::<P>(start, run.take(i - from)),
        decreases events.len() - i,
    {
        proof {
            let next = run.take(i - from + 1);
            assert(next.drop_last() =~= run.take(i - from));
            assert(next.last() == events@[i as int].deep_view());
            lemma_fits_prefix::<P>(start, run, i - from + 1);
        }
        P::apply(state, &events[i]);
        i += 1;
    }
    assert(run.take(i - from) =~= run);
}

/// A state is built up event by event: before any event it is the initial one, and one more
/// event is one more step.
pub proof fn law_folds_go_step_by_step<P: Projection>(events: Seq<EventModel>, event: EventModel)
    ensures
        fold::<P>(Seq::empty()) == P::initial(),
        fold::<P>(events.push(event)) == P::step(fold::<P>(events), event),
{
    assert(events.push(event).drop_last() =~= events);
}

} // verus!
