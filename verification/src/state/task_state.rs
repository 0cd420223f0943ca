//! The latest state of each task.

use crate::event::{AgentId, Event, EventKind, EventModel, StreamId};
use crate::json::{Json, JsonModel};
use crate::projection::{fold, Projection, ProjectionScope};
use crate::sorted::{Replica, SortedMap};
use vstd::prelude::*;

verus! {

/// Projection that tracks the latest `StateTransition` payload per (agent, stream).
#[derive(Debug, PartialEq)]
pub struct TaskStateState {
    /// (agent, stream) -> latest state payload
    states: SortedMap<(String, String), Json>,
}

impl DeepView for TaskStateState {
    type V = Map<(Seq<char>, Seq<char>), JsonModel>;

    closed spec fn deep_view(&self) -> Map<(Seq<char>, Seq<char>), JsonModel> {
        self.states.deep_view()
    }
}

impl Replica for TaskStateState {
    fn replica(&self) -> (r: Self) {
        TaskStateState { states: self.states.replica() }
    }
}

impl Clone for TaskStateState {
    fn clone(&self) -> (r: Self)
        ensures
            r.deep_view() == self.deep_view(),
    {
        self.replica()
    }
}

impl Default for TaskStateState {
    fn default() -> (r: Self)
        ensures
            r.deep_view() == TaskState::initial(),
    {
        TaskState::empty_state()
    }
}

impl TaskStateState {
    /// Returns the latest state for a given stream, if any.
    pub fn get(&self, agent_id: &AgentId, stream_id: &StreamId) -> (r: Option<&Json>)
        ensures
            match r {
                Some(v) => self.deep_view().contains_key(
                    (agent_id.deep_view(), stream_id.deep_view()),
                ) && self.deep_view()[(agent_id.deep_view(), stream_id.deep_view())]
                    == v.deep_view(),
                None => !self.deep_view().contains_key(
                    (agent_id.deep_view(), stream_id.deep_view()),
                ),
            },
    {
        self.states.get(&(agent_id.0.clone(), stream_id.0.clone()))
    }
}

/// Marker type for the `TaskState` projection.
pub struct TaskState;

impl Projection for TaskState {
    type State = TaskStateState;

    open spec fn initial() -> Map<(Seq<char>, Seq<char>), JsonModel> {
        Map::empty()
    }

    open spec fn step(
        state: Map<(Seq<char>, Seq<char>), JsonModel>,
        event: EventModel,
    ) -> Map<(Seq<char>, Seq<char>), JsonModel> {
        if event.kind is StateTransition {
            state.insert((event.agent_id, event.stream_id), event.payload)
        } else {
            state
        }
    }

    open spec fn combined(
        whole: Map<(Seq<char>, Seq<char>), JsonModel>,
        part: Map<(Seq<char>, Seq<char>), JsonModel>,
    ) -> Map<(Seq<char>, Seq<char>), JsonModel> {
        whole.union_prefer_right(part)
    }

    open spec fn fits(state: Map<(Seq<char>, Seq<char>), JsonModel>) -> bool {
        true
    }

    open spec fn lives_in() -> ProjectionScope {
        ProjectionScope::Agent
    }

    open spec fn registered_as() -> Seq<char> {
        "TaskState"@
    }

    proof fn fits_before_step(
        state: Map<(Seq<char>, Seq<char>), JsonModel>,
        event: EventModel,
    ) {
    }

    proof fn state_fits(state: &TaskStateState) {
    }

    proof fn fits_before_combined(
        whole: Map<(Seq<char>, Seq<char>), JsonModel>,
        part: Map<(Seq<char>, Seq<char>), JsonModel>,
    ) {
    }

    fn name() -> (r: &'static str) {
        "TaskState"
    }

    fn scope() -> (r: ProjectionScope) {
        ProjectionScope::Agent
    }

    fn empty_state() -> (r: TaskStateState) {
        let r = TaskStateState { states: SortedMap::new() };
        assert(r.deep_view() =~= Map::empty());
        r
    }

    fn apply(state: &mut TaskStateState, event: &Event) {
        let ghost before = state.deep_view();
        if let EventKind::StateTransition = &event.kind {
            state.states.insert(
                (event.agent_id.0.clone(), event.stream_id.0.clone()),
                event.payload.clone(),
            );
            assert(state.deep_view() =~= before.insert(
                (event.deep_view().agent_id, event.deep_view().stream_id),
                event.deep_view().payload,
            ));
        }
    }

    fn merge(whole: &mut TaskStateState, part: &TaskStateState) {
        let ghost start = whole.deep_view();
        let ghost pairs = part.states.pairs();
        let n: usize = part.states.len();
        let mut i: usize = 0;
        assert(start.union_prefer_right(crate::sorted::map_of(pairs.take(0))) =~= start);
        while i < n
            invariant
                i <= n,
                n == pairs.len(),
                pairs == part.states.pairs(),
                whole.deep_view() == start.union_prefer_right(
                    crate::sorted::map_of(pairs.take(i as int)),
                ),
            decreases n - i,
        {
            proof {
                let next = pairs.take(i + 1);
                assert(next.drop_last() =~= pairs.take(i as int));
                assert(start.union_prefer_right(crate::sorted::map_of(next))
                    =~= start.union_prefer_right(
                    crate::sorted::map_of(pairs.take(i as int)),
                ).insert(pairs[i as int].0, pairs[i as int].1));
            }
            whole.states.insert(part.states.key_at(i).replica(), part.states.value_at(i).replica());
            i += 1;
        }
        assert(pairs.take(i as int) =~= pairs);
    }
}

/// The `i`-th event is the last state transition of the agent in the stream.
pub open spec fn is_last_transition(
    events: Seq<EventModel>,
    i: int,
    agent: Seq<char>,
    stream: Seq<char>,
) -> bool {
    &&& 0 <= i < events.len()
    &&& events[i].kind is StateTransition
    &&& events[i].agent_id == agent
    &&& events[i].stream_id == stream
    &&& forall|j: int|
        i < j < events.len() ==> !((#[trigger] events[j]).kind is StateTransition
            && events[j].agent_id == agent && events[j].stream_id == stream)
}

/// The state of a task is the payload of the last state transition of its agent in its
/// stream; without one there is no state.
pub proof fn law_the_last_transition_is_the_state(
    events: Seq<EventModel>,
    agent: Seq<char>,
    stream: Seq<char>,
)
    ensures
        ({
            let state = fold::<TaskState>(events);
            &&& state.contains_key((agent, stream)) <==> exists|i: int| #[trigger]
                is_last_transition(events, i, agent, stream)
            &&& forall|i: int| #[trigger]
                is_last_transition(events, i, agent, stream) ==> state[(agent, stream)]
                    == events[i].payload
        }),
    decreases events.len(),
{
    let key = (agent, stream);
    let after = fold::<TaskState>(events);
    if events.len() > 0 {
        let rest = events.drop_last();
        let last = events.last();
        let n = events.len() - 1;
        let before = fold::<TaskState>(rest);
        law_the_last_transition_is_the_state(rest, agent, stream);
        assert(after == TaskState::step(before, last));
        assert(events[n] == last);
        let here = last.kind is StateTransition && last.agent_id == agent && last.stream_id
            == stream;
        if here {
            assert(is_last_transition(events, n, agent, stream));
        }
        assert forall|i: int| #[trigger] is_last_transition(events, i, agent, stream) implies after[
        key] == events[i].payload && after.contains_key(key) by {
            if i < n {
                assert(!here);
                assert(rest[i] == events[i]);
                assert forall|j: int| i < j < rest.len() implies !((
                #[trigger] rest[j]).kind is StateTransition && rest[j].agent_id == agent
                    && rest[j].stream_id == stream) by {
                    assert(rest[j] == events[j]);
                }
                assert(is_last_transition(rest, i, agent, stream));
            }
        }
        if after.contains_key(key) && !here {
            let i = choose|i: int| #[trigger] is_last_transition(rest, i, agent, stream);
            assert(rest[i] == events[i]);
            assert forall|j: int| i < j < events.len() implies !((
            #[trigger] events[j]).kind is StateTransition && events[j].agent_id == agent
                && events[j].stream_id == stream) by {
                if j < n {
                    assert(rest[j] == events[j]);
                }
            }
            assert(is_last_transition(events, i, agent, stream));
        }
    }
}

} // verus!
