//! The facts that are currently valid.

use crate::event::{AgentId, Event, EventKind, EventModel, KindModel, StreamId};
use crate::projection::{fold, Projection, ProjectionScope};
use crate::sorted::{map_of, Replica, SortedMap};
use vstd::prelude::*;

verus! {

/// (agent, stream) -> seq -> is valid
pub type FactsModel = Map<(Seq<char>, Seq<char>), Map<u64, bool>>;

/// Projection that tracks currently valid facts per (agent, stream).
///
/// A fact is valid until a `MemoryInvalidate` event targets its sequence number.
/// The original event remains in the immutable log; only the derived state is
/// updated.
#[derive(Debug, PartialEq)]
pub struct CurrentFactsState {
    facts: SortedMap<(String, String), SortedMap<u64, bool>>,
}

impl DeepView for CurrentFactsState {
    type V = FactsModel;

    closed spec fn deep_view(&self) -> FactsModel {
        self.facts.deep_view()
    }
}

impl Replica for CurrentFactsState {
    fn replica(&self) -> (r: Self) {
        CurrentFactsState { facts: self.facts.replica() }
    }
}

impl Clone for CurrentFactsState {
    fn clone(&self) -> (r: Self)
        ensures
            r.deep_view() == self.deep_view(),
    {
        self.replica()
    }
}

impl Default for CurrentFactsState {
    fn default() -> (r: Self)
        ensures
            r.deep_view() == CurrentFacts::initial(),
    {
        CurrentFacts::empty_state()
    }
}

/// Whether `seq` is a valid fact of some stream.
pub open spec fn is_valid_fact(state: FactsModel, seq: u64) -> bool {
    exists|key: (Seq<char>, Seq<char>)|
        state.contains_key(key) && (#[trigger] state[key]).contains_key(seq) && state[key][seq]
}

/// Whether `seq` is a valid fact of one stream.
pub open spec fn holds(facts: Map<u64, bool>, seq: u64) -> bool {
    facts.contains_key(seq) && facts[seq]
}

/// The facts of one stream once `target` is no longer valid.
pub open spec fn without_fact(facts: Map<u64, bool>, target: u64) -> Map<u64, bool> {
    if facts.contains_key(target) {
        facts.insert(target, false)
    } else {
        facts
    }
}

/// The facts of one stream, or none.
pub open spec fn facts_of(state: FactsModel, key: (Seq<char>, Seq<char>)) -> Map<u64, bool> {
    if state.contains_key(key) {
        state[key]
    } else {
        Map::empty()
    }
}

impl CurrentFactsState {
    /// Returns true if the given seq is a currently valid fact.
    pub fn contains(&self, seq: u64) -> (r: bool)
        ensures
            r == is_valid_fact(self.deep_view(), seq),
    {
        let n: usize = self.facts.len();
        let ghost pairs = self.facts.pairs();
        let mut i: usize = 0;
        while i < n
            invariant
                i <= n,
                n == pairs.len(),
                pairs == self.facts.pairs(),
                forall|j: int|
                    0 <= j < i ==> !((#[trigger] pairs[j]).1.contains_key(seq) && pairs[j].1[seq]),
            decreases n - i,
        {
            match self.facts.value_at(i).get(&seq) {
                Some(valid) => {
                    if *valid {
                        assert(self.deep_view()[pairs[i as int].0].contains_key(seq));
                        return true;
                    }
                },
                None => {},
            }
            i += 1;
        }
        proof {
            assert forall|key: (Seq<char>, Seq<char>)|
                self.deep_view().contains_key(key) implies !((
            #[trigger] self.deep_view()[key]).contains_key(seq) && self.deep_view()[key][seq]) by {
                crate::sorted::lemma_map_of_domain(pairs, key);
                let j = choose|j: int| 0 <= j < pairs.len() && (#[trigger] pairs[j]).0 == key;
                crate::sorted::lemma_map_of_value::<(String, String), Map<u64, bool>>(pairs, j);
            }
        }
        false
    }

    /// Returns the sequence numbers of all valid facts for a given stream, in
    /// ascending order.
    pub fn valid_facts(&self, agent_id: &AgentId, stream_id: &StreamId) -> (r: Vec<u64>)
        ensures
            forall|i: int, j: int| 0 <= i < j < r.len() ==> r@[i] < r@[j],
            forall|seq: u64|
                #[trigger] r@.contains(seq) <==> holds(
                    facts_of(self.deep_view(), (agent_id.deep_view(), stream_id.deep_view())),
                    seq,
                ),
    {
        let mut out: Vec<u64> = Vec::new();
        let ghost key = (agent_id.deep_view(), stream_id.deep_view());
        match self.facts.get(&(agent_id.0.clone(), stream_id.0.clone())) {
            Some(facts) => {
                let ghost pairs = facts.pairs();
                let n: usize = facts.len();
                let mut i: usize = 0;
                while i < n
                    invariant
                        i <= n,
                        n == pairs.len(),
                        pairs == facts.pairs(),
                        crate::sorted::ascending::<u64, bool>(pairs),
                        forall|a: int, b: int| 0 <= a < b < out.len() ==> out@[a] < out@[b],
                        forall|a: int|
                            0 <= a < out.len() ==> drawn(pairs, i as int, #[trigger] out@[a]),
                        forall|j: int|
                            0 <= j < i && (#[trigger] pairs[j]).1 ==> out@.contains(pairs[j].0),
                    decreases n - i,
                {
                    let ghost was = out@;
                    if *facts.value_at(i) {
                        let seq: u64 = *facts.key_at(i);
                        proof {
                            assert forall|a: int| 0 <= a < was.len() implies was[a] < seq by {
                                assert(drawn(pairs, i as int, was[a]));
                                let j = choose|j: int|
                                    0 <= j < i && (#[trigger] pairs[j]).0 == was[a] && pairs[j].1;
                                assert(<u64 as crate::sorted::SortKey>::before(pairs[j].0, pairs[i as int].0));
                            }
                        }
                        out.push(seq);
                        proof {
                            assert(out@[was.len() as int] == pairs[i as int].0);
                            assert forall|j: int|
                                0 <= j < i + 1 && (
                                #[trigger] pairs[j]).1 implies out@.contains(pairs[j].0) by {
                                if j < i {
                                    let a = choose|a: int| 0 <= a < was.len() && was[a] == pairs[j].0;
                                    assert(out@[a] == pairs[j].0);
                                }
                            }
                        }
                    }
                    proof {
                        assert forall|a: int| 0 <= a < out.len() implies drawn(
                            pairs,
                            i + 1,
                            #[trigger] out@[a],
                        ) by {
                            if a < was.len() {
                                assert(drawn(pairs, i as int, was[a]));
                                let j = choose|j: int|
                                    0 <= j < i && (#[trigger] pairs[j]).0 == was[a] && pairs[j].1;
                                assert(pairs[j].0 == out@[a]);
                            } else {
                                assert(pairs[i as int].0 == out@[a]);
                            }
                        }
                    }
                    i += 1;
                }
                proof {
                    let model = facts.deep_view();
                    assert(facts_of(self.deep_view(), key) == model);
                    assert forall|seq: u64|
                        #[trigger] out@.contains(seq) <==> holds(model, seq) by {
                        crate::sorted::lemma_map_of_domain(pairs, seq);
                        if out@.contains(seq) {
                            let a = choose|a: int| 0 <= a < out.len() && out@[a] == seq;
                            assert(drawn(pairs, n as int, out@[a]));
                            let j = choose|j: int|
                                0 <= j < n && (#[trigger] pairs[j]).0 == out@[a] && pairs[j].1;
                            crate::sorted::lemma_map_of_value::<u64, bool>(pairs, j);
                        }
                        if model.contains_key(seq) && model[seq] {
                            let j = choose|j: int| 0 <= j < pairs.len() && (#[trigger] pairs[j]).0 == seq;
                            crate::sorted::lemma_map_of_value::<u64, bool>(pairs, j);
                            assert(pairs[j].1);
                        }
                    }
                }
            },
            None => {},
        }
        out
    }
}

/// Marker type for the `CurrentFacts` projection.
pub struct CurrentFacts;

impl Projection for CurrentFacts {
    type State = CurrentFactsState;

    open spec fn initial() -> FactsModel {
        Map::empty()
    }

    open spec fn step(state: FactsModel, event: EventModel) -> FactsModel {
        match event.kind {
            KindModel::Fact => {
                let key = (event.agent_id, event.stream_id);
                state.insert(key, facts_of(state, key).insert(event.seq, true))
            },
            KindModel::MemoryInvalidate { target_seq } => state.map_values(
                |facts: Map<u64, bool>| without_fact(facts, target_seq),
            ),
            _ => state,
        }
    }

    open spec fn combined(whole: FactsModel, part: FactsModel) -> FactsModel {
        Map::new(
            |key: (Seq<char>, Seq<char>)| whole.contains_key(key) || part.contains_key(key),
            |key: (Seq<char>, Seq<char>)|
                facts_of(whole, key).union_prefer_right(facts_of(part, key)),
        )
    }

    open spec fn fits(state: FactsModel) -> bool {
        true
    }

    open spec fn lives_in() -> ProjectionScope {
        ProjectionScope::Agent
    }

    open spec fn registered_as() -> Seq<char> {
        "CurrentFacts"@
    }

    proof fn fits_before_step(state: FactsModel, event: EventModel) {
    }

    proof fn state_fits(state: &CurrentFactsState) {
    }

    proof fn fits_before_combined(whole: FactsModel, part: FactsModel) {
    }

    fn name() -> (r: &'static str) {
        "CurrentFacts"
    }

    fn scope() -> (r: ProjectionScope) {
        ProjectionScope::Agent
    }

    fn empty_state() -> (r: CurrentFactsState) {
        let r = CurrentFactsState { facts: SortedMap::new() };
        assert(r.deep_view() =~= Map::empty());
        r
    }

    fn apply(state: &mut CurrentFactsState, event: &Event) {
        match &event.kind {
            EventKind::Fact => {
                let key = (event.agent_id.0.clone(), event.stream_id.0.clone());
                let ghost before = state.deep_view();
                let mut facts = match state.facts.remove(&key) {
                    Some(facts) => facts,
                    None => SortedMap::new(),
                };
                facts.insert(event.seq, true);
                let ghost k = key.deep_view();
                let ghost v = facts.deep_view();
                state.facts.insert(key, facts);
                assert(state.deep_view() =~= before.insert(k, v));
            },
            EventKind::MemoryInvalidate { target_seq } => {
                let ghost start = state.facts.pairs();
                let ghost whole = state.deep_view();
                let ghost target = *target_seq;
                let n: usize = state.facts.len();
                let mut i: usize = 0;
                while i < n
                    invariant
                        i <= n,
                        n == start.len(),
                        target == *target_seq,
                        state.facts.pairs().len() == n,
                        forall|j: int|
                            0 <= j < i ==> #[trigger] state.facts.pairs()[j] == (
                                start[j].0,
                                without_fact(start[j].1, target),
                            ),
                        forall|j: int|
                            i <= j < n ==> #[trigger] state.facts.pairs()[j] == start[j],
                    decreases n - i,
                {
                    if state.facts.value_at(i).contains_key(target_seq) {
                        let mut facts = state.facts.value_at(i).replica();
                        facts.insert(*target_seq, false);
                        state.facts.replace_at(i, facts);
                    }
                    i += 1;
                }
                let count: usize = state.facts.len();
                proof {
                    let pairs = state.facts.pairs();
                    let after = whole.map_values(|facts: Map<u64, bool>| without_fact(facts, target));
                    lemma_mapped_pairs(start, pairs, target);
                    assert(state.deep_view() == after);
                }
            },
            _ => {},
        }
    }

    fn merge(whole: &mut CurrentFactsState, part: &CurrentFactsState) {
        let ghost start = whole.deep_view();
        let ghost pairs = part.facts.pairs();
        let n: usize = part.facts.len();
        let mut i: usize = 0;
        proof {
            assert forall|key: (Seq<char>, Seq<char>)| start.contains_key(key) implies start[key]
                == #[trigger] facts_of(start, key).union_prefer_right(
                facts_of(map_of(pairs.take(0)), key),
            ) by {
                assert(start[key] =~= facts_of(start, key).union_prefer_right(
                    facts_of(map_of(pairs.take(0)), key),
                ));
            }
            assert(Self::combined(start, map_of(pairs.take(0))) =~= start);
        }
        while i < n
            invariant
                i <= n,
                n == pairs.len(),
                pairs == part.facts.pairs(),
                crate::sorted::ascending::<(String, String), Map<u64, bool>>(pairs),
                whole.deep_view() == Self::combined(start, map_of(pairs.take(i as int))),
            decreases n - i,
        {
            let key = part.facts.key_at(i).replica();
            let extra = part.facts.value_at(i);
            let ghost k = key.deep_view();
            let ghost done = map_of(pairs.take(i as int));
            let ghost now = whole.deep_view();
            let mut facts = match whole.facts.remove(&key) {
                Some(facts) => facts,
                None => SortedMap::new(),
            };
            let ghost base = facts.deep_view();
            let ghost rows = extra.pairs();
            let m: usize = extra.len();
            let mut j: usize = 0;
            assert(base.union_prefer_right(map_of(rows.take(0))) =~= base);
            while j < m
                invariant
                    j <= m,
                    m == rows.len(),
                    rows == extra.pairs(),
                    facts.deep_view() == base.union_prefer_right(map_of(rows.take(j as int))),
                decreases m - j,
            {
                proof {
                    let next = rows.take(j + 1);
                    assert(next.drop_last() =~= rows.take(j as int));
                    assert(base.union_prefer_right(map_of(next)) =~= base.union_prefer_right(
                        map_of(rows.take(j as int)),
                    ).insert(rows[j as int].0, rows[j as int].1));
                }
                facts.insert(*extra.key_at(j), *extra.value_at(j));
                j += 1;
            }
            assert(rows.take(j as int) =~= rows);
            let ghost v = facts.deep_view();
            whole.facts.insert(key, facts);
            proof {
                let next = pairs.take(i + 1);
                assert(next.drop_last() =~= pairs.take(i as int));
                assert(map_of(next) == done.insert(k, extra.deep_view()));
                if done.contains_key(k) {
                    crate::sorted::lemma_map_of_domain(pairs.take(i as int), k);
                    let x = choose|x: int|
                        0 <= x < i && (#[trigger] pairs.take(i as int)[x]).0 == k;
                    assert(pairs[x].0 == k);
                    <(String, String) as crate::sorted::SortKey>::before_irreflexive(k);
                    assert(<(String, String) as crate::sorted::SortKey>::before(
                        pairs[x].0,
                        pairs[i as int].0,
                    ));
                }
                assert(base =~= facts_of(start, k));
                assert(v == facts_of(start, k).union_prefer_right(facts_of(map_of(next), k)));
                assert(whole.deep_view() =~= now.insert(k, v));
                assert(whole.deep_view() =~= Self::combined(start, map_of(next)));
            }
            i += 1;
        }
        assert(pairs.take(i as int) =~= pairs);
    }
}

/// `seq` is marked valid among the first `n` entries.
spec fn drawn(pairs: Seq<(u64, bool)>, n: int, seq: u64) -> bool {
    exists|j: int| 0 <= j < n && (#[trigger] pairs[j]).0 == seq && pairs[j].1
}

proof fn lemma_mapped_pairs(
    before: Seq<((Seq<char>, Seq<char>), Map<u64, bool>)>,
    after: Seq<((Seq<char>, Seq<char>), Map<u64, bool>)>,
    target: u64,
)
    requires
        before.len() == after.len(),
        forall|j: int|
            0 <= j < before.len() ==> #[trigger] after[j] == (
                before[j].0,
                without_fact(before[j].1, target),
            ),
    ensures
        map_of(after) == map_of(before).map_values(
            |facts: Map<u64, bool>| without_fact(facts, target),
        ),
    decreases before.len(),
{
    let f = |facts: Map<u64, bool>| without_fact(facts, target);
    if before.len() > 0 {
        lemma_mapped_pairs(before.drop_last(), after.drop_last(), target);
        assert(after.last() == after[after.len() - 1]);
        assert(map_of(after) =~= map_of(before).map_values(f));
    } else {
        assert(map_of(after) =~= map_of(before).map_values(f));
    }
}

/// A correction is a new event: once it is applied its target is no valid fact, and
/// every other fact is as valid as before.
pub proof fn law_correction_voids_its_target(state: FactsModel, event: EventModel, seq: u64)
    requires
        event.kind is MemoryInvalidate,
    ensures
        is_valid_fact(CurrentFacts::step(state, event), seq) <==> is_valid_fact(state, seq) && seq
            != event.kind->target_seq,
{
    let target = event.kind->target_seq;
    let after = CurrentFacts::step(state, event);
    if is_valid_fact(after, seq) {
        let key = choose|key: (Seq<char>, Seq<char>)|
            after.contains_key(key) && (#[trigger] after[key]).contains_key(seq) && after[key][seq];
        assert(after[key] == without_fact(state[key], target));
        assert(state[key].contains_key(seq));
    }
    if is_valid_fact(state, seq) && seq != target {
        let key = choose|key: (Seq<char>, Seq<char>)|
            state.contains_key(key) && (#[trigger] state[key]).contains_key(seq) && state[key][seq];
        assert(after.contains_key(key));
        assert(after[key] == without_fact(state[key], target));
        assert(after[key].contains_key(seq));
    }
}

/// A new fact is valid.
pub proof fn law_new_facts_are_valid(state: FactsModel, event: EventModel)
    requires
        event.kind is Fact,
    ensures
        is_valid_fact(CurrentFacts::step(state, event), event.seq),
{
    let key = (event.agent_id, event.stream_id);
    let after = CurrentFacts::step(state, event);
    assert(after[key].contains_key(event.seq));
}

/// The `i`-th event states a fact of the stream, and no later event invalidates it.
pub open spec fn states_fact(
    events: Seq<EventModel>,
    i: int,
    agent: Seq<char>,
    stream: Seq<char>,
    seq: u64,
) -> bool {
    &&& 0 <= i < events.len()
    &&& events[i].kind is Fact
    &&& events[i].agent_id == agent
    &&& events[i].stream_id == stream
    &&& events[i].seq == seq
    &&& forall|j: int|
        i < j < events.len() ==> (#[trigger] events[j]).kind != (KindModel::MemoryInvalidate {
            target_seq: seq,
        })
}

/// A fact is valid for an agent's stream exactly if an event of that agent in that stream
/// stated it and no later event, of whichever agent, invalidated it.
pub proof fn law_facts_hold_until_invalidated(
    events: Seq<EventModel>,
    agent: Seq<char>,
    stream: Seq<char>,
    seq: u64,
)
    ensures
        holds(facts_of(fold::<CurrentFacts>(events), (agent, stream)), seq) <==> exists|i: int|
            #[trigger] states_fact(events, i, agent, stream, seq),
    decreases events.len(),
{
    let key = (agent, stream);
    let after = fold::<CurrentFacts>(events);
    if events.len() > 0 {
        let rest = events.drop_last();
        let last = events.last();
        let n = events.len() - 1;
        let before = fold::<CurrentFacts>(rest);
        law_facts_hold_until_invalidated(rest, agent, stream, seq);
        assert(after == CurrentFacts::step(before, last));
        assert(events[n] == last);
        if exists|i: int| #[trigger] states_fact(events, i, agent, stream, seq) {
            let i = choose|i: int| #[trigger] states_fact(events, i, agent, stream, seq);
            if i < n {
                assert(rest[i] == events[i]);
                assert forall|j: int| i < j < rest.len() implies (#[trigger] rest[j]).kind != (
                KindModel::MemoryInvalidate { target_seq: seq }) by {
                    assert(rest[j] == events[j]);
                }
                assert(states_fact(rest, i, agent, stream, seq));
                assert(last.kind != (KindModel::MemoryInvalidate { target_seq: seq }));
            }
        }
        if holds(facts_of(after, key), seq) {
            if last.kind is Fact && last.agent_id == agent && last.stream_id == stream && last.seq
                == seq {
                assert(states_fact(events, n, agent, stream, seq));
            } else {
                assert(holds(facts_of(before, key), seq));
                let i = choose|i: int| #[trigger] states_fact(rest, i, agent, stream, seq);
                assert(rest[i] == events[i]);
                assert forall|j: int| i < j < events.len() implies (#[trigger] events[j]).kind != (
                KindModel::MemoryInvalidate { target_seq: seq }) by {
                    if j < n {
                        assert(rest[j] == events[j]);
                    }
                }
                assert(states_fact(events, i, agent, stream, seq));
            }
        }
    }
}

/// Facts of several shards combined: a fact that one of them knows is valid as that shard
/// says, the later one where both know it.
pub proof fn law_combined_facts_hold_all(
    whole: FactsModel,
    part: FactsModel,
    key: (Seq<char>, Seq<char>),
    seq: u64,
)
    ensures
        holds(facts_of(CurrentFacts::combined(whole, part), key), seq) <==> holds(
            facts_of(part, key),
            seq,
        ) || (holds(facts_of(whole, key), seq) && !facts_of(part, key).contains_key(seq)),
{
}

} // verus!
