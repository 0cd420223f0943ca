//! In-memory key/value blackboard with a lifetime per entry.
//!
//! Working memory is not persisted to the event log; it is ephemeral by design.
//! Expiration is lazy: entries are pruned on read or enumeration. Times are milliseconds of a
//! clock that the caller reads.

use crate::event::AgentId;
use crate::json::{Json, JsonModel};
use crate::sorted::Replica;
use crate::text::text_same;
use dashmap::DashMap;
use vstd::prelude::*;

verus! {

/// An entry in working memory with an optional expiration time.
#[derive(Debug)]
pub struct WorkingEntry {
    pub value: Json,
    pub expires_at: Option<u64>,
}

#[verifier::ext_equal]
pub struct EntryModel {
    pub value: JsonModel,
    pub expires_at: Option<u64>,
}

impl DeepView for WorkingEntry {
    type V = EntryModel;

    open spec fn deep_view(&self) -> EntryModel {
        EntryModel { value: self.value.deep_view(), expires_at: self.expires_at }
    }
}

impl Replica for WorkingEntry {
    fn replica(&self) -> (r: Self) {
        WorkingEntry { value: self.value.replica(), expires_at: self.expires_at }
    }
}

impl Clone for WorkingEntry {
    fn clone(&self) -> (r: Self)
        ensures
            r.deep_view() == self.deep_view(),
    {
        self.replica()
    }
}

impl EntryModel {
    /// The entry's time is over.
    pub open spec fn is_expired(self, now: u64) -> bool {
        match self.expires_at {
            Some(expires_at) => now > expires_at,
            None => false,
        }
    }
}

/// Entries by agent and key.
pub type WorkingModel = Map<(Seq<char>, Seq<char>), EntryModel>;

/// What the map holds.
pub uninterp spec fn working_entries(map: DashMap<(String, String), WorkingEntry>) -> WorkingModel;

/// `DashMap::new`: an empty map.
#[verifier::external_body]
fn entries_new() -> (r: DashMap<(String, String), WorkingEntry>)
    ensures
        working_entries(r) == WorkingModel::empty(),
{
    DashMap::new()
}

/// `DashMap::insert`: the key has the value afterwards, other keys are as before.
#[verifier::external_body]
fn entries_insert(
    map: &mut DashMap<(String, String), WorkingEntry>,
    agent: String,
    key: String,
    entry: WorkingEntry,
)
    ensures
        working_entries(*final(map)) == working_entries(*old(map)).insert(
            (agent@, key@),
            entry.deep_view(),
        ),
{
    map.insert((agent, key), entry);
}

/// `DashMap::get`: the value of the key, copied out, or nothing where the key is
/// missing.
#[verifier::external_body]
fn entries_get(
    map: &DashMap<(String, String), WorkingEntry>,
    agent: &str,
    key: &str,
) -> (r: Option<WorkingEntry>)
    ensures
        match r {
            Some(entry) => working_entries(*map).contains_key((agent@, key@)) && working_entries(
                *map,
            )[(agent@, key@)] == entry.deep_view(),
            None => !working_entries(*map).contains_key((agent@, key@)),
        },
{
    match map.get(&(agent.to_string(), key.to_string())) {
        Some(entry) => Some(entry.value().replica()),
        None => None,
    }
}

/// `DashMap::remove`: the key is missing afterwards, other keys are as before.
#[verifier::external_body]
fn entries_remove(map: &mut DashMap<(String, String), WorkingEntry>, agent: &str, key: &str)
    ensures
        working_entries(*final(map)) == working_entries(*old(map)).remove((agent@, key@)),
{
    map.remove(&(agent.to_string(), key.to_string()));
}

/// The agent, the key and the expiration time of every entry that is listed, each
/// entry once.
pub open spec fn lists_entries(
    listed: Seq<(Seq<char>, Seq<char>, Option<u64>)>,
    model: WorkingModel,
) -> bool {
    &&& forall|i: int|
        0 <= i < listed.len() ==> model.contains_key(
            ((#[trigger] listed[i]).0, listed[i].1),
        ) && model[(listed[i].0, listed[i].1)].expires_at == listed[i].2
    &&& forall|i: int, j: int|
        0 <= i < j < listed.len() ==> ((#[trigger] listed[i]).0, listed[i].1) != (
            (#[trigger] listed[j]).0,
            listed[j].1,
        )
    &&& forall|agent: Seq<char>, key: Seq<char>| #[trigger]
        model.contains_key((agent, key)) ==> has_entry(listed, agent, key)
}

/// The entry is listed.
pub open spec fn has_entry(
    listed: Seq<(Seq<char>, Seq<char>, Option<u64>)>,
    agent: Seq<char>,
    key: Seq<char>,
) -> bool {
    exists|i: int|
        0 <= i < listed.len() && (#[trigger] listed[i]).0 == agent && listed[i].1 == key
}

/// `DashMap::iter`: every entry once, in no particular order, by its agent, its key
/// and its expiration time.
#[verifier::external_body]
fn entries_listed(map: &DashMap<(String, String), WorkingEntry>) -> (r: Vec<
    (String, String, Option<u64>),
>)
    ensures
        lists_entries(r.deep_view(), working_entries(*map)),
{
    map.iter().map(|e| (e.key().0.clone(), e.key().1.clone(), e.value().expires_at)).collect()
}

/// In-memory key/value blackboard with a lifetime per entry.
pub struct WorkingMemory {
    store: DashMap<(String, String), WorkingEntry>,
}

impl DeepView for WorkingMemory {
    type V = WorkingModel;

    closed spec fn deep_view(&self) -> WorkingModel {
        working_entries(self.store)
    }
}

/// The key has a value for the agent whose time is not over.
pub open spec fn is_live(
    model: WorkingModel,
    agent: Seq<char>,
    key: Seq<char>,
    now: u64,
) -> bool {
    model.contains_key((agent, key)) && !model[(agent, key)].is_expired(now)
}

/// What is left once the expired entries of an agent are gone.
pub open spec fn pruned(model: WorkingModel, agent: Seq<char>, now: u64) -> WorkingModel {
    model.restrict(
        Set::new(
            |place: (Seq<char>, Seq<char>)| !(place.0 == agent && model[place].is_expired(now)),
        ),
    )
}

impl WorkingMemory {
    pub fn new() -> (r: Self)
        ensures
            r.deep_view() == WorkingModel::empty(),
    {
        WorkingMemory { store: entries_new() }
    }

    /// Store a value with an optional lifetime.
    pub fn set(&mut self, agent_id: AgentId, key: String, value: Json, ttl: Option<u64>, now: u64)
        requires
            ttl is Some ==> now + ttl->0 <= u64::MAX,
        ensures
            final(self).deep_view() == old(self).deep_view().insert(
                (agent_id.deep_view(), key@),
                EntryModel {
                    value: value.deep_view(),
                    expires_at: match ttl {
                        Some(span) => Some((now + span) as u64),
                        None => None,
                    },
                },
            ),
            forall|then: u64| #[trigger]
                is_live(final(self).deep_view(), agent_id.deep_view(), key@, then) <==> (ttl is None
                    || then <= now + ttl->0),
    {
        let expires_at = match ttl {
            Some(span) => Some(now + span),
            None => None,
        };
        entries_insert(&mut self.store, agent_id.0, key, WorkingEntry { value, expires_at });
    }

    /// Retrieve a value, removing it first if it has expired.
    pub fn get(&mut self, agent_id: &AgentId, key: &str, now: u64) -> (r: Option<Json>)
        ensures
            match r {
                Some(value) => is_live(old(self).deep_view(), agent_id.deep_view(), key@, now)
                    && value.deep_view() == old(self).deep_view()[(
                    agent_id.deep_view(),
                    key@,
                )].value,
                None => !is_live(old(self).deep_view(), agent_id.deep_view(), key@, now),
            },
            final(self).deep_view() == (if is_live(
                old(self).deep_view(),
                agent_id.deep_view(),
                key@,
                now,
            ) {
                old(self).deep_view()
            } else {
                old(self).deep_view().remove((agent_id.deep_view(), key@))
            }),
    {
        match entries_get(&self.store, agent_id.0.as_str(), key) {
            Some(entry) => {
                if is_expired(&entry, now) {
                    entries_remove(&mut self.store, agent_id.0.as_str(), key);
                    None
                } else {
                    Some(entry.value)
                }
            },
            None => {
                assert(self.deep_view() =~= self.deep_view().remove((agent_id.deep_view(), key@)));
                None
            },
        }
    }

    /// Return all non-expired keys for an agent, each once, in no particular order, and
    /// remove the agent's expired entries.
    pub fn keys(&mut self, agent_id: &AgentId, now: u64) -> (r: Vec<String>)
        ensures
            r.deep_view().no_duplicates(),
            forall|key: Seq<char>| #[trigger]
                r.deep_view().contains(key) <==> is_live(
                    old(self).deep_view(),
                    agent_id.deep_view(),
                    key,
                    now,
                ),
            final(self).deep_view() == pruned(old(self).deep_view(), agent_id.deep_view(), now),
    {
        let ghost model = self.deep_view();
        let ghost agent = agent_id.deep_view();
        let listed = entries_listed(&self.store);
        let ghost all = listed.deep_view();
        let mut out: Vec<String> = Vec::new();
        let mut i: usize = 0;
        while i < listed.len()
            invariant
                i <= listed.len(),
                all == listed.deep_view(),
                lists_entries(all, model),
                agent == agent_id.deep_view(),
                forall|place: (Seq<char>, Seq<char>)| #[trigger]
                    self.deep_view().contains_key(place) <==> model.contains_key(place) && !(
                    place.0 == agent && model[place].is_expired(now) && has_entry(
                        all.take(i as int),
                        place.0,
                        place.1,
                    )),
                forall|place: (Seq<char>, Seq<char>)| #[trigger]
                    self.deep_view().contains_key(place) ==> self.deep_view()[place]
                        == model[place],
                out.deep_view().no_duplicates(),
                forall|key: Seq<char>| #[trigger]
                    out.deep_view().contains(key) <==> has_entry(all.take(i as int), agent, key)
                        && is_live(model, agent, key, now),
            decreases listed.len() - i,
        {
            let ghost was = out.deep_view();
            let entry = &listed[i];
            let ghost here = all[i as int];
            assert(here == entry.deep_view());
            let over: bool = match entry.2 {
                Some(expires_at) => now > expires_at,
                None => false,
            };
            let ghost taken = here.0 == agent && !over;
            let ghost held = self.deep_view();
            if text_same(entry.0.as_str(), agent_id.0.as_str()) {
                if over {
                    entries_remove(&mut self.store, agent_id.0.as_str(), entry.1.as_str());
                } else {
                    out.push(entry.1.clone());
                    assert(out.deep_view() =~= was.push(here.1));
                }
            }
            proof {
                assert(model.contains_key((here.0, here.1)));
                assert(model[(here.0, here.1)].expires_at == here.2);
                assert forall|place: (Seq<char>, Seq<char>)| #[trigger]
                    self.deep_view().contains_key(place) <==> model.contains_key(place) && !(
                    place.0 == agent && model[place].is_expired(now) && has_entry(
                        all.take(i + 1),
                        place.0,
                        place.1,
                    )) by {
                    lemma_next_entry(all, i as int, place.0, place.1);
                    let was_held = held.contains_key(place);
                }
                assert forall|key: Seq<char>| #[trigger] out.deep_view().contains(key)
                    <==> has_entry(all.take(i + 1), agent, key) && is_live(
                    model,
                    agent,
                    key,
                    now,
                ) by {
                    lemma_next_entry(all, i as int, agent, key);
                    if was.contains(key) {
                        let k = choose|k: int| 0 <= k < was.len() && was[k] == key;
                        assert(out.deep_view()[k] == key);
                    }
                    if out.deep_view().contains(key) && !was.contains(key) {
                        let k = choose|k: int|
                            0 <= k < out.deep_view().len() && out.deep_view()[k] == key;
                        assert(k == was.len());
                    }
                    if taken && key == here.1 {
                        assert(out.deep_view()[was.len() as int] == key);
                    }
                }
                if taken && was.contains(here.1) {
                    assert(has_entry(all.take(i as int), agent, here.1));
                    let k = choose|k: int|
                        0 <= k < i && (#[trigger] all.take(i as int)[k]).0 == agent && all.take(
                            i as int,
                        )[k].1 == here.1;
                    assert((all[k].0, all[k].1) != (all[i as int].0, all[i as int].1));
                }
            }
            i += 1;
        }
        proof {
            assert(all.take(i as int) =~= all);
            assert forall|key: Seq<char>| #[trigger] out.deep_view().contains(key) <==> is_live(
                model,
                agent,
                key,
                now,
            ) by {
                if is_live(model, agent, key, now) {
                    assert(model.contains_key((agent, key)));
                    assert(has_entry(all, agent, key));
                }
            }
            assert forall|place: (Seq<char>, Seq<char>)| #[trigger]
                self.deep_view().contains_key(place) <==> pruned(model, agent, now).contains_key(
                    place,
                ) by {
                if model.contains_key((place.0, place.1)) {
                    assert(has_entry(all, place.0, place.1));
                }
            }
            assert(self.deep_view() =~= pruned(model, agent, now));
        }
        out
    }
}

proof fn lemma_next_entry(
    listed: Seq<(Seq<char>, Seq<char>, Option<u64>)>,
    i: int,
    agent: Seq<char>,
    key: Seq<char>,
)
    requires
        0 <= i < listed.len(),
    ensures
        has_entry(listed.take(i + 1), agent, key) <==> has_entry(listed.take(i), agent, key) || (
        listed[i].0 == agent && listed[i].1 == key),
{
    let now = listed.take(i + 1);
    let before = listed.take(i);
    if has_entry(now, agent, key) {
        let k = choose|k: int|
            0 <= k < now.len() && (#[trigger] now[k]).0 == agent && now[k].1 == key;
        if k < i {
            assert(before[k] == now[k]);
        }
    }
    if has_entry(before, agent, key) {
        let k = choose|k: int|
            0 <= k < before.len() && (#[trigger] before[k]).0 == agent && before[k].1 == key;
        assert(now[k] == before[k]);
    }
    assert(now[i] == listed[i]);
}

fn is_expired(entry: &WorkingEntry, now: u64) -> (r: bool)
    ensures
        r == entry.deep_view().is_expired(now),
{
    match entry.expires_at {
        Some(expires_at) => now > expires_at,
        None => false,
    }
}

/// What one agent stores is neither seen nor changed under the name of another.
pub proof fn law_agents_are_separate(
    model: WorkingModel,
    agent: Seq<char>,
    key: Seq<char>,
    entry: EntryModel,
    other: Seq<char>,
    other_key: Seq<char>,
    now: u64,
)
    requires
        agent != other,
    ensures
        is_live(model.insert((agent, key), entry), other, other_key, now) == is_live(
            model,
            other,
            other_key,
            now,
        ),
        model.contains_key((other, other_key)) ==> model.insert((agent, key), entry)[(
            other,
            other_key,
        )] == model[(other, other_key)],
{
}

/// A value that was stored is there until its time is over, and not afterwards.
pub proof fn law_values_live_their_time(
    model: WorkingModel,
    agent: Seq<char>,
    key: Seq<char>,
    value: JsonModel,
    expires_at: Option<u64>,
    now: u64,
)
    ensures
        is_live(model.insert((agent, key), EntryModel { value, expires_at }), agent, key, now) <==> (
        expires_at is None || now <= expires_at->0),
        model.insert((agent, key), EntryModel { value, expires_at })[(agent, key)].value == value,
{
}

/// What can be done to the working memory.
pub enum WorkingStep {
    /// A value is stored.
    Put { agent: Seq<char>, key: Seq<char>, entry: EntryModel },
    /// A value is asked for.
    Ask { agent: Seq<char>, key: Seq<char>, now: u64 },
    /// The keys of an agent are listed.
    List { agent: Seq<char>, now: u64 },
}

/// What the working memory holds after a step.
pub open spec fn after_step(model: WorkingModel, step: WorkingStep) -> WorkingModel {
    match step {
        WorkingStep::Put { agent, key, entry } => model.insert((agent, key), entry),
        WorkingStep::Ask { agent, key, now } => if is_live(model, agent, key, now) {
            model
        } else {
            model.remove((agent, key))
        },
        WorkingStep::List { agent, now } => pruned(model, agent, now),
    }
}

/// What the working memory holds after several steps.
pub open spec fn after_steps(model: WorkingModel, steps: Seq<WorkingStep>) -> WorkingModel
    decreases steps.len(),
{
    if steps.len() == 0 {
        model
    } else {
        after_step(after_steps(model, steps.drop_last()), steps.last())
    }
}

/// The step stores nothing under the key, and does not come after `now`.
pub open spec fn leaves_alone(
    step: WorkingStep,
    agent: Seq<char>,
    key: Seq<char>,
    now: u64,
) -> bool {
    match step {
        WorkingStep::Put { agent: other, key: other_key, .. } => (other, other_key) != (agent, key),
        WorkingStep::Ask { now: then, .. } => then <= now,
        WorkingStep::List { now: then, .. } => then <= now,
    }
}

/// A value stays until its time is over, and is gone from then on, whatever values are
/// stored in the meantime under other keys of its agent or of other agents, and
/// whatever is asked for or listed.
pub proof fn law_values_survive_other_steps(
    model: WorkingModel,
    agent: Seq<char>,
    key: Seq<char>,
    entry: EntryModel,
    steps: Seq<WorkingStep>,
    now: u64,
)
    requires
        forall|i: int| 0 <= i < steps.len() ==> leaves_alone(#[trigger] steps[i], agent, key, now),
    ensures
        ({
            let after = after_steps(model.insert((agent, key), entry), steps);
            &&& is_live(after, agent, key, now) <==> (entry.expires_at is None || now
                <= entry.expires_at->0)
            &&& is_live(after, agent, key, now) ==> after[(agent, key)].value == entry.value
        }),
{
    lemma_entry_stays(model.insert((agent, key), entry), agent, key, entry, steps, now);
}

proof fn lemma_entry_stays(
    model: WorkingModel,
    agent: Seq<char>,
    key: Seq<char>,
    entry: EntryModel,
    steps: Seq<WorkingStep>,
    now: u64,
)
    requires
        model.contains_key((agent, key)),
        model[(agent, key)] == entry,
        forall|i: int| 0 <= i < steps.len() ==> leaves_alone(#[trigger] steps[i], agent, key, now),
    ensures
        ({
            let after = after_steps(model, steps);
            if after.contains_key((agent, key)) {
                after[(agent, key)] == entry
            } else {
                entry.is_expired(now)
            }
        }),
    decreases steps.len(),
{
    if steps.len() > 0 {
        let rest = steps.drop_last();
        assert forall|i: int| 0 <= i < rest.len() implies leaves_alone(
            #[trigger] rest[i],
            agent,
            key,
            now,
        ) by {
            assert(rest[i] == steps[i]);
        }
        lemma_entry_stays(model, agent, key, entry, rest, now);
        assert(leaves_alone(steps[steps.len() - 1], agent, key, now));
    }
}

/// Pruning removes exactly the agent's entries whose time is over.
pub proof fn law_pruning_is_exact(
    model: WorkingModel,
    agent: Seq<char>,
    now: u64,
    place: (Seq<char>, Seq<char>),
)
    ensures
        pruned(model, agent, now).contains_key(place) <==> model.contains_key(place) && !(place.0
            == agent && model[place].expires_at is Some && model[place].expires_at->0 < now),
        pruned(model, agent, now).contains_key(place) ==> pruned(model, agent, now)[place]
            == model[place],
{
}

} // verus!
