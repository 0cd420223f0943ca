//! Subscriptions to patterns of events.
//!
//! The engine keeps the patterns and tells, for an event, which subscriptions it
//! goes to. The caller delivers.

use crate::event::{AgentId, Event, EventKindTag, EventModel, StreamId};
use crate::json::{json_text, same_json, Json, JsonModel};
use crate::sorted::Replica;
use crate::text::{join2, text_contains, text_has, text_same, text_starts_with};
use dashmap::DashMap;
use vstd::prelude::*;

verus! {

/// A predicate over the payload of an event.
#[derive(Debug, PartialEq)]
pub enum Predicate {
    /// Always matches.
    Always,
    /// Equality of the value at a JSON pointer path.
    Eq { path: String, value: Json },
    /// Membership/containment: array contains value, or string contains substring.
    Contains { path: String, value: Json },
}

#[verifier::ext_equal]
pub enum PredicateModel {
    Always,
    Eq { path: Seq<char>, value: JsonModel },
    Contains { path: Seq<char>, value: JsonModel },
}

impl DeepView for Predicate {
    type V = PredicateModel;

    open spec fn deep_view(&self) -> PredicateModel {
        match self {
            Predicate::Always => PredicateModel::Always,
            Predicate::Eq { path, value } => PredicateModel::Eq {
                path: path@,
                value: value.deep_view(),
            },
            Predicate::Contains { path, value } => PredicateModel::Contains {
                path: path@,
                value: value.deep_view(),
            },
        }
    }
}

impl Replica for Predicate {
    fn replica(&self) -> (r: Self) {
        match self {
            Predicate::Always => Predicate::Always,
            Predicate::Eq { path, value } => Predicate::Eq {
                path: path.clone(),
                value: value.replica(),
            },
            Predicate::Contains { path, value } => Predicate::Contains {
                path: path.clone(),
                value: value.replica(),
            },
        }
    }
}

impl Clone for Predicate {
    fn clone(&self) -> (r: Self)
        ensures
            r.deep_view() == self.deep_view(),
    {
        self.replica()
    }
}

/// A path as a JSON pointer: a leading slash is added where it is missing.
pub open spec fn pointer_of(path: Seq<char>) -> Seq<char> {
    if path.len() > 0 && path[0] == '/' {
        path
    } else {
        "/"@ + path
    }
}

/// The array holds the value.
pub open spec fn array_has(items: Seq<JsonModel>, value: JsonModel) -> bool {
    exists|i: int| 0 <= i < items.len() && same_json(#[trigger] items[i], value)
}

impl PredicateModel {
    /// The predicate holds of a payload.
    pub open spec fn holds(self, payload: JsonModel) -> bool {
        match self {
            PredicateModel::Always => true,
            PredicateModel::Eq { path, value } => match payload.at_pointer(pointer_of(path)) {
                Some(found) => same_json(found, value),
                None => false,
            },
            PredicateModel::Contains { path, value } => match payload.at_pointer(
                pointer_of(path),
            ) {
                Some(JsonModel::Array(items)) => array_has(items, value),
                Some(JsonModel::String(text)) => match value {
                    JsonModel::String(part) => text_has(text, part),
                    other => text_has(text, json_text(other)),
                },
                Some(other) => same_json(other, value),
                None => false,
            },
        }
    }
}

fn normalize_pointer(path: &str) -> (r: String)
    ensures
        r@ == pointer_of(path@),
{
    proof {
        reveal_strlit("/");
    }
    if text_starts_with(path, "/") {
        proof {
            assert(path@.take(1)[0] == "/"@[0]);
        }
        path.to_owned()
    } else {
        proof {
            if path@.len() > 0 && path@[0] == '/' {
                assert(path@.take(1) =~= "/"@);
            }
        }
        join2("/", path)
    }
}

fn holds_value(items: &Vec<Json>, value: &Json) -> (r: bool)
    ensures
        r == array_has(items.deep_view(), value.deep_view()),
{
    let mut i: usize = 0;
    while i < items.len()
        invariant
            i <= items.len(),
            forall|j: int|
                0 <= j < i ==> !same_json(
                    #[trigger] items.deep_view()[j],
                    value.deep_view(),
                ),
        decreases items.len() - i,
    {
        assert(items.deep_view()[i as int] == items@[i as int].deep_view());
        if items[i].same(value) {
            return true;
        }
        i += 1;
    }
    false
}

impl Predicate {
    /// Evaluate the predicate against an event payload.
    ///
    /// `path` is interpreted as a JSON pointer (`/field/nested`). If it does not
    /// start with `/`, a leading slash is inserted automatically.
    pub fn matches(&self, payload: &Json) -> (r: bool)
        ensures
            r == self.deep_view().holds(payload.deep_view()),
    {
        match self {
            Predicate::Always => true,
            Predicate::Eq { path, value } => {
                let pointer = normalize_pointer(path.as_str());
                match payload.pointer(pointer.as_str()) {
                    Some(found) => found.same(value),
                    None => false,
                }
            },
            Predicate::Contains { path, value } => {
                let pointer = normalize_pointer(path.as_str());
                match payload.pointer(pointer.as_str()) {
                    Some(Json::Array(items)) => {
                        proof {
                            let found = payload.deep_view().at_pointer(pointer@)->0;
                            assert(found->Array_0 =~= items.deep_view());
                        }
                        holds_value(items, value)
                    },
                    Some(Json::String(text)) => match value {
                        Json::String(part) => text_contains(text.as_str(), part.as_str()),
                        other => text_contains(text.as_str(), other.to_text().as_str()),
                    },
                    Some(other) => other.same(value),
                    None => false,
                }
            },
        }
    }
}

/// Pattern used to filter events delivered to a subscription.
#[derive(Debug, PartialEq)]
pub struct EventPattern {
    pub agent_id: Option<AgentId>,
    pub kind: Option<EventKindTag>,
    pub stream_id: Option<StreamId>,
    pub predicate: Option<Predicate>,
}

#[verifier::ext_equal]
pub struct PatternModel {
    pub agent_id: Option<Seq<char>>,
    pub kind: Option<EventKindTag>,
    pub stream_id: Option<Seq<char>>,
    pub predicate: Option<PredicateModel>,
}

impl DeepView for EventPattern {
    type V = PatternModel;

    open spec fn deep_view(&self) -> PatternModel {
        PatternModel {
            agent_id: self.agent_id.deep_view(),
            kind: self.kind,
            stream_id: self.stream_id.deep_view(),
            predicate: self.predicate.deep_view(),
        }
    }
}

impl Replica for EventPattern {
    fn replica(&self) -> (r: Self) {
        EventPattern {
            agent_id: match &self.agent_id {
                Some(agent) => Some(agent.replica()),
                None => None,
            },
            kind: self.kind,
            stream_id: match &self.stream_id {
                Some(stream) => Some(stream.replica()),
                None => None,
            },
            predicate: match &self.predicate {
                Some(predicate) => Some(predicate.replica()),
                None => None,
            },
        }
    }
}

impl Clone for EventPattern {
    fn clone(&self) -> (r: Self)
        ensures
            r.deep_view() == self.deep_view(),
    {
        self.replica()
    }
}

impl PatternModel {
    /// The pattern that every event fits.
    pub open spec fn any() -> PatternModel {
        PatternModel { agent_id: None, kind: None, stream_id: None, predicate: None }
    }

    /// The event fits: it has what the pattern asks for.
    pub open spec fn fits(self, event: EventModel) -> bool {
        &&& self.agent_id is None || self.agent_id->0 == event.agent_id
        &&& self.kind is None || self.kind->0 == event.kind.tag()
        &&& self.stream_id is None || self.stream_id->0 == event.stream_id
        &&& self.predicate is None || self.predicate->0.holds(event.payload)
    }
}

impl Default for EventPattern {
    fn default() -> (r: Self)
        ensures
            r.deep_view() == PatternModel::any(),
    {
        EventPattern { agent_id: None, kind: None, stream_id: None, predicate: None }
    }
}

impl EventPattern {
    /// Matches any event.
    pub fn all() -> (r: Self)
        ensures
            r.deep_view() == PatternModel::any(),
            forall|event: EventModel| #[trigger] r.deep_view().fits(event),
    {
        Self::default()
    }
}

/// Whether an event fits a pattern.
pub fn matches(pattern: &EventPattern, event: &Event) -> (r: bool)
    ensures
        r == pattern.deep_view().fits(event.deep_view()),
{
    if let Some(agent_id) = &pattern.agent_id {
        if !text_same(agent_id.0.as_str(), event.agent_id.0.as_str()) {
            return false;
        }
    }
    if let Some(kind) = pattern.kind {
        if kind != EventKindTag::from(&event.kind) {
            return false;
        }
    }
    if let Some(stream_id) = &pattern.stream_id {
        if !text_same(stream_id.0.as_str(), event.stream_id.0.as_str()) {
            return false;
        }
    }
    if let Some(predicate) = &pattern.predicate {
        if !predicate.matches(&event.payload) {
            return false;
        }
    }
    true
}

/// Patterns by subscription.
pub type PatternsModel = Map<u64, PatternModel>;

/// What the map holds: the pattern of every subscription.
pub uninterp spec fn subscriber_patterns(map: DashMap<u64, EventPattern>) -> PatternsModel;

/// `DashMap::new`: an empty map.
#[verifier::external_body]
fn patterns_new() -> (r: DashMap<u64, EventPattern>)
    ensures
        subscriber_patterns(r) == PatternsModel::empty(),
{
    DashMap::new()
}

/// `DashMap::insert`: the key has the value afterwards, other keys are as before.
#[verifier::external_body]
fn patterns_insert(map: &mut DashMap<u64, EventPattern>, id: u64, pattern: EventPattern)
    ensures
        subscriber_patterns(*final(map)) == subscriber_patterns(*old(map)).insert(
            id,
            pattern.deep_view(),
        ),
{
    map.insert(id, pattern);
}

/// `DashMap::remove`: the key is missing afterwards, other keys are as before.
#[verifier::external_body]
fn patterns_remove(map: &mut DashMap<u64, EventPattern>, id: u64)
    ensures
        subscriber_patterns(*final(map)) == subscriber_patterns(*old(map)).remove(id),
{
    map.remove(&id);
}

/// Every subscription is listed once, with its pattern.
pub open spec fn lists_patterns(
    listed: Seq<(u64, PatternModel)>,
    model: PatternsModel,
) -> bool {
    &&& forall|i: int|
        0 <= i < listed.len() ==> model.contains_key((#[trigger] listed[i]).0)
            && model[listed[i].0] == listed[i].1
    &&& forall|i: int, j: int|
        0 <= i < j < listed.len() ==> (#[trigger] listed[i]).0 != (#[trigger] listed[j]).0
    &&& forall|id: u64| #[trigger] model.contains_key(id) ==> has_id(listed, id)
}

/// The subscription is listed.
pub open spec fn has_id(listed: Seq<(u64, PatternModel)>, id: u64) -> bool {
    exists|i: int| 0 <= i < listed.len() && (#[trigger] listed[i]).0 == id
}

/// `DashMap::iter`: every entry once, in no particular order, copied out.
#[verifier::external_body]
fn patterns_listed(map: &DashMap<u64, EventPattern>) -> (r: Vec<(u64, EventPattern)>)
    ensures
        lists_patterns(r.deep_view(), subscriber_patterns(*map)),
{
    map.iter().map(|e| (*e.key(), e.value().replica())).collect()
}

/// Engine that decides which subscriptions an event goes to.
pub struct ReactiveEngine {
    subscribers: DashMap<u64, EventPattern>,
    next_id: u64,
}

#[verifier::ext_equal]
pub struct EngineModel {
    /// The pattern of every subscription.
    pub subscribers: PatternsModel,
    /// The identifier of the next subscription.
    pub next_id: u64,
}

impl DeepView for ReactiveEngine {
    type V = EngineModel;

    closed spec fn deep_view(&self) -> EngineModel {
        EngineModel {
            subscribers: subscriber_patterns(self.subscribers),
            next_id: self.next_id,
        }
    }
}

impl EngineModel {
    /// Identifiers start at one, and those in use are smaller than the next one.
    pub open spec fn is_valid(self) -> bool {
        &&& self.next_id >= 1
        &&& forall|id: u64| #[trigger]
            self.subscribers.contains_key(id) ==> 1 <= id < self.next_id
    }

    /// The subscription gets the event.
    pub open spec fn delivers(self, id: u64, event: EventModel) -> bool {
        self.subscribers.contains_key(id) && self.subscribers[id].fits(event)
    }
}

impl ReactiveEngine {
    pub fn new() -> (r: Self)
        ensures
            r.deep_view() == (EngineModel { subscribers: Map::empty(), next_id: 1 }),
            r.deep_view().is_valid(),
    {
        ReactiveEngine { subscribers: patterns_new(), next_id: 1 }
    }

    /// Starts a subscription and gives its identifier.
    pub fn subscribe(&mut self, pattern: EventPattern) -> (r: u64)
        requires
            old(self).deep_view().is_valid(),
            old(self).deep_view().next_id < u64::MAX,
        ensures
            final(self).deep_view().is_valid(),
            r == old(self).deep_view().next_id,
            !old(self).deep_view().subscribers.contains_key(r),
            final(self).deep_view() == (EngineModel {
                subscribers: old(self).deep_view().subscribers.insert(r, pattern.deep_view()),
                next_id: (r + 1) as u64,
            }),
    {
        let id: u64 = self.next_id;
        self.next_id = id + 1;
        patterns_insert(&mut self.subscribers, id, pattern);
        id
    }

    /// Ends a subscription.
    pub fn cancel(&mut self, id: u64)
        requires
            old(self).deep_view().is_valid(),
        ensures
            final(self).deep_view().is_valid(),
            final(self).deep_view() == (EngineModel {
                subscribers: old(self).deep_view().subscribers.remove(id),
                ..old(self).deep_view()
            }),
    {
        patterns_remove(&mut self.subscribers, id);
    }

    /// The subscriptions that an event goes to, each once.
    pub fn dispatch(&self, event: &Event) -> (r: Vec<u64>)
        ensures
            r@.no_duplicates(),
            forall|id: u64| #[trigger]
                r@.contains(id) <==> self.deep_view().delivers(id, event.deep_view()),
    {
        let ghost model = self.deep_view();
        let ghost what = event.deep_view();
        let listed = patterns_listed(&self.subscribers);
        let ghost all = listed.deep_view();
        let mut out: Vec<u64> = Vec::new();
        let mut i: usize = 0;
        while i < listed.len()
            invariant
                i <= listed.len(),
                all == listed.deep_view(),
                what == event.deep_view(),
                lists_patterns(all, model.subscribers),
                out@.no_duplicates(),
                forall|id: u64| #[trigger]
                    out@.contains(id) <==> has_id(all.take(i as int), id) && model.delivers(
                        id,
                        what,
                    ),
            decreases listed.len() - i,
        {
            let ghost was = out@;
            let entry = &listed[i];
            let ghost here = all[i as int];
            assert(here == entry.deep_view());
            if matches(&entry.1, event) {
                out.push(entry.0);
            }
            proof {
                assert forall|id: u64| #[trigger] out@.contains(id) <==> has_id(all.take(i + 1), id)
                    && model.delivers(id, what) by {
                    lemma_next_id(all, i as int, id);
                    if was.contains(id) {
                        let k = choose|k: int| 0 <= k < was.len() && was[k] == id;
                        assert(out@[k] == id);
                    }
                    if out@.contains(id) && !was.contains(id) {
                        let k = choose|k: int| 0 <= k < out@.len() && out@[k] == id;
                        assert(k == was.len());
                    }
                    if model.delivers(id, what) && id == here.0 {
                        assert(out@[was.len() as int] == id);
                    }
                }
                if was.contains(here.0) {
                    assert(has_id(all.take(i as int), here.0));
                    let k = choose|k: int|
                        0 <= k < i && (#[trigger] all.take(i as int)[k]).0 == here.0;
                    assert(all[k].0 != all[i as int].0);
                }
            }
            i += 1;
        }
        proof {
            assert(all.take(i as int) =~= all);
            assert forall|id: u64| #[trigger] out@.contains(id) <==> model.delivers(id, what) by {
                if model.delivers(id, what) {
                    assert(model.subscribers.contains_key(id));
                    assert(has_id(all, id));
                }
            }
        }
        out
    }
}

proof fn lemma_next_id(listed: Seq<(u64, PatternModel)>, i: int, id: u64)
    requires
        0 <= i < listed.len(),
    ensures
        has_id(listed.take(i + 1), id) <==> has_id(listed.take(i), id) || listed[i].0 == id,
{
    let now = listed.take(i + 1);
    let before = listed.take(i);
    if has_id(now, id) {
        let k = choose|k: int| 0 <= k < now.len() && (#[trigger] now[k]).0 == id;
        if k < i {
            assert(before[k] == now[k]);
        }
    }
    if has_id(before, id) {
        let k = choose|k: int| 0 <= k < before.len() && (#[trigger] before[k]).0 == id;
        assert(now[k] == before[k]);
    }
    assert(now[i] == listed[i]);
}

/// A subscription to everything gets every event, from its start until it is
/// cancelled.
pub proof fn law_all_get_everything(engine: EngineModel, event: EventModel, id: u64)
    ensures
        (EngineModel {
            subscribers: engine.subscribers.insert(id, PatternModel::any()),
            ..engine
        }).delivers(id, event),
        !(EngineModel { subscribers: engine.subscribers.remove(id), ..engine }).delivers(id, event),
{
}

/// An event fits a pattern exactly if it has the agent, the kind and the stream that the
/// pattern names, and its payload satisfies the predicate; what a pattern does not name
/// does not matter.
pub proof fn law_patterns_ask_for_what_they_name(pattern: PatternModel, event: EventModel)
    ensures
        pattern.fits(event) <==> {
            &&& pattern.agent_id matches Some(agent) ==> event.agent_id == agent
            &&& pattern.stream_id matches Some(stream) ==> event.stream_id == stream
            &&& pattern.kind matches Some(tag) ==> match tag {
                EventKindTag::Fact => event.kind is Fact,
                EventKindTag::StateTransition => event.kind is StateTransition,
                EventKindTag::MemoryInvalidate => event.kind is MemoryInvalidate,
                EventKindTag::ToolCall => event.kind is ToolCall,
                EventKindTag::ConsentGranted => event.kind is ConsentGranted,
                EventKindTag::ConsentRevoked => event.kind is ConsentRevoked,
                EventKindTag::IntentLogged => event.kind is IntentLogged,
                EventKindTag::LearningProposal => event.kind is LearningProposal,
            }
            &&& pattern.predicate matches Some(predicate) ==> predicate.holds(event.payload)
        },
{
}

/// A subscription gets exactly the events that fit its own pattern: other subscriptions,
/// new or cancelled, make no difference to it.
pub proof fn law_subscriptions_are_independent(
    engine: EngineModel,
    id: u64,
    pattern: PatternModel,
    other: u64,
    event: EventModel,
)
    requires
        other != id,
    ensures
        (EngineModel {
            subscribers: engine.subscribers.insert(id, pattern),
            ..engine
        }).delivers(id, event) <==> pattern.fits(event),
        (EngineModel {
            subscribers: engine.subscribers.insert(id, pattern),
            ..engine
        }).delivers(other, event) == engine.delivers(other, event),
        (EngineModel { subscribers: engine.subscribers.remove(id), ..engine }).delivers(
            other,
            event,
        ) == engine.delivers(other, event),
{
}

/// A predicate asks for a value in the payload: that it equals the given one, or that it
/// holds it, as an element of an array, as a part of a text, or by being equal to it. A
/// path without its leading slash means the same.
pub proof fn law_predicates_ask_for_a_value(
    path: Seq<char>,
    value: JsonModel,
    payload: JsonModel,
)
    ensures
        PredicateModel::Always.holds(payload),
        path.len() > 0 && path[0] == '/' ==> {
            let equal = PredicateModel::Eq { path, value };
            let holding = PredicateModel::Contains { path, value };
            match payload.at_pointer(path) {
                None => !equal.holds(payload) && !holding.holds(payload),
                Some(found) => {
                    &&& equal.holds(payload) <==> same_json(found, value)
                    &&& found matches JsonModel::Array(items) ==> (holding.holds(payload)
                        <==> exists|i: int|
                        0 <= i < items.len() && same_json(#[trigger] items[i], value))
                    &&& found matches JsonModel::String(text) ==> (holding.holds(payload)
                        <==> text_has(
                        text,
                        match value {
                            JsonModel::String(part) => part,
                            other => json_text(other),
                        },
                    ))
                    &&& !(found is Array) && !(found is String) ==> (holding.holds(payload)
                        <==> same_json(found, value))
                },
            }
        },
        path.len() == 0 || path[0] != '/' ==> {
            let rooted = seq!['/'] + path;
            &&& PredicateModel::Eq { path, value }.holds(payload) == (PredicateModel::Eq {
                path: rooted,
                value,
            }).holds(payload)
            &&& PredicateModel::Contains { path, value }.holds(payload) == (
            PredicateModel::Contains { path: rooted, value }).holds(payload)
        },
{
    reveal_strlit("/");
    assert("/"@ =~= seq!['/']);
}

} // verus!
