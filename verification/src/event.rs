//! Events: what is appended to the log.

use crate::json::{Json, JsonModel};
use crate::sorted::Replica;
use crate::text::IntoText;
use vstd::prelude::*;

verus! {

/// Logical writer partition. Two different agents never block each other on write.
#[derive(Debug, PartialEq, Eq, PartialOrd, Ord, Hash)]
pub struct AgentId(pub String);

/// Sub-stream within an agent (e.g., a task).
#[derive(Debug, PartialEq, Eq, PartialOrd, Ord, Hash)]
pub struct StreamId(pub String);

impl DeepView for AgentId {
    type V = Seq<char>;

    open spec fn deep_view(&self) -> Seq<char> {
        self.0@
    }
}

impl DeepView for StreamId {
    type V = Seq<char>;

    open spec fn deep_view(&self) -> Seq<char> {
        self.0@
    }
}

impl Replica for AgentId {
    fn replica(&self) -> (r: Self) {
        AgentId(self.0.clone())
    }
}

impl Replica for StreamId {
    fn replica(&self) -> (r: Self) {
        StreamId(self.0.clone())
    }
}

impl Clone for AgentId {
    fn clone(&self) -> (r: Self)
        ensures
            r.deep_view() == self.deep_view(),
    {
        self.replica()
    }
}

impl Clone for StreamId {
    fn clone(&self) -> (r: Self)
        ensures
            r.deep_view() == self.deep_view(),
    {
        self.replica()
    }
}

impl From<String> for AgentId {
    fn from(value: String) -> (r: Self)
        ensures
            r == AgentId(value),
    {
        AgentId(value)
    }
}

impl vstd::std_specs::convert::FromSpecImpl<String> for AgentId {
    open spec fn obeys_from_spec() -> bool {
        true
    }

    open spec fn from_spec(value: String) -> Self {
        AgentId(value)
    }
}

impl From<&str> for AgentId {
    fn from(value: &str) -> (r: Self)
        ensures
            r.deep_view() == value@,
    {
        AgentId(value.to_owned())
    }
}

impl vstd::std_specs::convert::FromSpecImpl<&str> for AgentId {
    open spec fn obeys_from_spec() -> bool {
        false
    }

    open spec fn from_spec(value: &str) -> Self {
        arbitrary()
    }
}

impl From<String> for StreamId {
    fn from(value: String) -> (r: Self)
        ensures
            r == StreamId(value),
    {
        StreamId(value)
    }
}

impl vstd::std_specs::convert::FromSpecImpl<String> for StreamId {
    open spec fn obeys_from_spec() -> bool {
        true
    }

    open spec fn from_spec(value: String) -> Self {
        StreamId(value)
    }
}

impl From<&str> for StreamId {
    fn from(value: &str) -> (r: Self)
        ensures
            r.deep_view() == value@,
    {
        StreamId(value.to_owned())
    }
}

impl vstd::std_specs::convert::FromSpecImpl<&str> for StreamId {
    open spec fn obeys_from_spec() -> bool {
        false
    }

    open spec fn from_spec(value: &str) -> Self {
        arbitrary()
    }
}

/// Scope of a consent grant.
#[derive(Debug, PartialEq, Eq, Hash)]
pub struct Scope {
    pub action: String,
    pub resource: String,
}

#[verifier::ext_equal]
pub struct ScopeModel {
    pub action: Seq<char>,
    pub resource: Seq<char>,
}

impl DeepView for Scope {
    type V = ScopeModel;

    open spec fn deep_view(&self) -> ScopeModel {
        ScopeModel { action: self.action@, resource: self.resource@ }
    }
}

impl Replica for Scope {
    fn replica(&self) -> (r: Self) {
        Scope { action: self.action.clone(), resource: self.resource.clone() }
    }
}

impl Clone for Scope {
    fn clone(&self) -> (r: Self)
        ensures
            r.deep_view() == self.deep_view(),
    {
        self.replica()
    }
}

impl Scope {
    pub fn new(action: impl IntoText, resource: impl IntoText) -> (r: Self)
        ensures
            r.deep_view() == (ScopeModel { action: action.text(), resource: resource.text() }),
    {
        Scope { action: action.into_text(), resource: resource.into_text() }
    }
}

impl IntoText for AgentId {
    open spec fn text(&self) -> Seq<char> {
        self.0@
    }

    fn into_text(self) -> (r: String) {
        self.0
    }
}

impl IntoText for StreamId {
    open spec fn text(&self) -> Seq<char> {
        self.0@
    }

    fn into_text(self) -> (r: String) {
        self.0
    }
}

/// Discriminated event kind.
#[derive(Debug, PartialEq)]
pub enum EventKind {
    /// A generic fact known by the agent.
    Fact,
    /// A state transition for a task/agent.
    StateTransition,
    /// Invalidates a previous fact without mutating the log.
    MemoryInvalidate { target_seq: u64 },
    /// A tool invocation.
    ToolCall { tool: String },
    /// Grants consent from one agent to another for a specific scope.
    ConsentGranted { from: AgentId, to: AgentId, scope: Scope, expires: Option<u64> },
    /// Revokes a previously granted consent by its sequence number.
    ConsentRevoked { grant_seq: u64 },
    /// Audits an authorization decision.
    IntentLogged { actor: AgentId, intent: String, authorized_by: Option<u64> },
    /// Records a learning proposal of the harness.
    LearningProposal,
}

#[verifier::ext_equal]
pub enum KindModel {
    Fact,
    StateTransition,
    MemoryInvalidate { target_seq: u64 },
    ToolCall { tool: Seq<char> },
    ConsentGranted { from: Seq<char>, to: Seq<char>, scope: ScopeModel, expires: Option<u64> },
    ConsentRevoked { grant_seq: u64 },
    IntentLogged { actor: Seq<char>, intent: Seq<char>, authorized_by: Option<u64> },
    LearningProposal,
}

impl DeepView for EventKind {
    type V = KindModel;

    open spec fn deep_view(&self) -> KindModel {
        match self {
            EventKind::Fact => KindModel::Fact,
            EventKind::StateTransition => KindModel::StateTransition,
            EventKind::MemoryInvalidate { target_seq } => KindModel::MemoryInvalidate {
                target_seq: *target_seq,
            },
            EventKind::ToolCall { tool } => KindModel::ToolCall { tool: tool@ },
            EventKind::ConsentGranted { from, to, scope, expires } => KindModel::ConsentGranted {
                from: from.deep_view(),
                to: to.deep_view(),
                scope: scope.deep_view(),
                expires: *expires,
            },
            EventKind::ConsentRevoked { grant_seq } => KindModel::ConsentRevoked {
                grant_seq: *grant_seq,
            },
            EventKind::IntentLogged { actor, intent, authorized_by } => KindModel::IntentLogged {
                actor: actor.deep_view(),
                intent: intent@,
                authorized_by: *authorized_by,
            },
            EventKind::LearningProposal => KindModel::LearningProposal,
        }
    }
}

impl Replica for EventKind {
    fn replica(&self) -> (r: Self) {
        match self {
            EventKind::Fact => EventKind::Fact,
            EventKind::StateTransition => EventKind::StateTransition,
            EventKind::MemoryInvalidate { target_seq } => EventKind::MemoryInvalidate {
                target_seq: *target_seq,
            },
            EventKind::ToolCall { tool } => EventKind::ToolCall { tool: tool.clone() },
            EventKind::ConsentGranted { from, to, scope, expires } => EventKind::ConsentGranted {
                from: from.replica(),
                to: to.replica(),
                scope: scope.replica(),
                expires: *expires,
            },
            EventKind::ConsentRevoked { grant_seq } => EventKind::ConsentRevoked {
                grant_seq: *grant_seq,
            },
            EventKind::IntentLogged { actor, intent, authorized_by } => EventKind::IntentLogged {
                actor: actor.replica(),
                intent: intent.clone(),
                authorized_by: *authorized_by,
            },
            EventKind::LearningProposal => EventKind::LearningProposal,
        }
    }
}

impl Clone for EventKind {
    fn clone(&self) -> (r: Self)
        ensures
            r.deep_view() == self.deep_view(),
    {
        self.replica()
    }
}

impl KindModel {
    /// The kind without its details.
    pub open spec fn tag(self) -> EventKindTag {
        match self {
            KindModel::Fact => EventKindTag::Fact,
            KindModel::StateTransition => EventKindTag::StateTransition,
            KindModel::MemoryInvalidate { .. } => EventKindTag::MemoryInvalidate,
            KindModel::ToolCall { .. } => EventKindTag::ToolCall,
            KindModel::ConsentGranted { .. } => EventKindTag::ConsentGranted,
            KindModel::ConsentRevoked { .. } => EventKindTag::ConsentRevoked,
            KindModel::IntentLogged { .. } => EventKindTag::IntentLogged,
            KindModel::LearningProposal => EventKindTag::LearningProposal,
        }
    }

    /// Whether the event also belongs to the global shard.
    pub open spec fn is_global(self) -> bool {
        self is ConsentGranted || self is ConsentRevoked || self is IntentLogged
    }
}

impl EventKind {
    /// Returns a string tag used for pattern matching and tests.
    pub fn tag(&self) -> (r: &'static str)
        ensures
            r@ == self.deep_view().tag().text(),
    {
        EventKindTag::from(self).name()
    }
}

/// Lightweight tag used in reactive subscriptions.
#[derive(Clone, Copy, Debug, PartialEq, Eq, Hash, Structural)]
pub enum EventKindTag {
    Fact,
    StateTransition,
    MemoryInvalidate,
    ToolCall,
    ConsentGranted,
    ConsentRevoked,
    IntentLogged,
    LearningProposal,
}

impl EventKindTag {
    /// The name of the kind.
    pub open spec fn text(self) -> Seq<char> {
        match self {
            EventKindTag::Fact => "Fact"@,
            EventKindTag::StateTransition => "StateTransition"@,
            EventKindTag::MemoryInvalidate => "MemoryInvalidate"@,
            EventKindTag::ToolCall => "ToolCall"@,
            EventKindTag::ConsentGranted => "ConsentGranted"@,
            EventKindTag::ConsentRevoked => "ConsentRevoked"@,
            EventKindTag::IntentLogged => "IntentLogged"@,
            EventKindTag::LearningProposal => "LearningProposal"@,
        }
    }

    /// The name of the kind.
    pub fn name(&self) -> (r: &'static str)
        ensures
            r@ == self.text(),
    {
        match self {
            EventKindTag::Fact => "Fact",
            EventKindTag::StateTransition => "StateTransition",
            EventKindTag::MemoryInvalidate => "MemoryInvalidate",
            EventKindTag::ToolCall => "ToolCall",
            EventKindTag::ConsentGranted => "ConsentGranted",
            EventKindTag::ConsentRevoked => "ConsentRevoked",
            EventKindTag::IntentLogged => "IntentLogged",
            EventKindTag::LearningProposal => "LearningProposal",
        }
    }
}

impl From<&EventKind> for EventKindTag {
    fn from(kind: &EventKind) -> (r: Self) {
        match kind {
            EventKind::Fact => EventKindTag::Fact,
            EventKind::StateTransition => EventKindTag::StateTransition,
            EventKind::MemoryInvalidate { .. } => EventKindTag::MemoryInvalidate,
            EventKind::ToolCall { .. } => EventKindTag::ToolCall,
            EventKind::ConsentGranted { .. } => EventKindTag::ConsentGranted,
            EventKind::ConsentRevoked { .. } => EventKindTag::ConsentRevoked,
            EventKind::IntentLogged { .. } => EventKindTag::IntentLogged,
            EventKind::LearningProposal => EventKindTag::LearningProposal,
        }
    }
}

impl vstd::std_specs::convert::FromSpecImpl<&EventKind> for EventKindTag {
    open spec fn obeys_from_spec() -> bool {
        true
    }

    open spec fn from_spec(kind: &EventKind) -> Self {
        kind.deep_view().tag()
    }
}

/// Input provided by the caller to append an event.
///
/// The engine assigns `seq` and `timestamp`; the client cannot set them. The
/// correlation is a UUID.
#[derive(Debug, PartialEq)]
pub struct EventInput {
    pub agent_id: AgentId,
    pub stream_id: StreamId,
    pub kind: EventKind,
    pub causation: Option<u64>,
    pub correlation: Option<u128>,
    pub payload: Json,
}

#[verifier::ext_equal]
pub struct InputModel {
    pub agent_id: Seq<char>,
    pub stream_id: Seq<char>,
    pub kind: KindModel,
    pub causation: Option<u64>,
    pub correlation: Option<u128>,
    pub payload: JsonModel,
}

impl DeepView for EventInput {
    type V = InputModel;

    open spec fn deep_view(&self) -> InputModel {
        InputModel {
            agent_id: self.agent_id.deep_view(),
            stream_id: self.stream_id.deep_view(),
            kind: self.kind.deep_view(),
            causation: self.causation,
            correlation: self.correlation,
            payload: self.payload.deep_view(),
        }
    }
}

impl Replica for EventInput {
    fn replica(&self) -> (r: Self) {
        EventInput {
            agent_id: self.agent_id.replica(),
            stream_id: self.stream_id.replica(),
            kind: self.kind.replica(),
            causation: self.causation,
            correlation: self.correlation,
            payload: self.payload.replica(),
        }
    }
}

impl Clone for EventInput {
    fn clone(&self) -> (r: Self)
        ensures
            r.deep_view() == self.deep_view(),
    {
        self.replica()
    }
}

impl EventInput {
    pub fn new(agent_id: impl IntoText, stream_id: impl IntoText, kind: EventKind) -> (r: Self)
        ensures
            r.deep_view() == (InputModel {
                agent_id: agent_id.text(),
                stream_id: stream_id.text(),
                kind: kind.deep_view(),
                causation: None,
                correlation: None,
                payload: JsonModel::Null,
            }),
    {
        EventInput {
            agent_id: AgentId(agent_id.into_text()),
            stream_id: StreamId(stream_id.into_text()),
            kind,
            causation: None,
            correlation: None,
            payload: Json::Null,
        }
    }

    pub fn with_payload(self, payload: Json) -> (r: Self)
        ensures
            r.deep_view() == (InputModel { payload: payload.deep_view(), ..self.deep_view() }),
    {
        let mut input = self;
        input.payload = payload;
        input
    }

    pub fn with_causation(self, seq: u64) -> (r: Self)
        ensures
            r.deep_view() == (InputModel { causation: Some(seq), ..self.deep_view() }),
    {
        let mut input = self;
        input.causation = Some(seq);
        input
    }
}

/// A persisted event. Immutable once assigned a `seq`.
#[derive(Debug, PartialEq)]
pub struct Event {
    pub seq: u64,
    pub agent_id: AgentId,
    pub stream_id: StreamId,
    pub kind: EventKind,
    pub timestamp: u64,
    pub causation: Option<u64>,
    pub correlation: Option<u128>,
    pub payload: Json,
}

#[verifier::ext_equal]
pub struct EventModel {
    pub seq: u64,
    pub agent_id: Seq<char>,
    pub stream_id: Seq<char>,
    pub kind: KindModel,
    pub timestamp: u64,
    pub causation: Option<u64>,
    pub correlation: Option<u128>,
    pub payload: JsonModel,
}

impl DeepView for Event {
    type V = EventModel;

    open spec fn deep_view(&self) -> EventModel {
        EventModel {
            seq: self.seq,
            agent_id: self.agent_id.deep_view(),
            stream_id: self.stream_id.deep_view(),
            kind: self.kind.deep_view(),
            timestamp: self.timestamp,
            causation: self.causation,
            correlation: self.correlation,
            payload: self.payload.deep_view(),
        }
    }
}

impl Replica for Event {
    fn replica(&self) -> (r: Self) {
        Event {
            seq: self.seq,
            agent_id: self.agent_id.replica(),
            stream_id: self.stream_id.replica(),
            kind: self.kind.replica(),
            timestamp: self.timestamp,
            causation: self.causation,
            correlation: self.correlation,
            payload: self.payload.replica(),
        }
    }
}

impl Clone for Event {
    fn clone(&self) -> (r: Self)
        ensures
            r.deep_view() == self.deep_view(),
    {
        self.replica()
    }
}

impl EventModel {
    /// The grant referenced by an `IntentLogged` event.
    pub open spec fn authorized_by(self) -> Option<u64> {
        match self.kind {
            KindModel::IntentLogged { authorized_by, .. } => authorized_by,
            _ => None,
        }
    }
}

impl InputModel {
    /// The event that the engine makes of this input.
    pub open spec fn event(self, seq: u64, timestamp: u64) -> EventModel {
        EventModel {
            seq,
            agent_id: self.agent_id,
            stream_id: self.stream_id,
            kind: self.kind,
            timestamp,
            causation: self.causation,
            correlation: self.correlation,
            payload: self.payload,
        }
    }
}

impl Event {
    /// Returns the kind tag for reactive pattern matching.
    pub fn kind_tag(&self) -> (r: &'static str)
        ensures
            r@ == self.deep_view().kind.tag().text(),
    {
        self.kind.tag()
    }

    /// Returns the grant sequence referenced by an `IntentLogged` event, if any.
    pub fn authorized_by(&self) -> (r: Option<u64>)
        ensures
            r == self.deep_view().authorized_by(),
    {
        match &self.kind {
            EventKind::IntentLogged { authorized_by, .. } => *authorized_by,
            _ => None,
        }
    }
}

/// The tag of a kind names it, and different kinds have different names.
pub proof fn law_tags_name_kinds(kind: KindModel, other: KindModel)
    ensures
        kind is Fact ==> kind.tag().text() == "Fact"@,
        kind is StateTransition ==> kind.tag().text() == "StateTransition"@,
        kind is MemoryInvalidate ==> kind.tag().text() == "MemoryInvalidate"@,
        kind is ToolCall ==> kind.tag().text() == "ToolCall"@,
        kind is ConsentGranted ==> kind.tag().text() == "ConsentGranted"@,
        kind is ConsentRevoked ==> kind.tag().text() == "ConsentRevoked"@,
        kind is IntentLogged ==> kind.tag().text() == "IntentLogged"@,
        kind is LearningProposal ==> kind.tag().text() == "LearningProposal"@,
        kind.tag().text() == other.tag().text() ==> kind.tag() == other.tag(),
{
    lemma_kind_names();
}

/// The names of the kinds differ.
pub proof fn lemma_kind_names()
    ensures
        forall|a: EventKindTag, b: EventKindTag|
            #[trigger] a.text() == #[trigger] b.text() ==> a == b,
{
    reveal_strlit("Fact");
    reveal_strlit("StateTransition");
    reveal_strlit("MemoryInvalidate");
    reveal_strlit("ToolCall");
    reveal_strlit("ConsentGranted");
    reveal_strlit("ConsentRevoked");
    reveal_strlit("IntentLogged");
    reveal_strlit("LearningProposal");
    assert forall|a: EventKindTag, b: EventKindTag|
        #[trigger] a.text() == #[trigger] b.text() implies a == b by {
        assert(a.text().len() == b.text().len());
        assert(a.text()[0] == b.text()[0]);
        assert(a.text()[7] == b.text()[7]);
    }
}

/// What the engine makes of an input has the number and the time that it assigns, and
/// everything else as the input says.
pub proof fn law_inputs_become_events(input: InputModel, seq: u64, timestamp: u64)
    ensures
        input.event(seq, timestamp).seq == seq,
        input.event(seq, timestamp).timestamp == timestamp,
        input.event(seq, timestamp).agent_id == input.agent_id,
        input.event(seq, timestamp).stream_id == input.stream_id,
        input.event(seq, timestamp).kind == input.kind,
        input.event(seq, timestamp).causation == input.causation,
        input.event(seq, timestamp).correlation == input.correlation,
        input.event(seq, timestamp).payload == input.payload,
{
}

/// Consent is known to all: grants, revocations and intents belong to the global shard too,
/// and nothing else does. Only an intent refers to a grant.
pub proof fn law_consent_is_global(event: EventModel)
    ensures
        event.kind.is_global() <==> event.kind is ConsentGranted || event.kind is ConsentRevoked
            || event.kind is IntentLogged,
        event.authorized_by() is Some ==> event.kind is IntentLogged,
        event.kind is IntentLogged ==> event.authorized_by()
            == event.kind->IntentLogged_authorized_by,
{
}

} // verus!
