//! The surface for callers that speak JSON text and signed numbers: what comes in is
//! checked and turned into the engine's values, what goes out is turned into text.

use crate::collections::{ColOp, DocEntry, OpModel, PutOptions, ScanOptions};
use crate::db::Decision;
use crate::event::{
    lemma_kind_names, AgentId, Event, EventInput, EventKind, EventKindTag, InputModel, KindModel,
    Scope, ScopeModel, StreamId,
};
use crate::index::types::{
    DocModel, FieldBoosts, FilterModel, Fusion, HybridQuery, IndexDoc, QueryModel, ScalarFilter,
};
use crate::json::{json_text, parse_json, parsed_json, Json, JsonModel};
use crate::reactive::{EventPattern, PatternModel, Predicate, PredicateModel};
use crate::text::{join2, join3, text_same};
use vstd::prelude::*;

verus! {

/// What `uuid::Uuid::parse_str` makes of a text: the number, or the error's message.
pub uninterp spec fn parsed_uuid(text: Seq<char>) -> Result<u128, Seq<char>>;

/// `uuid::Uuid::parse_str`, with `as_u128` of the result and the error's message: a
/// function of the text alone, named [`parsed_uuid`].
#[verifier::external_body]
fn parse_uuid(text: &str) -> (r: Result<u128, String>)
    ensures
        match r {
            Ok(value) => parsed_uuid(text@) is Ok && parsed_uuid(text@)->Ok_0 == value,
            Err(message) => parsed_uuid(text@) is Err && parsed_uuid(text@)->Err_0 == message@,
        },
{
    match uuid::Uuid::parse_str(text) {
        Ok(value) => Ok(value.as_u128()),
        Err(error) => Err(error.to_string()),
    }
}

/// A hexadecimal digit in lower case.
pub open spec fn hex_digit(d: int) -> char {
    seq![
        '0',
        '1',
        '2',
        '3',
        '4',
        '5',
        '6',
        '7',
        '8',
        '9',
        'a',
        'b',
        'c',
        'd',
        'e',
        'f',
    ][d]
}

/// The `k`-th of the thirty-two hexadecimal digits of a number, the highest first.
pub open spec fn hex_place(value: u128, k: int) -> char {
    hex_digit((value as int / vstd::arithmetic::power::pow(16, (31 - k) as nat)) % 16)
}

/// The hyphenated form of a UUID: groups of eight, four, four, four and twelve digits.
pub open spec fn hyphenated(value: u128) -> Seq<char> {
    Seq::new(
        36,
        |i: int|
            if i == 8 || i == 13 || i == 18 || i == 23 {
                '-'
            } else if i < 8 {
                hex_place(value, i)
            } else if i < 13 {
                hex_place(value, i - 1)
            } else if i < 18 {
                hex_place(value, i - 2)
            } else if i < 23 {
                hex_place(value, i - 3)
            } else {
                hex_place(value, i - 4)
            },
    )
}

/// `Display` of `uuid::Uuid::from_u128`: the hyphenated form, in lower case, which
/// `parse_str` reads back.
#[verifier::external_body]
fn uuid_text(value: u128) -> (r: String)
    ensures
        r@ == hyphenated(value),
        parsed_uuid(r@) is Ok && parsed_uuid(r@)->Ok_0 == value,
{
    uuid::Uuid::from_u128(value).to_string()
}

/// A signed number's two's complement, read without sign.
pub open spec fn unsigned(value: i64) -> u64 {
    if value >= 0 {
        value as u64
    } else {
        (value + 0x1_0000_0000_0000_0000) as u64
    }
}

/// An unsigned number, read as two's complement.
pub open spec fn signed(value: u64) -> i64 {
    if value <= i64::MAX {
        value as i64
    } else {
        (value - 0x1_0000_0000_0000_0000) as i64
    }
}

/// A signed number's two's complement, read without sign.
pub fn to_unsigned(value: i64) -> (r: u64)
    ensures
        r == unsigned(value),
{
    if value >= 0 {
        value as u64
    } else {
        u64::MAX - ((-(value + 1)) as u64)
    }
}

/// An unsigned number, read as two's complement.
pub fn to_signed(value: u64) -> (r: i64)
    ensures
        r == signed(value),
{
    if value <= i64::MAX as u64 {
        value as i64
    } else {
        -((u64::MAX - value) as i64) - 1
    }
}

/// A number that goes out and comes back is the same.
pub proof fn law_numbers_come_back(value: u64)
    ensures
        unsigned(signed(value)) == value,
{
}

/// An event as a caller gives it.
#[derive(Debug)]
pub struct JsEventInput {
    pub agent_id: String,
    pub stream_id: String,
    pub kind: String,
    pub payload: String,
    pub causation: Option<i64>,
    /// UUID text. Links this event to others sharing the same objective or intent, so
    /// that drift from the stream's original intent can be told.
    pub correlation: Option<String>,
}

/// An event as a caller gets it.
#[derive(Debug, PartialEq)]
pub struct JsEvent {
    pub seq: i64,
    pub agent_id: String,
    pub stream_id: String,
    pub kind_tag: String,
    pub timestamp: i64,
    pub causation: Option<i64>,
    pub correlation: Option<String>,
    pub payload: String,
}

#[derive(Debug, PartialEq)]
pub struct JsDecision {
    pub allowed: bool,
    pub intent_log_seq: Option<i64>,
}

#[derive(Debug)]
pub struct JsScalarFilter {
    pub field: String,
    pub value: String,
}

#[derive(Debug)]
pub struct JsFusion {
    /// Fusion strategy. Only `"rrf"` is supported.
    pub kind: String,
    /// RRF `k` parameter (default 60).
    pub k: Option<u32>,
}

#[derive(Debug)]
pub struct JsFieldBoosts {
    pub name: Option<u32>,
    pub body: Option<u32>,
    pub tags: Option<u32>,
}

#[derive(Debug)]
pub struct JsHybridQuery {
    pub text: Option<String>,
    pub vector: Option<Vec<u32>>,
    pub k: u32,
    pub filters: Option<Vec<JsScalarFilter>>,
    pub fusion: Option<JsFusion>,
    pub boosts: Option<JsFieldBoosts>,
}

#[derive(Debug)]
pub struct JsIndexDoc {
    pub id: String,
    pub name: Option<String>,
    pub body: Option<String>,
    pub tags: Option<String>,
    pub vector: Option<Vec<u32>>,
    pub filters: Option<Vec<JsScalarFilter>>,
}

#[derive(Debug, PartialEq)]
pub struct JsDocEntry {
    pub id: String,
    /// Monotonic per-document version, starting at 1 on first put.
    pub version: i64,
    /// The stored document as a JSON string.
    pub json: String,
}

#[derive(Debug)]
pub struct JsScanOptions {
    pub prefix: Option<String>,
    pub start: Option<String>,
    pub limit: Option<u32>,
    pub offset: Option<u32>,
    pub reverse: Option<bool>,
}

#[derive(Debug)]
pub struct JsColOp {
    /// "put" | "delete"
    pub op: String,
    pub collection: String,
    pub id: String,
    /// JSON document (required for "put").
    pub json: Option<String>,
    pub expected_version: Option<i64>,
}

#[derive(Debug)]
pub struct JsEventPattern {
    pub agent_id: Option<String>,
    pub kind: Option<String>,
    pub stream_id: Option<String>,
    pub predicate: Option<JsPredicate>,
}

#[derive(Debug)]
pub struct JsPredicate {
    /// `"Eq"` | `"Contains"` | `"Always"`.
    pub kind: String,
    /// JSON pointer path inside the payload (e.g. `"/temperature"` or `"temperature"`).
    pub path: Option<String>,
    /// JSON-encoded value used by `Eq` and `Contains`.
    pub value: Option<String>,
}

/// What a JSON text stands for, or what is wrong with it, told with a heading.
pub open spec fn parsed_with(text: Seq<char>, heading: Seq<char>) -> Result<JsonModel, Seq<char>> {
    match parsed_json(text) {
        Ok(value) => Ok(value),
        Err(message) => Err(heading + message),
    }
}

/// A JSON result in terms of models.
pub open spec fn json_view(result: Result<Json, String>) -> Result<JsonModel, Seq<char>> {
    match result {
        Ok(value) => Ok(value.deep_view()),
        Err(message) => Err(message@),
    }
}

/// Reads a payload.
pub fn parse_payload(payload: &str) -> (r: Result<Json, String>)
    ensures
        json_view(r) == parsed_with(payload@, "invalid payload: "@),
{
    match parse_json(payload) {
        Ok(value) => Ok(value),
        Err(message) => Err(join2("invalid payload: ", message.as_str())),
    }
}

/// Reads a document.
pub fn parse_json_doc(json: &str) -> (r: Result<Json, String>)
    ensures
        json_view(r) == parsed_with(json@, "invalid document JSON: "@),
{
    match parse_json(json) {
        Ok(value) => Ok(value),
        Err(message) => Err(join2("invalid document JSON: ", message.as_str())),
    }
}

/// The text that a kind of event needs in a field of its payload.
pub open spec fn needed_text(payload: JsonModel, kind: Seq<char>, field: Seq<char>) -> Result<
    Seq<char>,
    Seq<char>,
> {
    match payload.text_field(field) {
        Some(text) => Ok(text),
        None => Err(kind + " requires payload."@ + field),
    }
}

/// The number that a kind of event needs in a field of its payload.
pub open spec fn needed_number(payload: JsonModel, kind: Seq<char>, field: Seq<char>) -> Result<
    u64,
    Seq<char>,
> {
    match payload.unsigned_field(field) {
        Some(number) => Ok(number),
        None => Err(kind + " requires payload."@ + field),
    }
}

/// The text that a grant needs in a field of its scope: of the object under `scope`
/// where that has it, else of the payload itself.
pub open spec fn needed_in_scope(payload: JsonModel, kind: Seq<char>, field: Seq<char>) -> Result<
    Seq<char>,
    Seq<char>,
> {
    match payload.field("scope"@) {
        Some(scope) => match scope.text_field(field) {
            Some(text) => Ok(text),
            None => needed_text(payload, kind, field),
        },
        None => needed_text(payload, kind, field),
    }
}

fn need_in_scope(payload: &Json, kind: &str, field: &str) -> (r: Result<String, String>)
    ensures
        match r {
            Ok(text) => needed_in_scope(payload.deep_view(), kind@, field@) == Ok::<
                Seq<char>,
                Seq<char>,
            >(text@),
            Err(message) => needed_in_scope(payload.deep_view(), kind@, field@) == Err::<
                Seq<char>,
                Seq<char>,
            >(message@),
        },
{
    if let Some(scope) = payload.get("scope") {
        if let Some(text) = scope.text_field(field) {
            return Ok(text);
        }
    }
    need_text(payload, kind, field)
}

fn need_text(payload: &Json, kind: &str, field: &str) -> (r: Result<String, String>)
    ensures
        match r {
            Ok(text) => needed_text(payload.deep_view(), kind@, field@) == Ok::<
                Seq<char>,
                Seq<char>,
            >(text@),
            Err(message) => needed_text(payload.deep_view(), kind@, field@) == Err::<
                Seq<char>,
                Seq<char>,
            >(message@),
        },
{
    match payload.text_field(field) {
        Some(text) => Ok(text),
        None => Err(join3(kind, " requires payload.", field)),
    }
}

fn need_number(payload: &Json, kind: &str, field: &str) -> (r: Result<u64, String>)
    ensures
        match r {
            Ok(number) => needed_number(payload.deep_view(), kind@, field@) == Ok::<
                u64,
                Seq<char>,
            >(number),
            Err(message) => needed_number(payload.deep_view(), kind@, field@) == Err::<
                u64,
                Seq<char>,
            >(message@),
        },
{
    match payload.unsigned_field(field) {
        Some(number) => Ok(number),
        None => Err(join3(kind, " requires payload.", field)),
    }
}

/// The kind of event that a name and a payload stand for, or what is missing.
pub open spec fn kind_of(kind: Seq<char>, payload: JsonModel) -> Result<KindModel, Seq<char>> {
    if kind == "Fact"@ {
        Ok(KindModel::Fact)
    } else if kind == "StateTransition"@ {
        Ok(KindModel::StateTransition)
    } else if kind == "MemoryInvalidate"@ {
        match needed_number(payload, kind, "target_seq"@) {
            Ok(target_seq) => Ok(KindModel::MemoryInvalidate { target_seq }),
            Err(message) => Err(message),
        }
    } else if kind == "ToolCall"@ {
        match needed_text(payload, kind, "tool"@) {
            Ok(tool) => Ok(KindModel::ToolCall { tool }),
            Err(message) => Err(message),
        }
    } else if kind == "ConsentGranted"@ {
        match needed_text(payload, kind, "from"@) {
            Err(message) => Err(message),
            Ok(from) => match needed_text(payload, kind, "to"@) {
                Err(message) => Err(message),
                Ok(to) => match needed_in_scope(payload, kind, "action"@) {
                    Err(message) => Err(message),
                    Ok(action) => match needed_in_scope(payload, kind, "resource"@) {
                        Err(message) => Err(message),
                        Ok(resource) => Ok(
                            KindModel::ConsentGranted {
                                from,
                                to,
                                scope: ScopeModel { action, resource },
                                expires: payload.unsigned_field("expires"@),
                            },
                        ),
                    },
                },
            },
        }
    } else if kind == "ConsentRevoked"@ {
        match needed_number(payload, kind, "grant_seq"@) {
            Ok(grant_seq) => Ok(KindModel::ConsentRevoked { grant_seq }),
            Err(message) => Err(message),
        }
    } else if kind == "IntentLogged"@ {
        match needed_text(payload, kind, "actor"@) {
            Err(message) => Err(message),
            Ok(actor) => match needed_text(payload, kind, "intent"@) {
                Err(message) => Err(message),
                Ok(intent) => Ok(
                    KindModel::IntentLogged {
                        actor,
                        intent,
                        authorized_by: payload.unsigned_field("authorized_by"@),
                    },
                ),
            },
        }
    } else if kind == "LearningProposal"@ {
        Ok(KindModel::LearningProposal)
    } else {
        Err("unknown event kind: "@ + kind)
    }
}

/// A kind in terms of models.
pub open spec fn kind_view(result: Result<EventKind, String>) -> Result<KindModel, Seq<char>> {
    match result {
        Ok(kind) => Ok(kind.deep_view()),
        Err(message) => Err(message@),
    }
}

fn js_to_kind(kind: &str, payload: &Json) -> (r: Result<EventKind, String>)
    ensures
        kind_view(r) == kind_of(kind@, payload.deep_view()),
{
    if text_same(kind, "Fact") {
        Ok(EventKind::Fact)
    } else if text_same(kind, "StateTransition") {
        Ok(EventKind::StateTransition)
    } else if text_same(kind, "MemoryInvalidate") {
        let target_seq = need_number(payload, kind, "target_seq")?;
        Ok(EventKind::MemoryInvalidate { target_seq })
    } else if text_same(kind, "ToolCall") {
        let tool = need_text(payload, kind, "tool")?;
        Ok(EventKind::ToolCall { tool })
    } else if text_same(kind, "ConsentGranted") {
        let from = need_text(payload, kind, "from")?;
        let to = need_text(payload, kind, "to")?;
        let action = need_in_scope(payload, kind, "action")?;
        let resource = need_in_scope(payload, kind, "resource")?;
        let expires = payload.unsigned_field("expires");
        Ok(
            EventKind::ConsentGranted {
                from: AgentId(from),
                to: AgentId(to),
                scope: Scope::new(action, resource),
                expires,
            },
        )
    } else if text_same(kind, "ConsentRevoked") {
        let grant_seq = need_number(payload, kind, "grant_seq")?;
        Ok(EventKind::ConsentRevoked { grant_seq })
    } else if text_same(kind, "IntentLogged") {
        let actor = need_text(payload, kind, "actor")?;
        let intent = need_text(payload, kind, "intent")?;
        let authorized_by = payload.unsigned_field("authorized_by");
        Ok(EventKind::IntentLogged { actor: AgentId(actor), intent, authorized_by })
    } else if text_same(kind, "LearningProposal") {
        Ok(EventKind::LearningProposal)
    } else {
        Err(join2("unknown event kind: ", kind))
    }
}

/// The correlation that a UUID text stands for, or what is wrong with it.
pub open spec fn correlation_of(text: Option<Seq<char>>) -> Result<Option<u128>, Seq<char>> {
    match text {
        Some(text) => match parsed_uuid(text) {
            Ok(value) => Ok(Some(value)),
            Err(message) => Err("invalid correlation UUID: "@ + message),
        },
        None => Ok(None),
    }
}

/// The input that a caller's event stands for, or what is wrong with it.
pub open spec fn input_of(input: JsEventInput) -> Result<InputModel, Seq<char>> {
    match parsed_with(input.payload@, "invalid payload: "@) {
        Err(message) => Err(message),
        Ok(payload) => match kind_of(input.kind@, payload) {
            Err(message) => Err(message),
            Ok(kind) => match correlation_of(input.correlation.deep_view()) {
                Err(message) => Err(message),
                Ok(correlation) => Ok(
                    InputModel {
                        agent_id: input.agent_id@,
                        stream_id: input.stream_id@,
                        kind,
                        causation: match input.causation {
                            Some(seq) => Some(unsigned(seq)),
                            None => None,
                        },
                        correlation,
                        payload,
                    },
                ),
            },
        },
    }
}

/// Turns a caller's event into an input of the engine.
pub fn js_to_event_input(input: JsEventInput) -> (r: Result<EventInput, String>)
    ensures
        match r {
            Ok(event) => input_of(input) == Ok::<InputModel, Seq<char>>(event.deep_view()),
            Err(message) => input_of(input) == Err::<InputModel, Seq<char>>(message@),
        },
{
    let payload = parse_payload(input.payload.as_str())?;
    let kind = js_to_kind(input.kind.as_str(), &payload)?;
    let correlation: Option<u128> = match &input.correlation {
        Some(text) => match parse_uuid(text.as_str()) {
            Ok(value) => Some(value),
            Err(message) => {
                return Err(join2("invalid correlation UUID: ", message.as_str()));
            },
        },
        None => None,
    };
    let causation: Option<u64> = match input.causation {
        Some(seq) => Some(to_unsigned(seq)),
        None => None,
    };
    let event = EventInput {
        agent_id: AgentId(input.agent_id),
        stream_id: StreamId(input.stream_id),
        kind,
        causation,
        correlation,
        payload,
    };
    assert(input_of(input)->Ok_0 =~= event.deep_view());
    Ok(event)
}

/// Turns an event into what a caller gets.
pub fn event_to_js(event: &Event) -> (r: JsEvent)
    ensures
        r.seq == signed(event.seq),
        r.agent_id@ == event.deep_view().agent_id,
        r.stream_id@ == event.deep_view().stream_id,
        r.kind_tag@ == event.deep_view().kind.tag().text(),
        r.timestamp == signed(event.timestamp),
        r.causation == (match event.causation {
            Some(seq) => Some(signed(seq)),
            None => None,
        }),
        match (r.correlation, event.correlation) {
            (Some(text), Some(value)) => text@ == hyphenated(value) && parsed_uuid(text@) == Ok::<
                u128,
                Seq<char>,
            >(value),
            (None, None) => true,
            _ => false,
        },
        r.payload@ == json_text(event.deep_view().payload),
{
    JsEvent {
        seq: to_signed(event.seq),
        agent_id: event.agent_id.0.clone(),
        stream_id: event.stream_id.0.clone(),
        kind_tag: event.kind.tag().to_owned(),
        timestamp: to_signed(event.timestamp),
        causation: match event.causation {
            Some(seq) => Some(to_signed(seq)),
            None => None,
        },
        correlation: match event.correlation {
            Some(value) => Some(uuid_text(value)),
            None => None,
        },
        payload: event.payload.to_text(),
    }
}

/// Turns a decision into what a caller gets.
pub fn decision_to_js(decision: &Decision) -> (r: JsDecision)
    ensures
        r.allowed == decision.is_allowed(),
        r.intent_log_seq == (match decision.logged_at() {
            Some(seq) => Some(signed(seq)),
            None => None,
        }),
{
    JsDecision {
        allowed: decision.allowed(),
        intent_log_seq: match decision.intent_log_seq() {
            Some(seq) => Some(to_signed(seq)),
            None => None,
        },
    }
}

/// The sequence number that a caller asks for.
pub fn js_to_seq(seq: i64) -> (r: Result<u64, String>)
    ensures
        match r {
            Ok(value) => seq >= 0 && value == seq,
            Err(message) => seq < 0 && message@ == "seq must be non-negative"@,
        },
{
    if seq < 0 {
        Err("seq must be non-negative".to_owned())
    } else {
        Ok(seq as u64)
    }
}

/// The lifetime that a caller asks for, in milliseconds; a negative one is none at all.
pub fn js_to_ttl(ttl_ms: Option<i64>) -> (r: Option<u64>)
    ensures
        match (ttl_ms, r) {
            (Some(ms), Some(span)) => span == if ms < 0 {
                0
            } else {
                ms as int
            },
            (None, None) => true,
            _ => false,
        },
{
    match ttl_ms {
        Some(ms) => if ms < 0 {
            Some(0)
        } else {
            Some(ms as u64)
        },
        None => None,
    }
}

impl DeepView for JsScalarFilter {
    type V = FilterModel;

    open spec fn deep_view(&self) -> FilterModel {
        FilterModel { field: self.field@, value: self.value@ }
    }
}

/// The filters that a caller gives; none where they are missing.
pub open spec fn filters_of(filters: Option<Vec<JsScalarFilter>>) -> Seq<FilterModel> {
    match filters {
        Some(filters) => filters.deep_view(),
        None => Seq::empty(),
    }
}

/// Turns a caller's filter into one of the index.
pub fn js_to_scalar_filter(filter: &JsScalarFilter) -> (r: ScalarFilter)
    ensures
        r.deep_view() == filter.deep_view(),
{
    ScalarFilter::Eq { field: filter.field.clone(), value: filter.value.clone() }
}

fn js_to_filters(filters: &Option<Vec<JsScalarFilter>>) -> (r: Vec<ScalarFilter>)
    ensures
        r.deep_view() == filters_of(*filters),
{
    let mut out: Vec<ScalarFilter> = Vec::new();
    assert(out.deep_view() =~= Seq::empty());
    if let Some(filters) = filters {
        let ghost all = filters.deep_view();
        let mut i: usize = 0;
        assert(out.deep_view() =~= all.take(0));
        while i < filters.len()
            invariant
                i <= filters.len(),
                all == filters.deep_view(),
                out.deep_view() == all.take(i as int),
            decreases filters.len() - i,
        {
            let ghost was = out.deep_view();
            out.push(js_to_scalar_filter(&filters[i]));
            assert(out.deep_view() =~= was.push(all[i as int]));
            assert(all.take(i + 1) =~= was.push(all[i as int]));
            i += 1;
        }
        assert(all.take(i as int) =~= all);
    }
    out
}

/// The fusion that a caller asks for, or what is wrong with it.
pub open spec fn fusion_of(fusion: Option<JsFusion>) -> Result<Fusion, Seq<char>> {
    match fusion {
        Some(fusion) => if fusion.kind@ == "rrf"@ {
            Ok(
                Fusion::Rrf {
                    k: match fusion.k {
                        Some(k) => k as usize,
                        None => 60,
                    },
                },
            )
        } else {
            Err("unknown fusion kind: "@ + fusion.kind@ + " (only \"rrf\" is supported)"@)
        },
        None => Ok(Fusion::Rrf { k: 60 }),
    }
}

/// The boosts that a caller asks for; the usual one for a field that is not given.
pub open spec fn boosts_of(boosts: Option<JsFieldBoosts>) -> Option<FieldBoosts> {
    match boosts {
        Some(boosts) => Some(
            FieldBoosts {
                name: match boosts.name {
                    Some(boost) => boost,
                    None => FieldBoosts::usual().name,
                },
                body: match boosts.body {
                    Some(boost) => boost,
                    None => FieldBoosts::usual().body,
                },
                tags: match boosts.tags {
                    Some(boost) => boost,
                    None => FieldBoosts::usual().tags,
                },
            },
        ),
        None => None,
    }
}

/// Turns a caller's query into one of the index.
pub fn js_to_hybrid_query(query: JsHybridQuery) -> (r: Result<HybridQuery, String>)
    ensures
        match r {
            Ok(hybrid) => {
                &&& fusion_of(query.fusion) is Ok
                &&& hybrid.deep_view() == (QueryModel {
                    text: query.text.deep_view(),
                    vector: query.vector.deep_view(),
                    filters: filters_of(query.filters),
                    k: query.k as usize,
                    fusion: fusion_of(query.fusion)->Ok_0,
                    boosts: boosts_of(query.boosts),
                })
            },
            Err(message) => fusion_of(query.fusion) == Err::<Fusion, Seq<char>>(message@),
        },
{
    let filters = js_to_filters(&query.filters);
    let fusion = match &query.fusion {
        Some(fusion) => if text_same(fusion.kind.as_str(), "rrf") {
            Fusion::Rrf {
                k: match fusion.k {
                    Some(k) => k as usize,
                    None => 60,
                },
            }
        } else {
            return Err(
                join3(
                    "unknown fusion kind: ",
                    fusion.kind.as_str(),
                    " (only \"rrf\" is supported)",
                ),
            );
        },
        None => Fusion::default(),
    };
    let boosts = match &query.boosts {
        Some(boosts) => {
            let defaults = FieldBoosts::default();
            Some(
                FieldBoosts {
                    name: match boosts.name {
                        Some(boost) => boost,
                        None => defaults.name,
                    },
                    body: match boosts.body {
                        Some(boost) => boost,
                        None => defaults.body,
                    },
                    tags: match boosts.tags {
                        Some(boost) => boost,
                        None => defaults.tags,
                    },
                },
            )
        },
        None => None,
    };
    Ok(
        HybridQuery {
            text: query.text,
            vector: query.vector,
            filters,
            k: query.k as usize,
            fusion,
            boosts,
        },
    )
}

/// Turns a caller's document into one of the index.
pub fn js_to_index_doc(doc: JsIndexDoc) -> (r: IndexDoc)
    ensures
        r.deep_view() == (DocModel {
            id: doc.id@,
            name: doc.name.deep_view(),
            body: doc.body.deep_view(),
            tags: doc.tags.deep_view(),
            vector: doc.vector.deep_view(),
            filters: filters_of(doc.filters),
        }),
{
    let filters = js_to_filters(&doc.filters);
    IndexDoc {
        id: doc.id,
        name: doc.name,
        body: doc.body,
        tags: doc.tags,
        vector: doc.vector,
        filters,
    }
}

/// The tag that a pattern's kind names, or what is wrong with it.
pub open spec fn tag_of(kind: Option<Seq<char>>) -> Result<Option<EventKindTag>, Seq<char>> {
    match kind {
        Some(kind) => if kind == "Fact"@ {
            Ok(Some(EventKindTag::Fact))
        } else if kind == "StateTransition"@ {
            Ok(Some(EventKindTag::StateTransition))
        } else if kind == "MemoryInvalidate"@ {
            Ok(Some(EventKindTag::MemoryInvalidate))
        } else if kind == "ToolCall"@ {
            Ok(Some(EventKindTag::ToolCall))
        } else if kind == "ConsentGranted"@ {
            Ok(Some(EventKindTag::ConsentGranted))
        } else if kind == "ConsentRevoked"@ {
            Ok(Some(EventKindTag::ConsentRevoked))
        } else if kind == "IntentLogged"@ {
            Ok(Some(EventKindTag::IntentLogged))
        } else {
            Err("unknown kind: "@ + kind)
        },
        None => Ok(None),
    }
}

/// The path and the value that a predicate needs.
pub open spec fn operands_of(predicate: JsPredicate) -> Result<(Seq<char>, JsonModel), Seq<char>> {
    match predicate.path {
        None => Err(predicate.kind@ + " predicate requires path"@),
        Some(path) => match predicate.value {
            None => Err(predicate.kind@ + " predicate requires value"@),
            Some(value) => match parsed_with(value@, "invalid payload: "@) {
                Err(message) => Err(message),
                Ok(value) => Ok((path@, value)),
            },
        },
    }
}

/// The predicate that a caller gives, or what is wrong with it.
pub open spec fn predicate_of(predicate: Option<JsPredicate>) -> Result<
    Option<PredicateModel>,
    Seq<char>,
> {
    match predicate {
        Some(predicate) => if predicate.kind@ == "Eq"@ {
            match operands_of(predicate) {
                Ok((path, value)) => Ok(Some(PredicateModel::Eq { path, value })),
                Err(message) => Err(message),
            }
        } else if predicate.kind@ == "Contains"@ {
            match operands_of(predicate) {
                Ok((path, value)) => Ok(Some(PredicateModel::Contains { path, value })),
                Err(message) => Err(message),
            }
        } else if predicate.kind@ == "Always"@ {
            Ok(Some(PredicateModel::Always))
        } else {
            Err(
                "unknown predicate kind: "@ + predicate.kind@
                    + " (expected Eq, Contains or Always)"@,
            )
        },
        None => Ok(None),
    }
}

fn js_to_operands(predicate: &JsPredicate) -> (r: Result<(String, Json), String>)
    ensures
        match r {
            Ok((path, value)) => operands_of(*predicate) == Ok::<
                (Seq<char>, JsonModel),
                Seq<char>,
            >((path@, value.deep_view())),
            Err(message) => operands_of(*predicate) == Err::<(Seq<char>, JsonModel), Seq<char>>(
                message@,
            ),
        },
{
    match &predicate.path {
        None => Err(join2(predicate.kind.as_str(), " predicate requires path")),
        Some(path) => match &predicate.value {
            None => Err(join2(predicate.kind.as_str(), " predicate requires value")),
            Some(value) => {
                let value = parse_payload(value.as_str())?;
                Ok((path.clone(), value))
            },
        },
    }
}

fn js_to_predicate(predicate: &Option<JsPredicate>) -> (r: Result<Option<Predicate>, String>)
    ensures
        match r {
            Ok(found) => predicate_of(*predicate) == Ok::<Option<PredicateModel>, Seq<char>>(
                found.deep_view(),
            ),
            Err(message) => predicate_of(*predicate) == Err::<Option<PredicateModel>, Seq<char>>(
                message@,
            ),
        },
{
    match predicate {
        Some(predicate) => if text_same(predicate.kind.as_str(), "Eq") {
            let (path, value) = js_to_operands(predicate)?;
            Ok(Some(Predicate::Eq { path, value }))
        } else if text_same(predicate.kind.as_str(), "Contains") {
            let (path, value) = js_to_operands(predicate)?;
            Ok(Some(Predicate::Contains { path, value }))
        } else if text_same(predicate.kind.as_str(), "Always") {
            Ok(Some(Predicate::Always))
        } else {
            Err(
                join3(
                    "unknown predicate kind: ",
                    predicate.kind.as_str(),
                    " (expected Eq, Contains or Always)",
                ),
            )
        },
        None => Ok(None),
    }
}

fn js_to_tag(kind: &Option<String>) -> (r: Result<Option<EventKindTag>, String>)
    ensures
        match r {
            Ok(tag) => tag_of(kind.deep_view()) == Ok::<Option<EventKindTag>, Seq<char>>(tag),
            Err(message) => tag_of(kind.deep_view()) == Err::<Option<EventKindTag>, Seq<char>>(
                message@,
            ),
        },
{
    match kind {
        Some(kind) => {
            let name = kind.as_str();
            if text_same(name, "Fact") {
                Ok(Some(EventKindTag::Fact))
            } else if text_same(name, "StateTransition") {
                Ok(Some(EventKindTag::StateTransition))
            } else if text_same(name, "MemoryInvalidate") {
                Ok(Some(EventKindTag::MemoryInvalidate))
            } else if text_same(name, "ToolCall") {
                Ok(Some(EventKindTag::ToolCall))
            } else if text_same(name, "ConsentGranted") {
                Ok(Some(EventKindTag::ConsentGranted))
            } else if text_same(name, "ConsentRevoked") {
                Ok(Some(EventKindTag::ConsentRevoked))
            } else if text_same(name, "IntentLogged") {
                Ok(Some(EventKindTag::IntentLogged))
            } else {
                Err(join2("unknown kind: ", name))
            }
        },
        None => Ok(None),
    }
}

/// The pattern that a caller gives, or what is wrong with it.
pub open spec fn pattern_of(pattern: JsEventPattern) -> Result<PatternModel, Seq<char>> {
    match tag_of(pattern.kind.deep_view()) {
        Err(message) => Err(message),
        Ok(kind) => match predicate_of(pattern.predicate) {
            Err(message) => Err(message),
            Ok(predicate) => Ok(
                PatternModel {
                    agent_id: pattern.agent_id.deep_view(),
                    kind,
                    stream_id: pattern.stream_id.deep_view(),
                    predicate,
                },
            ),
        },
    }
}

/// Turns a caller's pattern into one of the engine.
pub fn js_to_event_pattern(pattern: JsEventPattern) -> (r: Result<EventPattern, String>)
    ensures
        match r {
            Ok(found) => pattern_of(pattern) == Ok::<PatternModel, Seq<char>>(found.deep_view()),
            Err(message) => pattern_of(pattern) == Err::<PatternModel, Seq<char>>(message@),
        },
{
    let kind = js_to_tag(&pattern.kind)?;
    let predicate = js_to_predicate(&pattern.predicate)?;
    let found = EventPattern {
        agent_id: match pattern.agent_id {
            Some(agent) => Some(AgentId(agent)),
            None => None,
        },
        kind,
        stream_id: match pattern.stream_id {
            Some(stream) => Some(StreamId(stream)),
            None => None,
        },
        predicate,
    };
    assert(pattern_of(pattern)->Ok_0 =~= found.deep_view());
    Ok(found)
}

/// Turns a stored document into what a caller gets.
pub fn doc_entry_to_js(entry: &DocEntry) -> (r: JsDocEntry)
    ensures
        r.id@ == entry.id@,
        r.version == signed(entry.version),
        r.json@ == json_text(entry.doc.deep_view()),
{
    JsDocEntry {
        id: entry.id.clone(),
        version: to_signed(entry.version),
        json: entry.doc.to_text(),
    }
}

/// Turns a caller's scan options into those of a collection; what is missing asks for
/// everything, in ascending order.
pub fn js_to_scan_options(options: Option<JsScanOptions>) -> (r: ScanOptions)
    ensures
        match options {
            Some(options) => {
                &&& r.prefix.deep_view() == options.prefix.deep_view()
                &&& r.start.deep_view() == options.start.deep_view()
                &&& r.limit == (match options.limit {
                    Some(limit) => limit as usize,
                    None => 0,
                })
                &&& r.offset == (match options.offset {
                    Some(offset) => offset as usize,
                    None => 0,
                })
                &&& r.reverse == (match options.reverse {
                    Some(reverse) => reverse,
                    None => false,
                })
            },
            None => r.prefix is None && r.start is None && r.limit == 0 && r.offset == 0
                && !r.reverse,
        },
{
    match options {
        Some(options) => ScanOptions {
            prefix: options.prefix,
            start: options.start,
            limit: match options.limit {
                Some(limit) => limit as usize,
                None => 0,
            },
            offset: match options.offset {
                Some(offset) => offset as usize,
                None => 0,
            },
            reverse: match options.reverse {
                Some(reverse) => reverse,
                None => false,
            },
        },
        None => ScanOptions { prefix: None, start: None, limit: 0, offset: 0, reverse: false },
    }
}

/// The version that a caller expects.
pub open spec fn expected_of(version: Option<i64>) -> Option<u64> {
    match version {
        Some(version) => Some(unsigned(version)),
        None => None,
    }
}

/// Turns a caller's put options into those of a collection.
pub fn js_to_put_options(expected_version: Option<i64>) -> (r: PutOptions)
    ensures
        r.expected_version == expected_of(expected_version),
{
    PutOptions {
        expected_version: match expected_version {
            Some(version) => Some(to_unsigned(version)),
            None => None,
        },
    }
}

/// The operation that a caller gives, or what is wrong with it.
pub open spec fn op_of(op: JsColOp) -> Result<OpModel, Seq<char>> {
    if op.op@ == "put"@ {
        match op.json {
            None => Err("batch put requires the json field"@),
            Some(json) => match parsed_with(json@, "invalid document JSON: "@) {
                Err(message) => Err(message),
                Ok(doc) => Ok(
                    OpModel::Put {
                        collection: op.collection@,
                        id: op.id@,
                        doc,
                        expected_version: expected_of(op.expected_version),
                    },
                ),
            },
        }
    } else if op.op@ == "delete"@ {
        Ok(OpModel::Delete { collection: op.collection@, id: op.id@ })
    } else {
        Err("unknown batch op: "@ + op.op@ + " (expected \"put\" or \"delete\")"@)
    }
}

/// The first `n` operations, or what is wrong with the first bad one.
pub open spec fn ops_of(ops: Seq<JsColOp>, n: nat) -> Result<Seq<OpModel>, Seq<char>>
    decreases n,
{
    if n == 0 {
        Ok(Seq::empty())
    } else {
        match ops_of(ops, (n - 1) as nat) {
            Err(message) => Err(message),
            Ok(before) => match op_of(ops[n - 1]) {
                Err(message) => Err(message),
                Ok(op) => Ok(before.push(op)),
            },
        }
    }
}

proof fn lemma_bad_op(ops: Seq<JsColOp>, n: nat, m: nat)
    requires
        n <= m,
        ops_of(ops, n) is Err,
    ensures
        ops_of(ops, m) == ops_of(ops, n),
    decreases m,
{
    if n < m {
        lemma_bad_op(ops, n, (m - 1) as nat);
    }
}

fn js_to_col_op(op: &JsColOp) -> (r: Result<ColOp, String>)
    ensures
        match r {
            Ok(found) => op_of(*op) == Ok::<OpModel, Seq<char>>(found.deep_view()),
            Err(message) => op_of(*op) == Err::<OpModel, Seq<char>>(message@),
        },
{
    if text_same(op.op.as_str(), "put") {
        match &op.json {
            None => Err("batch put requires the json field".to_owned()),
            Some(json) => {
                let doc = parse_json_doc(json.as_str())?;
                Ok(
                    ColOp::Put {
                        collection: op.collection.clone(),
                        id: op.id.clone(),
                        doc,
                        expected_version: match op.expected_version {
                            Some(version) => Some(to_unsigned(version)),
                            None => None,
                        },
                    },
                )
            },
        }
    } else if text_same(op.op.as_str(), "delete") {
        Ok(ColOp::Delete { collection: op.collection.clone(), id: op.id.clone() })
    } else {
        Err(
            join3(
                "unknown batch op: ",
                op.op.as_str(),
                " (expected \"put\" or \"delete\")",
            ),
        )
    }
}

/// Turns a caller's batch into operations on collections; the first bad one refuses the
/// whole batch.
pub fn js_to_col_ops(ops: &Vec<JsColOp>) -> (r: Result<Vec<ColOp>, String>)
    ensures
        match r {
            Ok(found) => ops_of(ops@, ops@.len()) == Ok::<Seq<OpModel>, Seq<char>>(
                found.deep_view(),
            ),
            Err(message) => ops_of(ops@, ops@.len()) == Err::<Seq<OpModel>, Seq<char>>(message@),
        },
{
    let mut parsed: Vec<ColOp> = Vec::new();
    let mut i: usize = 0;
    assert(parsed.deep_view() =~= Seq::empty());
    while i < ops.len()
        invariant
            i <= ops.len(),
            ops_of(ops@, i as nat) == Ok::<Seq<OpModel>, Seq<char>>(parsed.deep_view()),
        decreases ops.len() - i,
    {
        let ghost was = parsed.deep_view();
        assert((i + 1 - 1) as nat == i as nat);
        match js_to_col_op(&ops[i]) {
            Ok(op) => {
                let ghost shown = op.deep_view();
                parsed.push(op);
                assert(parsed.deep_view() =~= was.push(shown));
            },
            Err(message) => {
                proof {
                    lemma_bad_op(ops@, (i + 1) as nat, ops@.len());
                }
                return Err(message);
            },
        }
        i += 1;
    }
    Ok(parsed)
}

proof fn lemma_names_differ()
    ensures
        "Fact"@ == EventKindTag::Fact.text(),
        "StateTransition"@ == EventKindTag::StateTransition.text(),
        "MemoryInvalidate"@ == EventKindTag::MemoryInvalidate.text(),
        "ToolCall"@ == EventKindTag::ToolCall.text(),
        "ConsentGranted"@ == EventKindTag::ConsentGranted.text(),
        "ConsentRevoked"@ == EventKindTag::ConsentRevoked.text(),
        "IntentLogged"@ == EventKindTag::IntentLogged.text(),
        "LearningProposal"@ == EventKindTag::LearningProposal.text(),
        forall|a: EventKindTag, b: EventKindTag|
            #[trigger] a.text() == #[trigger] b.text() ==> a == b,
{
    lemma_kind_names();
}

/// The text in a field of the payload.
pub open spec fn said(payload: JsonModel, field: Seq<char>) -> Option<Seq<char>> {
    match payload.field(field) {
        Some(JsonModel::String(text)) => Some(text),
        _ => None,
    }
}

/// The unsigned number in a field of the payload.
pub open spec fn counted(payload: JsonModel, field: Seq<char>) -> Option<u64> {
    match payload.field(field) {
        Some(JsonModel::Number(number)) => number.unsigned,
        _ => None,
    }
}

/// The text of a grant's scope: in the object under `scope`, or else in the payload itself.
pub open spec fn said_in_scope(payload: JsonModel, field: Seq<char>) -> Option<Seq<char>> {
    match payload.field("scope"@) {
        Some(scope) => match said(scope, field) {
            Some(text) => Some(text),
            None => said(payload, field),
        },
        None => said(payload, field),
    }
}

/// A named kind of event takes what it needs from the payload: it is accepted exactly if the
/// payload has everything, each under its own name, and an unknown name never is.
pub proof fn law_kinds_take_what_they_need(name: Seq<char>, payload: JsonModel)
    ensures
        name == "Fact"@ ==> kind_of(name, payload) == Ok::<KindModel, Seq<char>>(KindModel::Fact),
        name == "StateTransition"@ ==> kind_of(name, payload) == Ok::<KindModel, Seq<char>>(
            KindModel::StateTransition,
        ),
        name == "LearningProposal"@ ==> kind_of(name, payload) == Ok::<KindModel, Seq<char>>(
            KindModel::LearningProposal,
        ),
        name == "MemoryInvalidate"@ ==> match kind_of(name, payload) {
            Ok(kind) => kind is MemoryInvalidate && counted(payload, "target_seq"@) == Some(
                kind->target_seq,
            ),
            Err(_) => counted(payload, "target_seq"@) is None,
        },
        name == "ConsentRevoked"@ ==> match kind_of(name, payload) {
            Ok(kind) => kind is ConsentRevoked && counted(payload, "grant_seq"@) == Some(
                kind->grant_seq,
            ),
            Err(_) => counted(payload, "grant_seq"@) is None,
        },
        name == "ToolCall"@ ==> match kind_of(name, payload) {
            Ok(kind) => kind is ToolCall && said(payload, "tool"@) == Some(kind->tool),
            Err(_) => said(payload, "tool"@) is None,
        },
        name == "ConsentGranted"@ ==> match kind_of(name, payload) {
            Ok(kind) => {
                &&& kind is ConsentGranted
                &&& said(payload, "from"@) == Some(kind->from)
                &&& said(payload, "to"@) == Some(kind->to)
                &&& said_in_scope(payload, "action"@) == Some(kind->scope.action)
                &&& said_in_scope(payload, "resource"@) == Some(kind->scope.resource)
                &&& kind->expires == counted(payload, "expires"@)
            },
            Err(_) => said(payload, "from"@) is None || said(payload, "to"@) is None
                || said_in_scope(payload, "action"@) is None || said_in_scope(
                payload,
                "resource"@,
            ) is None,
        },
        name == "IntentLogged"@ ==> match kind_of(name, payload) {
            Ok(kind) => {
                &&& kind is IntentLogged
                &&& said(payload, "actor"@) == Some(kind->actor)
                &&& said(payload, "intent"@) == Some(kind->intent)
                &&& kind->authorized_by == counted(payload, "authorized_by"@)
            },
            Err(_) => said(payload, "actor"@) is None || said(payload, "intent"@) is None,
        },
        kind_of(name, payload) matches Ok(kind) ==> kind.tag().text() == name,
{
    lemma_names_differ();
}

/// A caller's event carries over: the agent, the stream and the cause as given, the payload
/// as parsed, the kind as named, and the correlation as the UUID says. It is refused exactly
/// if one of the last three cannot be had.
pub proof fn law_inputs_carry_over(input: JsEventInput)
    ensures
        match input_of(input) {
            Ok(made) => {
                &&& made.agent_id == input.agent_id@
                &&& made.stream_id == input.stream_id@
                &&& parsed_json(input.payload@) == Ok::<JsonModel, Seq<char>>(made.payload)
                &&& kind_of(input.kind@, made.payload) == Ok::<KindModel, Seq<char>>(made.kind)
                &&& match input.causation {
                    Some(seq) => made.causation is Some && (seq >= 0 ==> made.causation->0 == seq),
                    None => made.causation is None,
                }
                &&& match input.correlation {
                    Some(text) => made.correlation is Some && parsed_uuid(text@) == Ok::<
                        u128,
                        Seq<char>,
                    >(made.correlation->0),
                    None => made.correlation is None,
                }
            },
            Err(_) => {
                ||| parsed_json(input.payload@) is Err
                ||| kind_of(input.kind@, parsed_json(input.payload@)->Ok_0) is Err
                ||| input.correlation is Some && parsed_uuid(input.correlation->0@) is Err
            },
        },
{
}

/// A caller's pattern carries over: what it names is asked for, what it leaves out is not,
/// and the kind is the one of that name.
pub proof fn law_patterns_carry_over(pattern: JsEventPattern)
    requires
        pattern_of(pattern) is Ok,
    ensures
        ({
            let made = pattern_of(pattern)->Ok_0;
            &&& made.agent_id is Some <==> pattern.agent_id is Some
            &&& pattern.agent_id matches Some(agent) ==> made.agent_id == Some(agent@)
            &&& made.stream_id is Some <==> pattern.stream_id is Some
            &&& pattern.stream_id matches Some(stream) ==> made.stream_id == Some(stream@)
            &&& made.kind is Some <==> pattern.kind is Some
            &&& pattern.kind matches Some(kind) ==> made.kind->0.text() == kind@
            &&& made.predicate is Some <==> pattern.predicate is Some
            &&& pattern.predicate matches Some(asked) ==> {
                let predicate = made.predicate->0;
                &&& predicate is Always <==> asked.kind@ == "Always"@
                &&& predicate is Eq <==> asked.kind@ == "Eq"@
                &&& predicate is Contains <==> asked.kind@ == "Contains"@
                &&& predicate is Eq || predicate is Contains ==> asked.path is Some
                    && asked.value is Some
                &&& predicate matches PredicateModel::Eq { path, value } ==> path == asked.path->0@
                    && parsed_json(asked.value->0@) == Ok::<JsonModel, Seq<char>>(value)
                &&& predicate matches PredicateModel::Contains { path, value } ==> path
                    == asked.path->0@ && parsed_json(asked.value->0@) == Ok::<
                    JsonModel,
                    Seq<char>,
                >(value)
            }
        }),
{
    lemma_names_differ();
    reveal_strlit("Always");
    reveal_strlit("Eq");
    reveal_strlit("Contains");
    assert("Always"@.len() != "Eq"@.len() && "Always"@.len() != "Contains"@.len() && "Eq"@.len()
        != "Contains"@.len());
}

/// A caller's batch carries over operation by operation, in order: puts with their document
/// and expected version, deletes without. It is refused as a whole where one cannot be
/// read.
pub proof fn law_batches_carry_over(ops: Seq<JsColOp>)
    ensures
        match ops_of(ops, ops.len()) {
            Ok(made) => {
                &&& made.len() == ops.len()
                &&& forall|i: int|
                    0 <= i < ops.len() ==> match #[trigger] made[i] {
                        OpModel::Put { collection, id, doc, expected_version } => {
                            &&& ops[i].op@ == "put"@
                            &&& collection == ops[i].collection@
                            &&& id == ops[i].id@
                            &&& ops[i].json is Some
                            &&& parsed_json(ops[i].json->0@) == Ok::<JsonModel, Seq<char>>(doc)
                            &&& expected_version is Some <==> ops[i].expected_version is Some
                            &&& ops[i].expected_version matches Some(version) ==> version >= 0
                                ==> expected_version->0 == version
                        },
                        OpModel::Delete { collection, id } => {
                            &&& ops[i].op@ == "delete"@
                            &&& collection == ops[i].collection@
                            &&& id == ops[i].id@
                        },
                    }
            },
            Err(_) => exists|i: int| 0 <= i < ops.len() && !can_be_read(#[trigger] ops[i]),
        },
{
    lemma_ops_carry_over(ops, ops.len());
}

/// An operation that a caller gives can be read.
pub open spec fn can_be_read(op: JsColOp) -> bool {
    ||| op.op@ == "delete"@
    ||| op.op@ == "put"@ && op.json is Some && parsed_json(op.json->0@) is Ok
}

proof fn lemma_ops_carry_over(ops: Seq<JsColOp>, n: nat)
    requires
        n <= ops.len(),
    ensures
        match ops_of(ops, n) {
            Ok(made) => {
                &&& made.len() == n
                &&& forall|i: int|
                    0 <= i < n ==> match #[trigger] made[i] {
                        OpModel::Put { collection, id, doc, expected_version } => {
                            &&& ops[i].op@ == "put"@
                            &&& collection == ops[i].collection@
                            &&& id == ops[i].id@
                            &&& ops[i].json is Some
                            &&& parsed_json(ops[i].json->0@) == Ok::<JsonModel, Seq<char>>(doc)
                            &&& expected_version is Some <==> ops[i].expected_version is Some
                            &&& ops[i].expected_version matches Some(version) ==> version >= 0
                                ==> expected_version->0 == version
                        },
                        OpModel::Delete { collection, id } => {
                            &&& ops[i].op@ == "delete"@
                            &&& collection == ops[i].collection@
                            &&& id == ops[i].id@
                        },
                    }
            },
            Err(_) => exists|i: int| 0 <= i < n && !can_be_read(#[trigger] ops[i]),
        },
    decreases n,
{
    reveal_strlit("put");
    reveal_strlit("delete");
    assert("put"@.len() != "delete"@.len());
    if n > 0 {
        lemma_ops_carry_over(ops, (n - 1) as nat);
        match ops_of(ops, (n - 1) as nat) {
            Err(_) => {
                let i = choose|i: int| 0 <= i < n - 1 && !can_be_read(#[trigger] ops[i]);
                assert(!can_be_read(ops[i]));
            },
            Ok(before) => {
                if op_of(ops[n - 1]) is Err {
                    assert(!can_be_read(ops[n - 1]));
                }
            },
        }
    }
}

/// Numbers that a caller can write without a sign keep their value in both directions, and
/// every number comes back as it went out.
pub proof fn law_numbers_keep_their_value(value: i64, other: u64)
    ensures
        value >= 0 ==> unsigned(value) == value,
        other <= i64::MAX ==> signed(other) == other,
        signed(unsigned(value)) == value,
        unsigned(signed(other)) == other,
{
}

/// A fusion is by reciprocal ranks, with the constant that is asked for or sixty; another
/// kind is refused. A boost that is not asked for is the usual one.
pub proof fn law_query_options_carry_over(
    fusion: Option<JsFusion>,
    boosts: Option<JsFieldBoosts>,
)
    ensures
        match fusion {
            None => fusion_of(fusion) == Ok::<Fusion, Seq<char>>(Fusion::Rrf { k: 60 }),
            Some(asked) => {
                &&& fusion_of(fusion) is Ok <==> asked.kind@ == "rrf"@
                &&& fusion_of(fusion) is Ok ==> fusion_of(fusion)->Ok_0 == (Fusion::Rrf {
                    k: match asked.k {
                        Some(k) => k as usize,
                        None => 60,
                    },
                })
            },
        },
        boosts is None <==> boosts_of(boosts) is None,
        boosts matches Some(asked) ==> {
            let made = boosts_of(boosts)->0;
            &&& asked.name matches Some(boost) ==> made.name == boost
            &&& asked.body matches Some(boost) ==> made.body == boost
            &&& asked.tags matches Some(boost) ==> made.tags == boost
            &&& asked.name is None ==> made.name == FieldBoosts::usual().name
            &&& asked.body is None ==> made.body == FieldBoosts::usual().body
            &&& asked.tags is None ==> made.tags == FieldBoosts::usual().tags
        },
{
}

/// A UUID is written in five groups with hyphens between them, and hexadecimal digits
/// everywhere else.
pub proof fn law_uuids_are_hyphenated(value: u128, i: int)
    requires
        0 <= i < 36,
    ensures
        hyphenated(value).len() == 36,
        hyphenated(value)[i] == '-' <==> i == 8 || i == 13 || i == 18 || i == 23,
{
    assert forall|k: int| #[trigger] hex_place(value, k) != '-' by {
        let d = (value as int / vstd::arithmetic::power::pow(16, (31 - k) as nat)) % 16;
        assert(0 <= d < 16);
    }
}

/// The filters that a caller gives are taken as they are, and missing ones are none.
pub proof fn law_filters_carry_over(filters: Option<Vec<JsScalarFilter>>)
    ensures
        filters is None ==> filters_of(filters).len() == 0,
        filters matches Some(given) ==> filters_of(filters) == given.deep_view(),
{
}

} // verus!
