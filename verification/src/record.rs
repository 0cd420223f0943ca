//! Events as records of named fields: how a stored event is put together again.

use crate::event::{AgentId, Event, EventKind, EventModel, KindModel, StreamId};
use crate::json::{
    is_exact, json_text, parse_json, parsed_json, reads_back, Json, JsonModel, DEEPEST_JSON,
};
use vstd::prelude::*;

verus! {

/// The fields of an event record, in the order in which they are written.
#[derive(Clone, Copy, Debug, PartialEq, Eq, Structural)]
pub enum FieldName {
    SeqNo,
    AgentId,
    StreamId,
    Kind,
    Timestamp,
    Causation,
    Correlation,
    Payload,
}

/// One field of an event record. The payload is written as JSON text.
#[derive(Debug)]
pub enum EventField {
    SeqNo(u64),
    AgentId(AgentId),
    StreamId(StreamId),
    Kind(EventKind),
    Timestamp(u64),
    Causation(Option<u64>),
    Correlation(Option<u128>),
    Payload(String),
}

/// Why a record is not an event.
#[derive(Debug)]
pub enum RecordError {
    /// A field comes twice.
    Duplicate(FieldName),
    /// A field does not come.
    Missing(FieldName),
    /// The record ends at this position.
    Length(usize),
    /// The payload is not JSON; the message says why.
    Payload(String),
}

#[verifier::ext_equal]
pub enum FieldModel {
    SeqNo(u64),
    AgentId(Seq<char>),
    StreamId(Seq<char>),
    Kind(KindModel),
    Timestamp(u64),
    Causation(Option<u64>),
    Correlation(Option<u128>),
    Payload(Seq<char>),
}

#[verifier::ext_equal]
pub enum RecordErrorModel {
    Duplicate(FieldName),
    Missing(FieldName),
    Length(usize),
    Payload(Seq<char>),
}

impl DeepView for EventField {
    type V = FieldModel;

    open spec fn deep_view(&self) -> FieldModel {
        match self {
            EventField::SeqNo(v) => FieldModel::SeqNo(*v),
            EventField::AgentId(v) => FieldModel::AgentId(v.deep_view()),
            EventField::StreamId(v) => FieldModel::StreamId(v.deep_view()),
            EventField::Kind(v) => FieldModel::Kind(v.deep_view()),
            EventField::Timestamp(v) => FieldModel::Timestamp(*v),
            EventField::Causation(v) => FieldModel::Causation(*v),
            EventField::Correlation(v) => FieldModel::Correlation(*v),
            EventField::Payload(v) => FieldModel::Payload(v@),
        }
    }
}

impl DeepView for RecordError {
    type V = RecordErrorModel;

    open spec fn deep_view(&self) -> RecordErrorModel {
        match self {
            RecordError::Duplicate(name) => RecordErrorModel::Duplicate(*name),
            RecordError::Missing(name) => RecordErrorModel::Missing(*name),
            RecordError::Length(at) => RecordErrorModel::Length(*at),
            RecordError::Payload(why) => RecordErrorModel::Payload(why@),
        }
    }
}

/// An event of which some fields are known.
#[derive(Debug)]
pub struct EventDraft {
    pub seq: Option<u64>,
    pub agent_id: Option<AgentId>,
    pub stream_id: Option<StreamId>,
    pub kind: Option<EventKind>,
    pub timestamp: Option<u64>,
    pub causation: Option<Option<u64>>,
    pub correlation: Option<Option<u128>>,
    pub payload: Option<Json>,
}

#[verifier::ext_equal]
pub struct DraftModel {
    pub seq: Option<u64>,
    pub agent_id: Option<Seq<char>>,
    pub stream_id: Option<Seq<char>>,
    pub kind: Option<KindModel>,
    pub timestamp: Option<u64>,
    pub causation: Option<Option<u64>>,
    pub correlation: Option<Option<u128>>,
    pub payload: Option<JsonModel>,
}

impl DeepView for EventDraft {
    type V = DraftModel;

    open spec fn deep_view(&self) -> DraftModel {
        DraftModel {
            seq: self.seq,
            agent_id: self.agent_id.deep_view(),
            stream_id: self.stream_id.deep_view(),
            kind: self.kind.deep_view(),
            timestamp: self.timestamp,
            causation: self.causation,
            correlation: self.correlation,
            payload: self.payload.deep_view(),
        }
    }
}

impl DraftModel {
    /// Nothing is known yet.
    pub open spec fn blank() -> DraftModel {
        DraftModel {
            seq: None,
            agent_id: None,
            stream_id: None,
            kind: None,
            timestamp: None,
            causation: None,
            correlation: None,
            payload: None,
        }
    }

    /// Whether a field is known.
    pub open spec fn knows(self, name: FieldName) -> bool {
        match name {
            FieldName::SeqNo => self.seq is Some,
            FieldName::AgentId => self.agent_id is Some,
            FieldName::StreamId => self.stream_id is Some,
            FieldName::Kind => self.kind is Some,
            FieldName::Timestamp => self.timestamp is Some,
            FieldName::Causation => self.causation is Some,
            FieldName::Correlation => self.correlation is Some,
            FieldName::Payload => self.payload is Some,
        }
    }

    /// The draft once `field` has come: a field comes once, and the payload is
    /// JSON.
    pub open spec fn accept(self, field: FieldModel) -> Result<DraftModel, RecordErrorModel> {
        if self.knows(field.name()) {
            Err(RecordErrorModel::Duplicate(field.name()))
        } else {
            match field {
                FieldModel::SeqNo(v) => Ok(DraftModel { seq: Some(v), ..self }),
                FieldModel::AgentId(v) => Ok(DraftModel { agent_id: Some(v), ..self }),
                FieldModel::StreamId(v) => Ok(DraftModel { stream_id: Some(v), ..self }),
                FieldModel::Kind(v) => Ok(DraftModel { kind: Some(v), ..self }),
                FieldModel::Timestamp(v) => Ok(DraftModel { timestamp: Some(v), ..self }),
                FieldModel::Causation(v) => Ok(DraftModel { causation: Some(v), ..self }),
                FieldModel::Correlation(v) => Ok(DraftModel { correlation: Some(v), ..self }),
                FieldModel::Payload(text) => match parsed_json(text) {
                    Ok(v) => Ok(DraftModel { payload: Some(v), ..self }),
                    Err(why) => Err(RecordErrorModel::Payload(why)),
                },
            }
        }
    }

    /// The draft once the first `n` fields have come.
    pub open spec fn accept_first(self, fields: Seq<FieldModel>, n: nat) -> Result<
        DraftModel,
        RecordErrorModel,
    >
        decreases n,
    {
        if n == 0 {
            Ok(self)
        } else {
            match self.accept_first(fields, (n - 1) as nat) {
                Ok(draft) => draft.accept(fields[n - 1]),
                Err(e) => Err(e),
            }
        }
    }

    /// The first field, in record order, that is not known, with its position.
    pub open spec fn gap(self) -> Option<(usize, FieldName)> {
        if self.seq is None {
            Some((0, FieldName::SeqNo))
        } else if self.agent_id is None {
            Some((1, FieldName::AgentId))
        } else if self.stream_id is None {
            Some((2, FieldName::StreamId))
        } else if self.kind is None {
            Some((3, FieldName::Kind))
        } else if self.timestamp is None {
            Some((4, FieldName::Timestamp))
        } else if self.causation is None {
            Some((5, FieldName::Causation))
        } else if self.correlation is None {
            Some((6, FieldName::Correlation))
        } else if self.payload is None {
            Some((7, FieldName::Payload))
        } else {
            None
        }
    }

    /// The event of a draft without a gap.
    pub open spec fn event(self) -> EventModel {
        EventModel {
            seq: self.seq->0,
            agent_id: self.agent_id->0,
            stream_id: self.stream_id->0,
            kind: self.kind->0,
            timestamp: self.timestamp->0,
            causation: self.causation->0,
            correlation: self.correlation->0,
            payload: self.payload->0,
        }
    }
}

impl FieldModel {
    pub open spec fn name(self) -> FieldName {
        match self {
            FieldModel::SeqNo(_) => FieldName::SeqNo,
            FieldModel::AgentId(_) => FieldName::AgentId,
            FieldModel::StreamId(_) => FieldName::StreamId,
            FieldModel::Kind(_) => FieldName::Kind,
            FieldModel::Timestamp(_) => FieldName::Timestamp,
            FieldModel::Causation(_) => FieldName::Causation,
            FieldModel::Correlation(_) => FieldName::Correlation,
            FieldModel::Payload(_) => FieldName::Payload,
        }
    }
}

/// The record of an event: every field once, in order.
pub open spec fn record_of(event: EventModel) -> Seq<FieldModel> {
    seq![
        FieldModel::SeqNo(event.seq),
        FieldModel::AgentId(event.agent_id),
        FieldModel::StreamId(event.stream_id),
        FieldModel::Kind(event.kind),
        FieldModel::Timestamp(event.timestamp),
        FieldModel::Causation(event.causation),
        FieldModel::Correlation(event.correlation),
        FieldModel::Payload(json_text(event.payload)),
    ]
}

/// What a record of named fields stands for.
pub open spec fn event_of_record(fields: Seq<FieldModel>) -> Result<EventModel, RecordErrorModel> {
    match DraftModel::blank().accept_first(fields, fields.len()) {
        Ok(draft) => match draft.gap() {
            None => Ok(draft.event()),
            Some((_, name)) => Err(RecordErrorModel::Missing(name)),
        },
        Err(e) => Err(e),
    }
}

/// Reading a record gives back the event that was written, for every payload
/// that survives being written as JSON text and parsed again.
pub proof fn law_record_round_trip(event: EventModel)
    requires
        parsed_json(json_text(event.payload)) == Ok::<JsonModel, Seq<char>>(event.payload),
    ensures
        event_of_record(record_of(event)) == Ok::<EventModel, RecordErrorModel>(event),
{
    reveal_with_fuel(DraftModel::accept_first, 9);
}

/// The fields before the payload are all taken in, and the payload is then unknown.
proof fn lemma_record_prefix(event: EventModel, n: nat)
    requires
        n <= 7,
    ensures
        DraftModel::blank().accept_first(record_of(event), n) is Ok,
        !DraftModel::blank().accept_first(record_of(event), n)->Ok_0.knows(FieldName::Payload),
{
    reveal_with_fuel(DraftModel::accept_first, 9);
}

/// A payload's text is read back.
pub open spec fn payload_reads_back(field: FieldModel) -> bool {
    match field {
        FieldModel::Payload(text) => reads_back(text),
        _ => true,
    }
}

impl EventDraft {
    /// A draft of which nothing is known.
    pub fn blank() -> (r: Self)
        ensures
            r.deep_view() == DraftModel::blank(),
    {
        EventDraft {
            seq: None,
            agent_id: None,
            stream_id: None,
            kind: None,
            timestamp: None,
            causation: None,
            correlation: None,
            payload: None,
        }
    }

    /// Takes in one field. A draft that refuses a field keeps what it knew.
    pub fn accept(&mut self, field: EventField) -> (r: Result<(), RecordError>)
        ensures
            match r {
                Ok(_) => old(self).deep_view().accept(field.deep_view()) == Ok::<
                    DraftModel,
                    RecordErrorModel,
                >(final(self).deep_view()),
                Err(e) => old(self).deep_view().accept(field.deep_view()) == Err::<
                    DraftModel,
                    RecordErrorModel,
                >(e.deep_view()) && final(self).deep_view() == old(self).deep_view(),
            },
            !old(self).deep_view().knows(FieldName::Payload) ==> payload_reads_back(
                field.deep_view(),
            ),
    {
        match field {
            EventField::SeqNo(v) => {
                if self.seq.is_some() {
                    return Err(RecordError::Duplicate(FieldName::SeqNo));
                }
                self.seq = Some(v);
            },
            EventField::AgentId(v) => {
                if self.agent_id.is_some() {
                    return Err(RecordError::Duplicate(FieldName::AgentId));
                }
                self.agent_id = Some(v);
            },
            EventField::StreamId(v) => {
                if self.stream_id.is_some() {
                    return Err(RecordError::Duplicate(FieldName::StreamId));
                }
                self.stream_id = Some(v);
            },
            EventField::Kind(v) => {
                if self.kind.is_some() {
                    return Err(RecordError::Duplicate(FieldName::Kind));
                }
                self.kind = Some(v);
            },
            EventField::Timestamp(v) => {
                if self.timestamp.is_some() {
                    return Err(RecordError::Duplicate(FieldName::Timestamp));
                }
                self.timestamp = Some(v);
            },
            EventField::Causation(v) => {
                if self.causation.is_some() {
                    return Err(RecordError::Duplicate(FieldName::Causation));
                }
                self.causation = Some(v);
            },
            EventField::Correlation(v) => {
                if self.correlation.is_some() {
                    return Err(RecordError::Duplicate(FieldName::Correlation));
                }
                self.correlation = Some(v);
            },
            EventField::Payload(text) => {
                if self.payload.is_some() {
                    return Err(RecordError::Duplicate(FieldName::Payload));
                }
                match parse_json(text.as_str()) {
                    Ok(v) => {
                        self.payload = Some(v);
                    },
                    Err(why) => {
                        return Err(RecordError::Payload(why));
                    },
                }
            },
        }
        Ok(())
    }

    /// The first field, in record order, that is not known, with its position.
    pub fn gap(&self) -> (r: Option<(usize, FieldName)>)
        ensures
            r == self.deep_view().gap(),
    {
        if self.seq.is_none() {
            Some((0, FieldName::SeqNo))
        } else if self.agent_id.is_none() {
            Some((1, FieldName::AgentId))
        } else if self.stream_id.is_none() {
            Some((2, FieldName::StreamId))
        } else if self.kind.is_none() {
            Some((3, FieldName::Kind))
        } else if self.timestamp.is_none() {
            Some((4, FieldName::Timestamp))
        } else if self.causation.is_none() {
            Some((5, FieldName::Causation))
        } else if self.correlation.is_none() {
            Some((6, FieldName::Correlation))
        } else if self.payload.is_none() {
            Some((7, FieldName::Payload))
        } else {
            None
        }
    }

    /// The event, if every field is known.
    fn complete(self) -> (r: Option<Event>)
        ensures
            match r {
                Some(event) => self.deep_view().gap() is None && event.deep_view()
                    == self.deep_view().event(),
                None => self.deep_view().gap() is Some,
            },
    {
        match (self.seq, self.agent_id, self.stream_id, self.kind) {
            (Some(seq), Some(agent_id), Some(stream_id), Some(kind)) => match (
                self.timestamp,
                self.causation,
                self.correlation,
                self.payload,
            ) {
                (Some(timestamp), Some(causation), Some(correlation), Some(payload)) => Some(
                    Event {
                        seq,
                        agent_id,
                        stream_id,
                        kind,
                        timestamp,
                        causation,
                        correlation,
                        payload,
                    },
                ),
                _ => None,
            },
            _ => None,
        }
    }

    /// The event of a record of named fields; the first missing field is an
    /// error.
    pub fn finish(self) -> (r: Result<Event, RecordError>)
        ensures
            match r {
                Ok(event) => self.deep_view().gap() is None && event.deep_view()
                    == self.deep_view().event(),
                Err(e) => match self.deep_view().gap() {
                    Some((_, name)) => e.deep_view() == RecordErrorModel::Missing(name),
                    None => false,
                },
            },
    {
        let gap = self.gap();
        match self.complete() {
            Some(event) => Ok(event),
            None => match gap {
                Some((_, name)) => Err(RecordError::Missing(name)),
                None => Err(RecordError::Length(0)),
            },
        }
    }

    /// The event of a record of positional fields; where the record ends early,
    /// the position of the first missing field is the error.
    pub fn finish_sequence(self) -> (r: Result<Event, RecordError>)
        ensures
            match r {
                Ok(event) => self.deep_view().gap() is None && event.deep_view()
                    == self.deep_view().event(),
                Err(e) => match self.deep_view().gap() {
                    Some((at, _)) => e.deep_view() == RecordErrorModel::Length(at),
                    None => false,
                },
            },
    {
        let gap = self.gap();
        match self.complete() {
            Some(event) => Ok(event),
            None => match gap {
                Some((at, _)) => Err(RecordError::Length(at)),
                None => Err(RecordError::Length(0)),
            },
        }
    }
}

impl Event {
    /// The event's record: every field once, in order.
    pub fn to_record(&self) -> (r: Vec<EventField>)
        ensures
            r.deep_view() == record_of(self.deep_view()),
    {
        let mut out: Vec<EventField> = Vec::new();
        out.push(EventField::SeqNo(self.seq));
        out.push(EventField::AgentId(self.agent_id.clone()));
        out.push(EventField::StreamId(self.stream_id.clone()));
        out.push(EventField::Kind(self.kind.clone()));
        out.push(EventField::Timestamp(self.timestamp));
        out.push(EventField::Causation(self.causation));
        out.push(EventField::Correlation(self.correlation));
        out.push(EventField::Payload(self.payload.to_text()));
        assert(out.deep_view() =~= record_of(self.deep_view()));
        out
    }

    /// The event that a record of named fields stands for. The fields may come
    /// in any order. From the record of an event it is the event again.
    pub fn from_record(fields: Vec<EventField>) -> (r: Result<Event, RecordError>)
        ensures
            match r {
                Ok(event) => event_of_record(fields.deep_view()) == Ok::<
                    EventModel,
                    RecordErrorModel,
                >(event.deep_view()),
                Err(e) => event_of_record(fields.deep_view()) == Err::<
                    EventModel,
                    RecordErrorModel,
                >(e.deep_view()),
            },
            forall|event: EventModel|
                fields.deep_view() == #[trigger] record_of(event) && is_exact(
                    event.payload,
                    DEEPEST_JSON as nat,
                ) ==> r is Ok && r->Ok_0.deep_view() == event,
    {
        let ghost all = fields.deep_view();
        let ghost raw = fields@;
        let ghost blank = DraftModel::blank();
        let mut draft = EventDraft::blank();
        for field in it: fields.into_iter()
            invariant
                it.seq() == raw,
                all == fields.deep_view(),
                all.len() == raw.len(),
                forall|i: int| 0 <= i < raw.len() ==> #[trigger] all[i] == raw[i].deep_view(),
                blank == DraftModel::blank(),
                blank.accept_first(all, it.index() as nat) == Ok::<DraftModel, RecordErrorModel>(
                    draft.deep_view(),
                ),
                forall|i: int| 0 <= i < it.index() ==> payload_reads_back(#[trigger] all[i]),
        {
            let ghost at = it.index() as nat;
            match draft.accept(field) {
                Ok(_) => {},
                Err(e) => {
                    proof {
                        assert(blank.accept_first(all, at + 1) is Err);
                        lemma_refused(blank, all, at + 1, all.len());
                        assert forall|event: EventModel|
                            all == #[trigger] record_of(event) && is_exact(
                                event.payload,
                                DEEPEST_JSON as nat,
                            ) implies false by {
                            if at < 7 {
                                lemma_record_prefix(event, at + 1);
                            } else {
                                lemma_record_prefix(event, at);
                                assert(all[at as int] == FieldModel::Payload(
                                    json_text(event.payload),
                                ));
                                law_record_round_trip(event);
                            }
                        }
                    }
                    return Err(e);
                },
            }
        }
        proof {
            assert forall|event: EventModel|
                all == #[trigger] record_of(event) && is_exact(
                    event.payload,
                    DEEPEST_JSON as nat,
                ) implies event_of_record(all) == Ok::<EventModel, RecordErrorModel>(event) by {
                assert(payload_reads_back(all[7]));
                law_record_round_trip(event);
            }
        }
        draft.finish()
    }
}

proof fn lemma_refused(draft: DraftModel, fields: Seq<FieldModel>, from: nat, to: nat)
    requires
        from <= to,
        draft.accept_first(fields, from) is Err,
    ensures
        draft.accept_first(fields, to) == draft.accept_first(fields, from),
    decreases to,
{
    if from < to {
        lemma_refused(draft, fields, from, (to - 1) as nat);
    }
}

/// The fields known so far are those that came, each once, each with its value.
spec fn is_made_of(draft: DraftModel, fields: Seq<FieldModel>, n: int) -> bool {
    &&& forall|i: int, j: int|
        0 <= i < j < n ==> (#[trigger] fields[i]).name() != (#[trigger] fields[j]).name()
    &&& forall|name: FieldName| #[trigger]
        draft.knows(name) <==> exists|i: int| 0 <= i < n && (#[trigger] fields[i]).name() == name
    &&& forall|i: int| 0 <= i < n ==> has_value(draft, #[trigger] fields[i])
}

/// A draft has the value that a field gives.
spec fn has_value(draft: DraftModel, field: FieldModel) -> bool {
    match field {
        FieldModel::SeqNo(v) => draft.seq == Some(v),
        FieldModel::AgentId(v) => draft.agent_id == Some(v),
        FieldModel::StreamId(v) => draft.stream_id == Some(v),
        FieldModel::Kind(v) => draft.kind == Some(v),
        FieldModel::Timestamp(v) => draft.timestamp == Some(v),
        FieldModel::Causation(v) => draft.causation == Some(v),
        FieldModel::Correlation(v) => draft.correlation == Some(v),
        FieldModel::Payload(text) => draft.payload is Some && parsed_json(text) == Ok::<
            JsonModel,
            Seq<char>,
        >(draft.payload->0),
    }
}

proof fn lemma_made_of(fields: Seq<FieldModel>, n: nat)
    requires
        n <= fields.len(),
        DraftModel::blank().accept_first(fields, n) is Ok,
    ensures
        is_made_of(DraftModel::blank().accept_first(fields, n)->Ok_0, fields, n as int),
    decreases n,
{
    let draft = DraftModel::blank().accept_first(fields, n)->Ok_0;
    if n > 0 {
        lemma_made_of(fields, (n - 1) as nat);
        let before = DraftModel::blank().accept_first(fields, (n - 1) as nat)->Ok_0;
        let last = fields[n - 1];
        assert(before.accept(last) is Ok && before.accept(last)->Ok_0 == draft);
        assert(!before.knows(last.name()));
        assert forall|i: int, j: int| 0 <= i < j < n implies (#[trigger] fields[i]).name() != (
        #[trigger] fields[j]).name() by {
            if j == n - 1 && fields[i].name() == fields[j].name() {
                assert(before.knows(fields[i].name()));
            }
        }
        assert forall|name: FieldName| #[trigger] draft.knows(name) <==> exists|i: int|
            0 <= i < n && (#[trigger] fields[i]).name() == name by {
            assert(draft.knows(name) <==> before.knows(name) || name == last.name());
            if before.knows(name) {
                let i = choose|i: int| 0 <= i < n - 1 && (#[trigger] fields[i]).name() == name;
                assert(fields[i].name() == name);
            }
            if exists|i: int| 0 <= i < n && (#[trigger] fields[i]).name() == name {
                let i = choose|i: int| 0 <= i < n && (#[trigger] fields[i]).name() == name;
                if i < n - 1 {
                    assert(before.knows(name));
                }
            }
        }
        assert forall|i: int| 0 <= i < n implies has_value(draft, #[trigger] fields[i]) by {
            if i < n - 1 {
                assert(has_value(before, fields[i]));
                assert(before.knows(fields[i].name()));
            }
        }
    }
}

/// A field of that name comes in the record.
pub open spec fn comes_in(name: FieldName, fields: Seq<FieldModel>) -> bool {
    exists|i: int| 0 <= i < fields.len() && (#[trigger] fields[i]).name() == name
}

/// A record stands for an event only if every field comes, and comes once; the event has
/// the values of the fields, whatever their order, and its payload is what the JSON text
/// says.
pub proof fn law_records_hold_every_field_once(fields: Seq<FieldModel>)
    requires
        event_of_record(fields) is Ok,
    ensures
        ({
            let event = event_of_record(fields)->Ok_0;
            &&& forall|i: int, j: int|
                0 <= i < j < fields.len() ==> (#[trigger] fields[i]).name() != (
                #[trigger] fields[j]).name()
            &&& forall|name: FieldName| #[trigger] comes_in(name, fields)
            &&& forall|i: int|
                0 <= i < fields.len() ==> match #[trigger] fields[i] {
                    FieldModel::SeqNo(v) => event.seq == v,
                    FieldModel::AgentId(v) => event.agent_id == v,
                    FieldModel::StreamId(v) => event.stream_id == v,
                    FieldModel::Kind(v) => event.kind == v,
                    FieldModel::Timestamp(v) => event.timestamp == v,
                    FieldModel::Causation(v) => event.causation == v,
                    FieldModel::Correlation(v) => event.correlation == v,
                    FieldModel::Payload(text) => parsed_json(text) == Ok::<JsonModel, Seq<char>>(
                        event.payload,
                    ),
                }
        }),
{
    lemma_made_of(fields, fields.len());
    let draft = DraftModel::blank().accept_first(fields, fields.len())->Ok_0;
    assert forall|name: FieldName| #[trigger] comes_in(name, fields) by {
        assert(draft.knows(name));
        let i = choose|i: int| 0 <= i < fields.len() && (#[trigger] fields[i]).name() == name;
        assert(fields[i].name() == name);
    }
    assert forall|i: int| 0 <= i < fields.len() implies match #[trigger] fields[i] {
        FieldModel::SeqNo(v) => draft.event().seq == v,
        FieldModel::AgentId(v) => draft.event().agent_id == v,
        FieldModel::StreamId(v) => draft.event().stream_id == v,
        FieldModel::Kind(v) => draft.event().kind == v,
        FieldModel::Timestamp(v) => draft.event().timestamp == v,
        FieldModel::Causation(v) => draft.event().causation == v,
        FieldModel::Correlation(v) => draft.event().correlation == v,
        FieldModel::Payload(text) => parsed_json(text) == Ok::<JsonModel, Seq<char>>(
            draft.event().payload,
        ),
    } by {
        assert(has_value(draft, fields[i]));
    }
}

} // verus!
