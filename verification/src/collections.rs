//! Document collections.
//!
//! Mutable CRUD storage for JSON documents, separate from the immutable
//! event log: named collections with optimistic versioning, equality
//! secondary indexes (optionally unique) and atomic multi-op batches.
//!
//! Storage layout:
//! - documents: (collection, id) -> version and document
//! - index entries: (collection, field, token, id)
//! - index definitions: (collection, field) -> uniqueness

use crate::error::{ErrorModel, HiveError, HiveResult};
use crate::json::{is_readable, refusal_of, Json, JsonModel};
use crate::lists::{lemma_filter_push, lemma_filter_twice};
use crate::sorted::{
    ascending, lemma_ascending_at, lemma_ascending_unique, lemma_finite_rows, lemma_map_of_domain,
    lemma_map_of_finite, lemma_map_of_value, map_of, rows_of, Replica, SortKey, SortedMap,
};
use crate::text::{
    bool_text, debug_quoted, decimal, join2, text_begins, text_debug, text_less, text_lt,
    text_lt_irreflexive, text_lt_total, text_lt_transitive, text_same, text_starts_with, u64_text,
};
use vstd::prelude::*;
use vstd::string::*;

verus! {

/// A stored document.
struct StoredDoc {
    version: u64,
    doc: Json,
}

/// Definition of a secondary index.
#[derive(Clone, Copy, Debug)]
pub struct IndexDef {
    pub unique: bool,
}

/// A document read from a collection.
#[derive(Clone, Debug, PartialEq)]
pub struct DocEntry {
    pub id: String,
    /// Monotonic per-document version, starting at 1 on first put.
    pub version: u64,
    pub doc: Json,
}

/// Options for [`Collections::put`].
#[derive(Clone, Copy, Debug)]
pub struct PutOptions {
    /// Optimistic concurrency check: the current stored version must equal
    /// this value (`0` = the document must not exist yet). `None` skips the
    /// check (unconditional upsert).
    pub expected_version: Option<u64>,
}

/// Options for [`Collections::scan`] and [`Collections::find_by`].
#[derive(Clone, Debug)]
pub struct ScanOptions {
    /// Only ids starting with this prefix.
    pub prefix: Option<String>,
    /// Start at this id (inclusive, ascending id order).
    pub start: Option<String>,
    /// Maximum entries to return (`0` = unlimited).
    pub limit: usize,
    /// Entries to skip before collecting.
    pub offset: usize,
    /// Return entries in descending id order.
    pub reverse: bool,
}

/// One operation inside an atomic [`Collections::batch`].
#[derive(Clone, Debug)]
pub enum ColOp {
    Put { collection: String, id: String, doc: Json, expected_version: Option<u64> },
    Delete { collection: String, id: String },
}

impl Default for PutOptions {
    fn default() -> (r: Self)
        ensures
            r.expected_version is None,
    {
        PutOptions { expected_version: None }
    }
}

impl Default for ScanOptions {
    fn default() -> (r: Self)
        ensures
            r.prefix is None,
            r.start is None,
            r.limit == 0,
            r.offset == 0,
            !r.reverse,
    {
        ScanOptions { prefix: None, start: None, limit: 0, offset: 0, reverse: false }
    }
}

#[verifier::ext_equal]
pub struct StoredModel {
    pub version: u64,
    pub doc: JsonModel,
}

#[verifier::ext_equal]
pub struct EntryModel {
    pub id: Seq<char>,
    pub version: u64,
    pub doc: JsonModel,
}

#[verifier::ext_equal]
pub enum OpModel {
    Put { collection: Seq<char>, id: Seq<char>, doc: JsonModel, expected_version: Option<u64> },
    Delete { collection: Seq<char>, id: Seq<char> },
}

/// What a collections store holds: documents by collection and id, and the
/// uniqueness of each index by collection and field.
#[verifier::ext_equal]
pub struct ColModel {
    pub docs: Map<(Seq<char>, Seq<char>), StoredModel>,
    pub defs: Map<(Seq<char>, Seq<char>), bool>,
}

impl DeepView for StoredDoc {
    type V = StoredModel;

    closed spec fn deep_view(&self) -> StoredModel {
        StoredModel { version: self.version, doc: self.doc.deep_view() }
    }
}

impl DeepView for IndexDef {
    type V = bool;

    open spec fn deep_view(&self) -> bool {
        self.unique
    }
}

impl DeepView for DocEntry {
    type V = EntryModel;

    open spec fn deep_view(&self) -> EntryModel {
        EntryModel { id: self.id@, version: self.version, doc: self.doc.deep_view() }
    }
}

impl DeepView for ColOp {
    type V = OpModel;

    open spec fn deep_view(&self) -> OpModel {
        match self {
            ColOp::Put { collection, id, doc, expected_version } => OpModel::Put {
                collection: collection@,
                id: id@,
                doc: doc.deep_view(),
                expected_version: *expected_version,
            },
            ColOp::Delete { collection, id } => OpModel::Delete {
                collection: collection@,
                id: id@,
            },
        }
    }
}

impl Replica for StoredDoc {
    fn replica(&self) -> (r: Self) {
        StoredDoc { version: self.version, doc: self.doc.replica() }
    }
}

impl Replica for IndexDef {
    fn replica(&self) -> (r: Self) {
        *self
    }
}

/// The index token of a JSON value. Only strings, numbers and booleans have one.
/// Numbers are told apart by their canonical JSON text.
pub open spec fn token_of(value: JsonModel) -> Option<Seq<char>> {
    match value {
        JsonModel::String(s) => Some("s:"@ + s),
        JsonModel::Number(n) => Some("n:"@ + n.text),
        JsonModel::Bool(b) => Some("b:"@ + bool_text(b)),
        _ => None,
    }
}

/// The index token of a document's top-level field.
pub open spec fn field_token(doc: JsonModel, field: Seq<char>) -> Option<Seq<char>> {
    match doc.field(field) {
        Some(value) => token_of(value),
        None => None,
    }
}

impl ColModel {
    /// Nothing stored.
    pub open spec fn empty() -> ColModel {
        ColModel { docs: Map::empty(), defs: Map::empty() }
    }

    /// The version of a document; zero where there is none.
    pub open spec fn version_of(self, collection: Seq<char>, id: Seq<char>) -> u64 {
        if self.docs.contains_key((collection, id)) {
            self.docs[(collection, id)].version
        } else {
            0
        }
    }

    /// The document `id` carries `token` in `field`.
    pub open spec fn has_token(
        self,
        collection: Seq<char>,
        field: Seq<char>,
        id: Seq<char>,
        token: Seq<char>,
    ) -> bool {
        self.docs.contains_key((collection, id)) && field_token(
            self.docs[(collection, id)].doc,
            field,
        ) == Some(token)
    }

    /// There is a unique index on the field.
    pub open spec fn is_unique(self, collection: Seq<char>, field: Seq<char>) -> bool {
        self.defs.contains_key((collection, field)) && self.defs[(collection, field)]
    }

    /// No two documents share a value under a unique index.
    pub open spec fn is_consistent(self) -> bool {
        forall|collection: Seq<char>, field: Seq<char>, a: Seq<char>, b: Seq<char>, token: Seq<
            char,
        >|
            self.is_unique(collection, field) && #[trigger] self.has_token(
                collection,
                field,
                a,
                token,
            ) && #[trigger] self.has_token(collection, field, b, token) ==> a == b
    }

    /// Putting `doc` under `id` would give it a value that `other` already has
    /// under a unique index.
    pub open spec fn clashes(
        self,
        collection: Seq<char>,
        field: Seq<char>,
        id: Seq<char>,
        doc: JsonModel,
        other: Seq<char>,
    ) -> bool {
        self.is_unique(collection, field) && other != id && field_token(doc, field) is Some
            && self.has_token(collection, field, other, field_token(doc, field)->0)
    }

    /// The clash in the first field, in ascending order, that has one.
    pub open spec fn first_clash(
        self,
        collection: Seq<char>,
        field: Seq<char>,
        id: Seq<char>,
        doc: JsonModel,
        other: Seq<char>,
    ) -> bool {
        self.clashes(collection, field, id, doc, other) && forall|f: Seq<char>, o: Seq<char>|
            text_lt(f, field) ==> !#[trigger] self.clashes(collection, f, id, doc, o)
    }

    /// The expected version, where one is given, is the current one.
    pub open spec fn version_matches(
        self,
        collection: Seq<char>,
        id: Seq<char>,
        expected: Option<u64>,
    ) -> bool {
        match expected {
            Some(version) => version == self.version_of(collection, id),
            None => true,
        }
    }

    /// The document, where there is one, can be read.
    pub open spec fn can_read(self, collection: Seq<char>, id: Seq<char>) -> bool {
        self.docs.contains_key((collection, id)) ==> is_readable(self.docs[(collection, id)].doc)
    }

    /// What reading a document gives: the document, nothing where there is none, an error
    /// where it is nested too deep.
    pub open spec fn read(self, collection: Seq<char>, id: Seq<char>) -> Result<
        Option<EntryModel>,
        ErrorModel,
    > {
        if !self.docs.contains_key((collection, id)) {
            Ok(None)
        } else {
            let stored = self.docs[(collection, id)];
            if is_readable(stored.doc) {
                Ok(Some(EntryModel { id, version: stored.version, doc: stored.doc }))
            } else {
                Err(ErrorModel::Json(refusal_of(stored.doc)))
            }
        }
    }

    /// A put goes through: the version matches, the document that is replaced can be
    /// read, and no unique index is violated.
    pub open spec fn can_put(
        self,
        collection: Seq<char>,
        id: Seq<char>,
        doc: JsonModel,
        expected: Option<u64>,
    ) -> bool {
        &&& self.version_matches(collection, id, expected)
        &&& self.can_read(collection, id)
        &&& forall|field: Seq<char>, other: Seq<char>|
            !#[trigger] self.clashes(collection, field, id, doc, other)
    }

    /// What is stored after a put that goes through.
    pub open spec fn after_put(
        self,
        collection: Seq<char>,
        id: Seq<char>,
        doc: JsonModel,
    ) -> ColModel {
        ColModel {
            docs: self.docs.insert(
                (collection, id),
                StoredModel { version: (self.version_of(collection, id) + 1) as u64, doc },
            ),
            defs: self.defs,
        }
    }

    /// What is stored after a delete.
    pub open spec fn after_delete(self, collection: Seq<char>, id: Seq<char>) -> ColModel {
        ColModel { docs: self.docs.remove((collection, id)), defs: self.defs }
    }

    /// Why a put is refused: a version conflict, else a document to replace that cannot be
    /// read, else the first clash.
    pub open spec fn put_error(
        self,
        collection: Seq<char>,
        id: Seq<char>,
        doc: JsonModel,
        expected: Option<u64>,
        error: ErrorModel,
    ) -> bool {
        if self.version_matches(collection, id, expected) && !self.can_read(collection, id) {
            error == ErrorModel::Json(refusal_of(self.docs[(collection, id)].doc))
        } else if self.version_matches(collection, id, expected) {
            exists|field: Seq<char>, other: Seq<char>| #[trigger]
                self.first_clash(collection, field, id, doc, other) && error
                    == ErrorModel::InvalidInput(clash_text(collection, field, other))
        } else {
            error == ErrorModel::InvalidInput(
                conflict_text(collection, id, expected->0, self.version_of(collection, id)),
            )
        }
    }

    /// `other` and `id`, in this order, share a value of the field, and no two
    /// documents before `id` do.
    pub open spec fn first_duplicate(
        self,
        collection: Seq<char>,
        field: Seq<char>,
        other: Seq<char>,
        id: Seq<char>,
    ) -> bool {
        &&& self.duplicates(collection, field, other, id)
        &&& forall|a: Seq<char>, b: Seq<char>|
            text_lt(b, id) ==> !#[trigger] self.duplicates(collection, field, a, b)
    }

    /// `a` and `b`, in this order, share a value of the field.
    pub open spec fn duplicates(
        self,
        collection: Seq<char>,
        field: Seq<char>,
        a: Seq<char>,
        b: Seq<char>,
    ) -> bool {
        &&& text_lt(a, b)
        &&& self.docs.contains_key((collection, a))
        &&& self.docs.contains_key((collection, b))
        &&& field_token(self.docs[(collection, a)].doc, field) is Some
        &&& field_token(self.docs[(collection, a)].doc, field) == field_token(
            self.docs[(collection, b)].doc,
            field,
        )
    }

    /// The document is the first of the collection, in id order, that cannot be read.
    pub open spec fn first_unreadable(self, collection: Seq<char>, id: Seq<char>) -> bool {
        &&& !self.can_read(collection, id)
        &&& forall|other: Seq<char>|
            text_lt(other, id) ==> #[trigger] self.can_read(collection, other)
    }

    /// Why a new index is refused. The documents are read in id order: the first that
    /// cannot be read, or that shares its value with an earlier one under a unique index,
    /// decides.
    pub open spec fn index_error(
        self,
        collection: Seq<char>,
        field: Seq<char>,
        unique: bool,
        error: ErrorModel,
    ) -> bool {
        ||| exists|id: Seq<char>|
            {
                &&& #[trigger] self.first_unreadable(collection, id)
                &&& unique ==> forall|a: Seq<char>, b: Seq<char>|
                    text_lt(b, id) ==> !#[trigger] self.duplicates(collection, field, a, b)
                &&& error == ErrorModel::Json(refusal_of(self.docs[(collection, id)].doc))
            }
        ||| unique && exists|other: Seq<char>, id: Seq<char>|
            {
                &&& #[trigger] self.first_duplicate(collection, field, other, id)
                &&& forall|x: Seq<char>|
                    !text_lt(id, x) ==> #[trigger] self.can_read(collection, x)
                &&& error == ErrorModel::InvalidInput(
                    duplicate_text(collection, field, other, id),
                )
            }
    }

    /// What the creation of an index returns, and what is stored after it.
    pub open spec fn indexing(
        self,
        collection: Seq<char>,
        field: Seq<char>,
        unique: bool,
        result: Result<(), ErrorModel>,
        after: ColModel,
    ) -> bool {
        let key = (collection, field);
        if self.defs.contains_key(key) {
            &&& after == self
            &&& match result {
                Ok(_) => self.defs[key] == unique,
                Err(error) => self.defs[key] != unique && error == ErrorModel::InvalidInput(
                    redefined_text(collection, field, self.defs[key]),
                ),
            }
        } else {
            match result {
                Ok(_) => {
                    &&& forall|id: Seq<char>| #[trigger] self.can_read(collection, id)
                    &&& unique ==> forall|a: Seq<char>, b: Seq<char>|
                        !#[trigger] self.duplicates(collection, field, a, b)
                    &&& after == self.after_index(collection, field, unique)
                },
                Err(error) => self.index_error(collection, field, unique, error) && after == self,
            }
        }
    }

    /// What is stored after an index is created.
    pub open spec fn after_index(
        self,
        collection: Seq<char>,
        field: Seq<char>,
        unique: bool,
    ) -> ColModel {
        ColModel { docs: self.docs, defs: self.defs.insert((collection, field), unique) }
    }

    /// The documents of a collection in ascending id order.
    pub open spec fn listing(self, collection: Seq<char>) -> Seq<EntryModel> {
        entries_in(rows_of::<(String, String), StoredModel>(self.docs), collection)
    }

    /// What a lookup by an indexed field returns.
    pub open spec fn find(
        self,
        collection: Seq<char>,
        field: Seq<char>,
        value: JsonModel,
        options: ScanOptions,
    ) -> Result<Seq<EntryModel>, ErrorModel> {
        if self.defs.contains_key((collection, field)) {
            looked_up(self.listing(collection), field, value, options)
        } else {
            Err(ErrorModel::InvalidInput(no_index_text(collection, field)))
        }
    }

    /// An operation of a batch goes through.
    pub open spec fn can_apply(self, op: OpModel) -> bool {
        match op {
            OpModel::Put { collection, id, doc, expected_version } => self.can_put(
                collection,
                id,
                doc,
                expected_version,
            ),
            OpModel::Delete { collection, id } => self.can_read(collection, id),
        }
    }

    /// Why an operation of a batch is refused.
    pub open spec fn op_error(self, op: OpModel, error: ErrorModel) -> bool {
        match op {
            OpModel::Put { collection, id, doc, expected_version } => self.put_error(
                collection,
                id,
                doc,
                expected_version,
                error,
            ),
            OpModel::Delete { collection, id } => error == ErrorModel::Json(
                refusal_of(self.docs[(collection, id)].doc),
            ),
        }
    }

    /// What is stored after an operation that goes through.
    pub open spec fn after_op(self, op: OpModel) -> ColModel {
        match op {
            OpModel::Put { collection, id, doc, .. } => self.after_put(collection, id, doc),
            OpModel::Delete { collection, id } => self.after_delete(collection, id),
        }
    }

    /// What is stored after the first `n` operations.
    pub open spec fn after_ops(self, ops: Seq<OpModel>, n: nat) -> ColModel
        decreases n,
    {
        if n == 0 {
            self
        } else {
            self.after_ops(ops, (n - 1) as nat).after_op(ops[n - 1])
        }
    }

    /// The first `n` operations go through, one after the other.
    pub open spec fn can_apply_first(self, ops: Seq<OpModel>, n: nat) -> bool {
        forall|i: int|
            0 <= i < n ==> self.after_ops(ops, i as nat).can_apply(#[trigger] ops[i])
    }

    /// No document's version is within `margin` of the largest number.
    pub open spec fn versions_below(self, margin: int) -> bool {
        forall|key: (Seq<char>, Seq<char>)| #[trigger]
            self.docs.contains_key(key) ==> self.docs[key].version + margin <= u64::MAX
    }
}

/// The entries of one collection.
pub open spec fn entries_in(
    rows: Seq<((Seq<char>, Seq<char>), StoredModel)>,
    collection: Seq<char>,
) -> Seq<EntryModel>
    decreases rows.len(),
{
    if rows.len() == 0 {
        Seq::empty()
    } else {
        let before = entries_in(rows.drop_last(), collection);
        if rows.last().0.0 == collection {
            before.push(
                EntryModel {
                    id: rows.last().0.1,
                    version: rows.last().1.version,
                    doc: rows.last().1.doc,
                },
            )
        } else {
            before
        }
    }
}

/// The entries in descending order where asked for.
pub open spec fn directed(entries: Seq<EntryModel>, reverse: bool) -> Seq<EntryModel> {
    if reverse {
        entries.reverse()
    } else {
        entries
    }
}

/// At most `limit` entries (all of them for zero) after the first `offset`.
pub open spec fn windowed(entries: Seq<EntryModel>, offset: usize, limit: usize) -> Seq<
    EntryModel,
> {
    let rest = if offset <= entries.len() {
        entries.skip(offset as int)
    } else {
        Seq::empty()
    };
    if limit > 0 && limit < rest.len() {
        rest.take(limit as int)
    } else {
        rest
    }
}

/// The id is not before the start and carries the prefix.
pub open spec fn id_in_scan(id: Seq<char>, options: ScanOptions) -> bool {
    &&& match options.start {
        Some(start) => !text_lt(id, start@),
        None => true,
    }
    &&& match options.prefix {
        Some(prefix) => text_begins(id, prefix@),
        None => true,
    }
}

/// The entry is not before the start and carries the prefix.
pub open spec fn in_scan(entry: EntryModel, options: ScanOptions) -> bool {
    id_in_scan(entry.id, options)
}

/// The error of the first entry that cannot be read.
pub open spec fn first_refusal(entries: Seq<EntryModel>) -> Option<ErrorModel>
    decreases entries.len(),
{
    if entries.len() == 0 {
        None
    } else {
        match first_refusal(entries.drop_last()) {
            Some(error) => Some(error),
            None => if is_readable(entries.last().doc) {
                None
            } else {
                Some(ErrorModel::Json(refusal_of(entries.last().doc)))
            },
        }
    }
}

/// The entries that a scan goes through.
pub open spec fn passed(listing: Seq<EntryModel>, options: ScanOptions) -> Seq<EntryModel> {
    listing.filter(|entry: EntryModel| in_scan(entry, options))
}

/// The entries that a lookup goes through: of those that a scan with the same options
/// goes through, the ones with the value. A value without a token is in no document's
/// index.
pub open spec fn matching(
    listing: Seq<EntryModel>,
    field: Seq<char>,
    value: JsonModel,
    options: ScanOptions,
) -> Seq<EntryModel> {
    match token_of(value) {
        Some(token) => listing.filter(
            |entry: EntryModel|
                in_scan(entry, options) && field_token(entry.doc, field) == Some(token),
        ),
        None => Seq::empty(),
    }
}

/// What comes of entries that were gone through: those in the direction and window asked
/// for, or an error where one of them cannot be read.
pub open spec fn paged(entries: Seq<EntryModel>, options: ScanOptions) -> Result<
    Seq<EntryModel>,
    ErrorModel,
> {
    match first_refusal(entries) {
        Some(error) => Err(error),
        None => Ok(
            windowed(directed(entries, options.reverse), options.offset, options.limit),
        ),
    }
}

/// What a scan returns.
pub open spec fn scanned(listing: Seq<EntryModel>, options: ScanOptions) -> Result<
    Seq<EntryModel>,
    ErrorModel,
> {
    paged(passed(listing, options), options)
}

/// What a lookup of a field's value returns.
pub open spec fn looked_up(
    listing: Seq<EntryModel>,
    field: Seq<char>,
    value: JsonModel,
    options: ScanOptions,
) -> Result<Seq<EntryModel>, ErrorModel> {
    paged(matching(listing, field, value, options), options)
}

/// What a result stands for.
pub open spec fn page_view(result: HiveResult<Vec<DocEntry>>) -> Result<
    Seq<EntryModel>,
    ErrorModel,
> {
    match result {
        Ok(found) => Ok(found.deep_view()),
        Err(error) => Err(error.deep_view()),
    }
}

/// What a result stands for.
pub open spec fn read_view(result: HiveResult<Option<DocEntry>>) -> Result<
    Option<EntryModel>,
    ErrorModel,
> {
    match result {
        Ok(found) => Ok(found.deep_view()),
        Err(error) => Err(error.deep_view()),
    }
}

/// What a result stands for.
pub open spec fn unit_view(result: HiveResult<()>) -> Result<(), ErrorModel> {
    match result {
        Ok(_) => Ok(()),
        Err(error) => Err(error.deep_view()),
    }
}

pub open spec fn conflict_text(
    collection: Seq<char>,
    id: Seq<char>,
    expected: u64,
    current: u64,
) -> Seq<char> {
    "version conflict on "@ + collection + "/"@ + id + ": expected "@ + decimal(expected as nat)
        + ", found "@ + decimal(current as nat)
}

pub open spec fn clash_text(collection: Seq<char>, field: Seq<char>, other: Seq<char>) -> Seq<
    char,
> {
    "unique index "@ + collection + "."@ + field + " violated: value already used by "@
        + debug_quoted(other)
}

pub open spec fn duplicate_text(
    collection: Seq<char>,
    field: Seq<char>,
    other: Seq<char>,
    id: Seq<char>,
) -> Seq<char> {
    "unique index "@ + collection + "."@ + field + " violated by existing docs "@ + debug_quoted(
        other,
    ) + " and "@ + debug_quoted(id)
}

pub open spec fn redefined_text(collection: Seq<char>, field: Seq<char>, unique: bool) -> Seq<
    char,
> {
    "index "@ + collection + "."@ + field + " already exists with unique="@ + bool_text(unique)
}

pub open spec fn no_index_text(collection: Seq<char>, field: Seq<char>) -> Seq<char> {
    "no index on "@ + collection + "."@ + field + " — call create_index first"@
}

/// Encode a JSON scalar as an index token. Non-scalar and null values are
/// not indexed (a missing field simply has no index entry).
///
/// Numbers use their canonical JSON text for EQUALITY matching only: `1` and
/// `1.0` are distinct tokens, and range queries are not supported.
fn encode_index_value(value: &Json) -> (r: Option<String>)
    ensures
        r.deep_view() == token_of(value.deep_view()),
{
    match value {
        Json::String(s) => Some(join2("s:", s.as_str())),
        Json::Number(n) => Some(join2("n:", n.text.as_str())),
        Json::Bool(b) => if *b {
            Some(join2("b:", "true"))
        } else {
            Some(join2("b:", "false"))
        },
        _ => None,
    }
}

/// The index token of a document's top-level field.
fn encode_field(doc: &Json, field: &String) -> (r: Option<String>)
    ensures
        r.deep_view() == field_token(doc.deep_view(), field@),
{
    match doc.get(field.as_str()) {
        Some(value) => encode_index_value(value),
        None => None,
    }
}

/// An index entry: (collection, field), (token, id).
type EntryKey = ((String, String), (String, String));

type EntryKeyModel = ((Seq<char>, Seq<char>), (Seq<char>, Seq<char>));

/// The index entry belongs to a document and an index.
spec fn is_entry(model: ColModel, key: EntryKeyModel) -> bool {
    model.defs.contains_key(key.0) && model.has_token(key.0.0, key.0.1, key.1.1, key.1.0)
}

/// The entries of the keys whose first part is `part`.
fn block_of<T: DeepView>(map: &SortedMap<(String, String), T>, part: &str) -> (r: (usize, usize))
    ensures
        r.0 <= r.1 <= map.pairs().len(),
        forall|i: int|
            0 <= i < map.pairs().len() ==> ((#[trigger] map.pairs()[i]).0.0 == part@ <==> r.0 <= i
                < r.1),
        ascending::<(String, String), T::V>(map.pairs()),
        map.pairs() == rows_of::<(String, String), T::V>(map.deep_view()),
{
    let ghost rows = map.pairs();
    let least = (part.to_owned(), String::new());
    let lo: usize = map.first_from(&least);
    let n: usize = map.len();
    let mut hi: usize = lo;
    proof {
        assert forall|i: int| 0 <= i < lo implies (#[trigger] rows[i]).0.0 != part@ by {
            assert(<(String, String) as SortKey>::before(rows[i].0, least.deep_view()));
            text_lt_irreflexive(part@);
        }
        assert forall|i: int| lo <= i < n implies !text_lt((#[trigger] rows[i]).0.0, part@) by {
            assert(!<(String, String) as SortKey>::before(rows[i].0, least.deep_view()));
        }
    }
    while hi < n && text_same(map.key_at(hi).0.as_str(), part)
        invariant
            lo <= hi <= n,
            n == rows.len(),
            rows == map.pairs(),
            forall|i: int| lo <= i < hi ==> (#[trigger] rows[i]).0.0 == part@,
        decreases n - hi,
    {
        hi += 1;
    }
    proof {
        assert forall|i: int| hi <= i < n implies (#[trigger] rows[i]).0.0 != part@ by {
            if rows[i].0.0 == part@ && i > hi {
                assert(<(String, String) as SortKey>::before(rows[hi as int].0, rows[i].0));
                assert(!text_lt(rows[hi as int].0.0, part@));
                assert(rows[hi as int].0.0 != part@);
            }
        }
    }
    (lo, hi)
}

/// The index entries of one collection, field and token.
fn entry_block(
    entries: &SortedMap<EntryKey, ()>,
    collection: &str,
    field: &str,
    token: &str,
) -> (r: (usize, usize))
    ensures
        r.0 <= r.1 <= entries.pairs().len(),
        forall|i: int|
            0 <= i < entries.pairs().len() ==> ((#[trigger] entries.pairs()[i]).0.0 == (
                collection@,
                field@,
            ) && entries.pairs()[i].0.1.0 == token@ <==> r.0 <= i < r.1),
        ascending::<EntryKey, ()>(entries.pairs()),
{
    let ghost rows = entries.pairs();
    let ghost part = (collection@, field@);
    let least = ((collection.to_owned(), field.to_owned()), (token.to_owned(), String::new()));
    let lo: usize = entries.first_from(&least);
    let n: usize = entries.len();
    let mut hi: usize = lo;
    proof {
        <(String, String) as SortKey>::before_irreflexive(part);
        text_lt_irreflexive(token@);
        assert forall|i: int| 0 <= i < lo implies !((#[trigger] rows[i]).0.0 == part
            && rows[i].0.1.0 == token@) by {
            assert(<EntryKey as SortKey>::before(rows[i].0, least.deep_view()));
        }
        assert forall|i: int| lo <= i < n implies !<(String, String) as SortKey>::before(
            (#[trigger] rows[i]).0.0,
            part,
        ) && !(rows[i].0.0 == part && text_lt(rows[i].0.1.0, token@)) by {
            assert(!<EntryKey as SortKey>::before(rows[i].0, least.deep_view()));
        }
    }
    while hi < n && text_same(entries.key_at(hi).0.0.as_str(), collection) && text_same(
        entries.key_at(hi).0.1.as_str(),
        field,
    ) && text_same(entries.key_at(hi).1.0.as_str(), token)
        invariant
            lo <= hi <= n,
            n == rows.len(),
            rows == entries.pairs(),
            part == (collection@, field@),
            forall|i: int|
                lo <= i < hi ==> (#[trigger] rows[i]).0.0 == part && rows[i].0.1.0 == token@,
        decreases n - hi,
    {
        hi += 1;
    }
    proof {
        assert forall|i: int| hi <= i < n implies !((#[trigger] rows[i]).0.0 == part
            && rows[i].0.1.0 == token@) by {
            if i > hi {
                assert(<EntryKey as SortKey>::before(rows[hi as int].0, rows[i].0));
                assert(!(rows[hi as int].0.0 == part && rows[hi as int].0.1.0 == token@));
                assert(!<(String, String) as SortKey>::before(rows[hi as int].0.0, part));
            }
        }
    }
    (lo, hi)
}

/// Document collections. A put or delete and its index maintenance happen
/// together or not at all.
pub struct Collections {
    docs: SortedMap<(String, String), StoredDoc>,
    entries: SortedMap<EntryKey, ()>,
    defs: SortedMap<(String, String), IndexDef>,
}

impl DeepView for Collections {
    type V = ColModel;

    closed spec fn deep_view(&self) -> ColModel {
        ColModel { docs: self.docs.deep_view(), defs: self.defs.deep_view() }
    }
}

impl Replica for Collections {
    fn replica(&self) -> (r: Self)
        ensures
            self.wf() ==> r.wf(),
    {
        Collections {
            docs: self.docs.replica(),
            entries: self.entries.replica(),
            defs: self.defs.replica(),
        }
    }
}

/// `field` is among the rows from `lo` up to `hi`.
spec fn in_block<W>(
    rows: Seq<((Seq<char>, Seq<char>), W)>,
    lo: int,
    hi: int,
    field: Seq<char>,
) -> bool {
    exists|j: int| lo <= j < hi && (#[trigger] rows[j]).0.1 == field
}

/// The index entries once the document `id` of a collection is `new`, for the
/// fields that `done` says.
spec fn is_entry_with(
    model: ColModel,
    collection: Seq<char>,
    id: Seq<char>,
    new: Option<JsonModel>,
    done: bool,
    key: EntryKeyModel,
) -> bool {
    if key.0.0 == collection && key.1.1 == id && done {
        model.defs.contains_key(key.0) && new is Some && field_token(new->0, key.0.1) == Some(
            key.1.0,
        )
    } else {
        is_entry(model, key)
    }
}

/// Brings the index entries of one document up to date.
fn reindex(
    entries: &mut SortedMap<EntryKey, ()>,
    defs: &SortedMap<(String, String), IndexDef>,
    collection: &str,
    id: &str,
    was: Option<&Json>,
    new: Option<&Json>,
    Ghost(model): Ghost<ColModel>,
)
    requires
        defs.deep_view() == model.defs,
        forall|key: EntryKeyModel| #[trigger]
            old(entries).deep_view().contains_key(key) <==> is_entry(model, key),
        match was {
            Some(doc) => model.docs.contains_key((collection@, id@))
                && model.docs[(collection@, id@)].doc == doc.deep_view(),
            None => !model.docs.contains_key((collection@, id@)),
        },
    ensures
        forall|key: EntryKeyModel| #[trigger]
            final(entries).deep_view().contains_key(key) <==> is_entry_with(
                model,
                collection@,
                id@,
                match new {
                    Some(doc) => Some(doc.deep_view()),
                    None => None,
                },
                true,
                key,
            ),
{
    let ghost c = collection@;
    let ghost d = id@;
    let ghost after = match new {
        Some(doc) => Some(doc.deep_view()),
        None => None,
    };
    let (lo, hi) = block_of(defs, collection);
    let ghost rows = defs.pairs();
    let mut i: usize = lo;
    while i < hi
        invariant
            lo <= i <= hi <= rows.len(),
            rows == defs.pairs(),
            c == collection@,
            d == id@,
            after == (match new {
                Some(doc) => Some(doc.deep_view()),
                None => None,
            }),
            defs.deep_view() == model.defs,
            model.defs == map_of(rows),
            ascending::<(String, String), bool>(rows),
            forall|j: int| lo <= j < hi ==> (#[trigger] rows[j]).0.0 == c,
            match was {
                Some(doc) => model.docs.contains_key((c, d)) && model.docs[(c, d)].doc
                    == doc.deep_view(),
                None => !model.docs.contains_key((c, d)),
            },
            forall|key: EntryKeyModel| #[trigger]
                entries.deep_view().contains_key(key) <==> is_entry_with(
                    model,
                    c,
                    d,
                    after,
                    in_block(rows, lo as int, i as int, key.0.1),
                    key,
                ),
        decreases hi - i,
    {
        let field = defs.key_at(i).1.clone();
        let ghost f = field@;
        let ghost before = entries.deep_view();
        proof {
            lemma_map_of_value::<(String, String), bool>(rows, i as int);
            assert(rows[i as int].0 == (c, f));
            assert(!in_block(rows, lo as int, i as int, f)) by {
                if in_block(rows, lo as int, i as int, f) {
                    let j = choose|j: int| lo <= j < i && (#[trigger] rows[j]).0.1 == f;
                    assert(rows[j].0 == rows[i as int].0);
                    <(String, String) as SortKey>::before_irreflexive(rows[i as int].0);
                    assert(<(String, String) as SortKey>::before(rows[j].0, rows[i as int].0));
                }
            }
        }
        let mut gone: Option<String> = None;
        if let Some(doc) = was {
            gone = encode_field(doc, &field);
        }
        if let Some(token) = gone {
            let _ = entries.remove(
                &((collection.to_owned(), field.clone()), (token, id.to_owned())),
            );
        }
        let ghost middle = entries.deep_view();
        proof {
            assert forall|key: EntryKeyModel| #[trigger]
                middle.contains_key(key) <==> before.contains_key(key) && !(key.0 == (c, f)
                    && key.1.1 == d) by {
                if key.0 == (c, f) && key.1.1 == d {
                    assert(before.contains_key(key) <==> is_entry(model, key));
                }
            }
        }
        let mut come: Option<String> = None;
        if let Some(doc) = new {
            come = encode_field(doc, &field);
        }
        if let Some(token) = come {
            entries.insert(((collection.to_owned(), field.clone()), (token, id.to_owned())), ());
        }
        proof {
            assert forall|key: EntryKeyModel| #[trigger]
                entries.deep_view().contains_key(key) <==> is_entry_with(
                    model,
                    c,
                    d,
                    after,
                    in_block(rows, lo as int, i + 1, key.0.1),
                    key,
                ) by {
                assert(middle.contains_key(key) <==> before.contains_key(key) && !(key.0 == (c, f)
                    && key.1.1 == d));
                if key.0.1 == f {
                    assert(rows[i as int].0.1 == f);
                    assert(in_block(rows, lo as int, i + 1, key.0.1));
                } else {
                    if in_block(rows, lo as int, i + 1, key.0.1) {
                        let j = choose|j: int|
                            lo <= j < i + 1 && (#[trigger] rows[j]).0.1 == key.0.1;
                        assert(j < i);
                        assert(rows[j].0.1 == key.0.1);
                    }
                    if in_block(rows, lo as int, i as int, key.0.1) {
                        let j = choose|j: int| lo <= j < i && (#[trigger] rows[j]).0.1 == key.0.1;
                        assert(rows[j].0.1 == key.0.1);
                    }
                }
            }
        }
        i += 1;
    }
    proof {
        assert forall|key: EntryKeyModel| #[trigger]
            entries.deep_view().contains_key(key) <==> is_entry_with(
                model,
                c,
                d,
                after,
                true,
                key,
            ) by {
            if key.0.0 == c && key.1.1 == d && model.defs.contains_key(key.0) {
                lemma_map_of_domain(rows, key.0);
                let j = choose|j: int| 0 <= j < rows.len() && (#[trigger] rows[j]).0 == key.0;
                assert(rows[j].0.0 == c);
                assert(rows[j].0.1 == key.0.1);
                assert(in_block(rows, lo as int, hi as int, key.0.1));
            }
        }
    }
}

proof fn lemma_put_consistent(
    model: ColModel,
    collection: Seq<char>,
    id: Seq<char>,
    doc: JsonModel,
)
    requires
        model.is_consistent(),
        forall|field: Seq<char>, other: Seq<char>|
            !#[trigger] model.clashes(collection, field, id, doc, other),
    ensures
        model.after_put(collection, id, doc).is_consistent(),
{
    let after = model.after_put(collection, id, doc);
    assert forall|c: Seq<char>, field: Seq<char>, a: Seq<char>, b: Seq<char>, token: Seq<char>|
        after.is_unique(c, field) && #[trigger] after.has_token(c, field, a, token)
            && #[trigger] after.has_token(c, field, b, token) implies a == b by {
        assert(model.is_unique(c, field));
        if c == collection && a == id && b != id {
            assert(model.has_token(c, field, b, token));
            assert(!model.clashes(c, field, id, doc, b));
        } else if c == collection && b == id && a != id {
            assert(model.has_token(c, field, a, token));
            assert(!model.clashes(c, field, id, doc, a));
        } else if !(c == collection && a == id) {
            assert(model.has_token(c, field, a, token));
            assert(model.has_token(c, field, b, token));
        }
    }
}

proof fn lemma_delete_consistent(model: ColModel, collection: Seq<char>, id: Seq<char>)
    requires
        model.is_consistent(),
    ensures
        model.after_delete(collection, id).is_consistent(),
{
    let after = model.after_delete(collection, id);
    assert forall|c: Seq<char>, field: Seq<char>, a: Seq<char>, b: Seq<char>, token: Seq<char>|
        after.is_unique(c, field) && #[trigger] after.has_token(c, field, a, token)
            && #[trigger] after.has_token(c, field, b, token) implies a == b by {
        assert(model.is_unique(c, field));
        assert(model.has_token(c, field, a, token));
        assert(model.has_token(c, field, b, token));
    }
}

proof fn lemma_index_consistent(
    model: ColModel,
    collection: Seq<char>,
    field: Seq<char>,
    unique: bool,
)
    requires
        model.is_consistent(),
        unique ==> forall|a: Seq<char>, b: Seq<char>|
            !#[trigger] model.duplicates(collection, field, a, b),
    ensures
        model.after_index(collection, field, unique).is_consistent(),
{
    let after = model.after_index(collection, field, unique);
    assert forall|c: Seq<char>, f: Seq<char>, a: Seq<char>, b: Seq<char>, token: Seq<char>|
        after.is_unique(c, f) && #[trigger] after.has_token(c, f, a, token)
            && #[trigger] after.has_token(c, f, b, token) implies a == b by {
        if (c, f) == (collection, field) {
            text_lt_total(a, b);
            assert(!model.duplicates(c, f, a, b));
            assert(!model.duplicates(c, f, b, a));
        } else {
            assert(model.is_unique(c, f));
            assert(model.has_token(c, f, a, token));
            assert(model.has_token(c, f, b, token));
        }
    }
}

fn conflict_message(collection: &str, id: &str, expected: u64, current: u64) -> (r: String)
    ensures
        r@ == conflict_text(collection@, id@, expected, current),
{
    let mut s = "version conflict on ".to_owned();
    s.append(collection);
    s.append("/");
    s.append(id);
    s.append(": expected ");
    s.append(u64_text(expected).as_str());
    s.append(", found ");
    s.append(u64_text(current).as_str());
    s
}

fn clash_message(collection: &str, field: &str, other: &str) -> (r: String)
    ensures
        r@ == clash_text(collection@, field@, other@),
{
    let mut s = "unique index ".to_owned();
    s.append(collection);
    s.append(".");
    s.append(field);
    s.append(" violated: value already used by ");
    s.append(text_debug(other).as_str());
    s
}

fn duplicate_message(collection: &str, field: &str, other: &str, id: &str) -> (r: String)
    ensures
        r@ == duplicate_text(collection@, field@, other@, id@),
{
    let mut s = "unique index ".to_owned();
    s.append(collection);
    s.append(".");
    s.append(field);
    s.append(" violated by existing docs ");
    s.append(text_debug(other).as_str());
    s.append(" and ");
    s.append(text_debug(id).as_str());
    s
}

fn redefined_message(collection: &str, field: &str, unique: bool) -> (r: String)
    ensures
        r@ == redefined_text(collection@, field@, unique),
{
    let mut s = "index ".to_owned();
    s.append(collection);
    s.append(".");
    s.append(field);
    s.append(" already exists with unique=");
    if unique {
        s.append("true");
    } else {
        s.append("false");
    }
    s
}

fn no_index_message(collection: &str, field: &str) -> (r: String)
    ensures
        r@ == no_index_text(collection@, field@),
{
    let mut s = "no index on ".to_owned();
    s.append(collection);
    s.append(".");
    s.append(field);
    s.append(" — call create_index first");
    s
}

impl Collections {
    /// The index entries are those of the documents, and unique indexes are
    /// respected.
    pub closed spec fn wf(&self) -> bool {
        &&& self.deep_view().is_consistent()
        &&& forall|key: EntryKeyModel| #[trigger]
            self.entries.deep_view().contains_key(key) <==> is_entry(self.deep_view(), key)
    }

    /// In every state there are finitely many documents, and no two of them share a
    /// value under a unique index.
    pub proof fn law_unique_indexes_hold(&self)
        requires
            self.wf(),
        ensures
            self.deep_view().docs.dom().finite(),
            self.deep_view().is_consistent(),
    {
        lemma_map_of_finite(self.docs.pairs());
    }

    /// A store without collections.
    pub fn new() -> (r: Self)
        ensures
            r.wf(),
            r.deep_view() == ColModel::empty(),
    {
        let r = Collections {
            docs: SortedMap::new(),
            entries: SortedMap::new(),
            defs: SortedMap::new(),
        };
        assert(r.deep_view() =~= ColModel::empty());
        r
    }

    /// Looks for a document other than `id` that has a value of `doc` under a
    /// unique index.
    fn find_clash(&self, collection: &str, id: &str, doc: &Json) -> (r: Option<(String, String)>)
        requires
            self.wf(),
        ensures
            match r {
                Some((field, other)) => self.deep_view().first_clash(
                    collection@,
                    field@,
                    id@,
                    doc.deep_view(),
                    other@,
                ),
                None => forall|field: Seq<char>, other: Seq<char>|
                    !#[trigger] self.deep_view().clashes(
                        collection@,
                        field,
                        id@,
                        doc.deep_view(),
                        other,
                    ),
            },
    {
        let ghost model = self.deep_view();
        let ghost c = collection@;
        let ghost d = id@;
        let ghost new = doc.deep_view();
        let (lo, hi) = block_of(&self.defs, collection);
        let ghost rows = self.defs.pairs();
        let mut i: usize = lo;
        while i < hi
            invariant
                lo <= i <= hi <= rows.len(),
                rows == self.defs.pairs(),
                model == self.deep_view(),
                model.defs == map_of(rows),
                c == collection@,
                d == id@,
                new == doc.deep_view(),
                self.wf(),
                ascending::<(String, String), bool>(rows),
                forall|j: int|
                    0 <= j < rows.len() ==> ((#[trigger] rows[j]).0.0 == c <==> lo <= j < hi),
                forall|j: int, other: Seq<char>|
                    lo <= j < i ==> !#[trigger] model.clashes(c, rows[j].0.1, d, new, other),
            decreases hi - i,
        {
            let field = &self.defs.key_at(i).1;
            let ghost f = field@;
            proof {
                lemma_map_of_value::<(String, String), bool>(rows, i as int);
                assert(rows[i as int].0 == (c, f));
            }
            if self.defs.value_at(i).unique {
                if let Some(token) = encode_field(doc, field) {
                    let (a, b) = entry_block(&self.entries, collection, field.as_str(), token.as_str());
                    let ghost keys = self.entries.pairs();
                    let mut k: usize = a;
                    while k < b
                        invariant
                            a <= k <= b <= keys.len(),
                            keys == self.entries.pairs(),
                            model == self.deep_view(),
                            c == collection@,
                            d == id@,
                            f == field@,
                            new == doc.deep_view(),
                            self.wf(),
                            model.is_unique(c, f),
                            field_token(new, f) == Some(token@),
                            model.defs == map_of(rows),
                            ascending::<(String, String), bool>(rows),
                            lo <= i < hi <= rows.len(),
                            rows[i as int].0 == (c, f),
                            forall|j: int|
                                0 <= j < rows.len() ==> ((#[trigger] rows[j]).0.0 == c <==> lo <= j
                                    < hi),
                            forall|j: int, other: Seq<char>|
                                lo <= j < i ==> !#[trigger] model.clashes(
                                    c,
                                    rows[j].0.1,
                                    d,
                                    new,
                                    other,
                                ),
                            forall|j: int|
                                a <= j < b ==> (#[trigger] keys[j]).0.0 == (c, f)
                                    && keys[j].0.1.0 == token@,
                            forall|j: int| a <= j < k ==> (#[trigger] keys[j]).0.1.1 == d,
                        decreases b - k,
                    {
                        let other = &self.entries.key_at(k).1.1;
                        if !text_same(other.as_str(), id) {
                            proof {
                                let key = keys[k as int].0;
                                assert(self.entries.deep_view().contains_key(key));
                                assert(is_entry(model, key));
                                assert(model.clashes(c, f, d, new, other@));
                                assert forall|g: Seq<char>, o: Seq<char>|
                                    text_lt(g, f) implies !#[trigger] model.clashes(
                                    c,
                                    g,
                                    d,
                                    new,
                                    o,
                                ) by {
                                    if model.defs.contains_key((c, g)) {
                                        lemma_map_of_domain(rows, (c, g));
                                        let j = choose|j: int|
                                            0 <= j < rows.len() && (#[trigger] rows[j]).0 == (c, g);
                                        assert(rows[j].0.0 == c);
                                        text_lt_irreflexive(f);
                                        if j > i {
                                            assert(<(String, String) as SortKey>::before(
                                                rows[i as int].0,
                                                rows[j].0,
                                            ));
                                            text_lt_irreflexive(c);
                                            text_lt_transitive(g, f, g);
                                            text_lt_irreflexive(g);
                                        }
                                        assert(!model.clashes(c, rows[j].0.1, d, new, o));
                                    }
                                }
                            }
                            return Some((field.clone(), other.clone()));
                        }
                        k += 1;
                    }
                    proof {
                        assert forall|other: Seq<char>| !#[trigger] model.clashes(
                            c,
                            f,
                            d,
                            new,
                            other,
                        ) by {
                            if model.clashes(c, f, d, new, other) {
                                let key = ((c, f), (token@, other));
                                assert(is_entry(model, key));
                                assert(self.entries.deep_view().contains_key(key));
                                lemma_map_of_domain(keys, key);
                                let j = choose|j: int|
                                    0 <= j < keys.len() && (#[trigger] keys[j]).0 == key;
                                assert(keys[j].0.0 == (c, f) && keys[j].0.1.0 == token@);
                            }
                        }
                    }
                }
            }
            proof {
                assert forall|j: int, other: Seq<char>|
                    lo <= j < i + 1 implies !#[trigger] model.clashes(
                    c,
                    rows[j].0.1,
                    d,
                    new,
                    other,
                ) by {
                    if j == i {
                        assert(!model.clashes(c, f, d, new, other));
                    }
                }
            }
            i += 1;
        }
        proof {
            assert forall|field: Seq<char>, other: Seq<char>|
                !#[trigger] model.clashes(c, field, d, new, other) by {
                if model.defs.contains_key((c, field)) {
                    lemma_map_of_domain(rows, (c, field));
                    let j = choose|j: int|
                        0 <= j < rows.len() && (#[trigger] rows[j]).0 == (c, field);
                    assert(rows[j].0.0 == c);
                    assert(!model.clashes(c, rows[j].0.1, d, new, other));
                }
            }
        }
        None
    }

    /// Insert or replace a document. Returns the new version (starts at 1).
    pub fn put(&mut self, collection: &str, id: &str, doc: &Json, options: PutOptions) -> (r:
        HiveResult<u64>)
        requires
            old(self).wf(),
            old(self).deep_view().version_of(collection@, id@) < u64::MAX,
        ensures
            final(self).wf(),
            match r {
                Ok(version) => {
                    &&& old(self).deep_view().can_put(
                        collection@,
                        id@,
                        doc.deep_view(),
                        options.expected_version,
                    )
                    &&& version == old(self).deep_view().version_of(collection@, id@) + 1
                    &&& final(self).deep_view() == old(self).deep_view().after_put(
                        collection@,
                        id@,
                        doc.deep_view(),
                    )
                },
                Err(error) => {
                    &&& !old(self).deep_view().can_put(
                        collection@,
                        id@,
                        doc.deep_view(),
                        options.expected_version,
                    )
                    &&& old(self).deep_view().put_error(
                        collection@,
                        id@,
                        doc.deep_view(),
                        options.expected_version,
                        error.deep_view(),
                    )
                    &&& final(self).deep_view() == old(self).deep_view()
                },
            },
    {
        let ghost model = self.deep_view();
        let ghost c = collection@;
        let ghost d = id@;
        let ghost new = doc.deep_view();
        let key = (collection.to_owned(), id.to_owned());
        let current: u64 = match self.docs.get(&key) {
            Some(stored) => stored.version,
            None => 0,
        };
        if let Some(expected) = options.expected_version {
            if expected != current {
                return Err(
                    HiveError::InvalidInput(conflict_message(collection, id, expected, current)),
                );
            }
        }
        if let Some(stored) = self.docs.get(&key) {
            if let Some(message) = stored.doc.refusal() {
                return Err(HiveError::Json(message));
            }
        }
        if let Some((field, other)) = self.find_clash(collection, id, doc) {
            proof {
                assert(model.first_clash(c, field@, d, new, other@));
                assert(model.clashes(c, field@, d, new, other@));
            }
            return Err(
                HiveError::InvalidInput(
                    clash_message(collection, field.as_str(), other.as_str()),
                ),
            );
        }
        reindex(
            &mut self.entries,
            &self.defs,
            collection,
            id,
            match self.docs.get(&key) {
                Some(stored) => Some(&stored.doc),
                None => None,
            },
            Some(doc),
            Ghost(model),
        );
        let version: u64 = current + 1;
        self.docs.insert(key, StoredDoc { version, doc: doc.replica() });
        proof {
            let after = model.after_put(c, d, new);
            assert(self.deep_view() =~= after);
            lemma_put_consistent(model, c, d, new);
            assert forall|k: EntryKeyModel| #[trigger]
                self.entries.deep_view().contains_key(k) <==> is_entry(after, k) by {
                assert(is_entry_with(model, c, d, Some(new), true, k) <==> is_entry(after, k));
            }
        }
        Ok(version)
    }

    /// Read a document by id. A document that is nested too deep cannot be read.
    pub fn get(&self, collection: &str, id: &str) -> (r: HiveResult<Option<DocEntry>>)
        ensures
            read_view(r) == self.deep_view().read(collection@, id@),
    {
        match self.docs.get(&(collection.to_owned(), id.to_owned())) {
            Some(stored) => match stored.doc.refusal() {
                Some(message) => Err(HiveError::Json(message)),
                None => Ok(
                    Some(
                        DocEntry {
                            id: id.to_owned(),
                            version: stored.version,
                            doc: stored.doc.replica(),
                        },
                    ),
                ),
            },
            None => Ok(None),
        }
    }

    /// Delete a document. Returns `true` if it existed. A document that cannot be read
    /// stays.
    pub fn delete(&mut self, collection: &str, id: &str) -> (r: HiveResult<bool>)
        requires
            old(self).wf(),
        ensures
            final(self).wf(),
            match r {
                Ok(existed) => {
                    &&& old(self).deep_view().can_read(collection@, id@)
                    &&& existed == old(self).deep_view().docs.contains_key((collection@, id@))
                    &&& final(self).deep_view() == old(self).deep_view().after_delete(
                        collection@,
                        id@,
                    )
                },
                Err(error) => {
                    &&& !old(self).deep_view().can_read(collection@, id@)
                    &&& error.deep_view() == ErrorModel::Json(
                        refusal_of(old(self).deep_view().docs[(collection@, id@)].doc),
                    )
                    &&& final(self).deep_view() == old(self).deep_view()
                },
            },
    {
        let ghost model = self.deep_view();
        let ghost c = collection@;
        let ghost d = id@;
        let key = (collection.to_owned(), id.to_owned());
        if let Some(stored) = self.docs.get(&key) {
            if let Some(message) = stored.doc.refusal() {
                return Err(HiveError::Json(message));
            }
        }
        let removed = self.docs.remove(&key);
        match removed {
            None => {
                assert(self.deep_view() =~= model.after_delete(c, d));
                assert(self.deep_view() =~= model);
                Ok(false)
            },
            Some(stored) => {
                reindex(
                    &mut self.entries,
                    &self.defs,
                    collection,
                    id,
                    Some(&stored.doc),
                    None,
                    Ghost(model),
                );
                proof {
                    let after = model.after_delete(c, d);
                    assert(self.deep_view() =~= after);
                    lemma_delete_consistent(model, c, d);
                    assert forall|k: EntryKeyModel| #[trigger]
                        self.entries.deep_view().contains_key(k) <==> is_entry(after, k) by {
                        assert(is_entry_with(model, c, d, None, true, k) <==> is_entry(after, k));
                    }
                }
                Ok(true)
            },
        }
    }
}

/// Rows of other collections contribute nothing.
proof fn lemma_no_entries(
    rows: Seq<((Seq<char>, Seq<char>), StoredModel)>,
    collection: Seq<char>,
    from: int,
    to: int,
)
    requires
        0 <= from <= to <= rows.len(),
        forall|i: int| from <= i < to ==> (#[trigger] rows[i]).0.0 != collection,
    ensures
        entries_in(rows.take(to), collection) == entries_in(rows.take(from), collection),
    decreases to,
{
    if from < to {
        assert(rows.take(to).drop_last() =~= rows.take(to - 1));
        assert(rows.take(to).last() == rows[to - 1]);
        lemma_no_entries(rows, collection, from, to - 1);
    }
}

/// One more row of the collection contributes its entry.
proof fn lemma_one_entry(
    rows: Seq<((Seq<char>, Seq<char>), StoredModel)>,
    collection: Seq<char>,
    i: int,
)
    requires
        0 <= i < rows.len(),
        rows[i].0.0 == collection,
    ensures
        entries_in(rows.take(i + 1), collection) == entries_in(rows.take(i), collection).push(
            EntryModel { id: rows[i].0.1, version: rows[i].1.version, doc: rows[i].1.doc },
        ),
{
    assert(rows.take(i + 1).drop_last() =~= rows.take(i));
    assert(rows.take(i + 1).last() == rows[i]);
}

/// The ids come in strictly ascending order.
pub open spec fn ids_ascend(entries: Seq<EntryModel>) -> bool {
    forall|i: int, j: int|
        0 <= i < j < entries.len() ==> text_lt(#[trigger] entries[i].id, #[trigger] entries[j].id)
}

/// An entry is of a stored document of the collection.
pub open spec fn is_stored(model: ColModel, collection: Seq<char>, entry: EntryModel) -> bool {
    model.docs.contains_key((collection, entry.id)) && model.docs[(collection, entry.id)] == (
    StoredModel { version: entry.version, doc: entry.doc })
}

proof fn lemma_entries_in(
    rows: Seq<((Seq<char>, Seq<char>), StoredModel)>,
    collection: Seq<char>,
)
    requires
        ascending::<(String, String), StoredModel>(rows),
    ensures
        ids_ascend(entries_in(rows, collection)),
        forall|e: EntryModel| #[trigger]
            entries_in(rows, collection).contains(e) <==> exists|i: int|
                0 <= i < rows.len() && #[trigger] rows[i] == (
                    (collection, e.id),
                    (StoredModel { version: e.version, doc: e.doc }),
                ),
    decreases rows.len(),
{
    let all = entries_in(rows, collection);
    if rows.len() > 0 {
        let rest = rows.drop_last();
        let before = entries_in(rest, collection);
        assert(ascending::<(String, String), StoredModel>(rest));
        lemma_entries_in(rest, collection);
        let last = rows.last();
        let added = EntryModel { id: last.0.1, version: last.1.version, doc: last.1.doc };
        if last.0.0 == collection {
            assert forall|i: int, j: int| 0 <= i < j < all.len() implies text_lt(
                #[trigger] all[i].id,
                #[trigger] all[j].id,
            ) by {
                if j == before.len() {
                    assert(before.contains(before[i]));
                    let k = choose|k: int|
                        0 <= k < rest.len() && #[trigger] rest[k] == (
                            (collection, before[i].id),
                            (StoredModel { version: before[i].version, doc: before[i].doc }),
                        );
                    assert(rows[k] == rest[k]);
                    lemma_ascending_at::<(String, String), StoredModel>(rows, k, rows.len() - 1);
                    text_lt_irreflexive(collection);
                }
            }
        }
        assert forall|e: EntryModel| #[trigger] all.contains(e) <==> exists|i: int|
            0 <= i < rows.len() && #[trigger] rows[i] == (
                (collection, e.id),
                (StoredModel { version: e.version, doc: e.doc }),
            ) by {
            if all.contains(e) {
                let x = choose|x: int| 0 <= x < all.len() && all[x] == e;
                if x < before.len() {
                    assert(before[x] == e);
                    assert(before.contains(e));
                    let k = choose|k: int|
                        0 <= k < rest.len() && #[trigger] rest[k] == (
                            (collection, e.id),
                            (StoredModel { version: e.version, doc: e.doc }),
                        );
                    assert(rows[k] == rest[k]);
                } else {
                    assert(rows[rows.len() - 1] == (
                        (collection, e.id),
                        (StoredModel { version: e.version, doc: e.doc }),
                    ));
                }
            }
            if exists|i: int|
                0 <= i < rows.len() && #[trigger] rows[i] == (
                    (collection, e.id),
                    (StoredModel { version: e.version, doc: e.doc }),
                ) {
                let i = choose|i: int|
                    0 <= i < rows.len() && #[trigger] rows[i] == (
                        (collection, e.id),
                        (StoredModel { version: e.version, doc: e.doc }),
                    );
                if i < rest.len() {
                    assert(rest[i] == rows[i]);
                    assert(before.contains(e));
                    let x = choose|x: int| 0 <= x < before.len() && before[x] == e;
                    assert(all[x] == e);
                } else {
                    assert(all[before.len() as int] == e);
                }
            }
        }
    }
}

/// A collection's listing holds exactly its documents, in strictly ascending id
/// order.
pub proof fn law_listing(model: ColModel, collection: Seq<char>)
    requires
        model.docs.dom().finite(),
    ensures
        ids_ascend(model.listing(collection)),
        forall|e: EntryModel| #[trigger]
            model.listing(collection).contains(e) <==> is_stored(model, collection, e),
{
    let rows = rows_of::<(String, String), StoredModel>(model.docs);
    lemma_finite_rows::<(String, String), StoredModel>(model.docs);
    lemma_entries_in(rows, collection);
    assert forall|e: EntryModel| #[trigger]
        model.listing(collection).contains(e) <==> is_stored(model, collection, e) by {
        if model.listing(collection).contains(e) {
            let i = choose|i: int|
                0 <= i < rows.len() && #[trigger] rows[i] == (
                    (collection, e.id),
                    (StoredModel { version: e.version, doc: e.doc }),
                );
            lemma_map_of_value::<(String, String), StoredModel>(rows, i);
        }
        if is_stored(model, collection, e) {
            lemma_map_of_domain(rows, (collection, e.id));
            let i = choose|i: int| 0 <= i < rows.len() && (#[trigger] rows[i]).0 == (collection, e.id);
            lemma_map_of_value::<(String, String), StoredModel>(rows, i);
            assert(rows[i] == (
                (collection, e.id),
                (StoredModel { version: e.version, doc: e.doc }),
            ));
        }
    }
}

proof fn lemma_filter_ascends(entries: Seq<EntryModel>, keep: spec_fn(EntryModel) -> bool)
    requires
        ids_ascend(entries),
    ensures
        ids_ascend(entries.filter(keep)),
        forall|e: EntryModel| #[trigger]
            entries.filter(keep).contains(e) <==> entries.contains(e) && keep(e),
    decreases entries.len(),
{
    reveal(Seq::filter);
    let kept = entries.filter(keep);
    if entries.len() > 0 {
        let rest = entries.drop_last();
        let before = rest.filter(keep);
        lemma_filter_ascends(rest, keep);
        assert forall|e: EntryModel| #[trigger] kept.contains(e) <==> entries.contains(e) && keep(
            e,
        ) by {
            if kept.contains(e) {
                let x = choose|x: int| 0 <= x < kept.len() && kept[x] == e;
                if x < before.len() {
                    assert(before[x] == e);
                    assert(before.contains(e));
                    let y = choose|y: int| 0 <= y < rest.len() && rest[y] == e;
                    assert(entries[y] == e);
                } else {
                    assert(entries[entries.len() - 1] == e);
                }
            }
            if entries.contains(e) && keep(e) {
                let y = choose|y: int| 0 <= y < entries.len() && entries[y] == e;
                if y < rest.len() {
                    assert(rest[y] == e);
                    assert(before.contains(e));
                    let x = choose|x: int| 0 <= x < before.len() && before[x] == e;
                    assert(kept[x] == e);
                } else {
                    assert(kept[before.len() as int] == e);
                }
            }
        }
        assert forall|i: int, j: int| 0 <= i < j < kept.len() implies text_lt(
            #[trigger] kept[i].id,
            #[trigger] kept[j].id,
        ) by {
            if j == before.len() {
                assert(before.contains(before[i]));
                let y = choose|y: int| 0 <= y < rest.len() && rest[y] == before[i];
                assert(entries[y] == before[i]);
                assert(text_lt(entries[y].id, entries[entries.len() - 1].id));
            }
        }
    }
}

/// Two listings in ascending id order that hold the same entries are equal.
proof fn lemma_same_entries(a: Seq<EntryModel>, b: Seq<EntryModel>)
    requires
        ids_ascend(a),
        ids_ascend(b),
        forall|e: EntryModel| #[trigger] a.contains(e) <==> b.contains(e),
    ensures
        a == b,
{
    let pa = Seq::new(a.len(), |i: int| (a[i].id, a[i]));
    let pb = Seq::new(b.len(), |i: int| (b[i].id, b[i]));
    assert(ascending::<String, EntryModel>(pa));
    assert(ascending::<String, EntryModel>(pb));
    let ma = map_of(pa);
    let mb = map_of(pb);
    assert forall|id: Seq<char>| #[trigger] ma.contains_key(id) implies mb.contains_key(id)
        && ma[id] == mb[id] by {
        lemma_map_of_domain(pa, id);
        lemma_map_of_domain(pb, id);
        let i = choose|i: int| 0 <= i < pa.len() && (#[trigger] pa[i]).0 == id;
        assert(a.contains(a[i]));
        assert(b.contains(a[i]));
        let j = choose|j: int| 0 <= j < b.len() && b[j] == a[i];
        assert(pb[j].0 == id);
        lemma_map_of_value::<String, EntryModel>(pa, i);
        lemma_map_of_value::<String, EntryModel>(pb, j);
    }
    assert forall|id: Seq<char>| #[trigger] mb.contains_key(id) implies ma.contains_key(id) by {
        lemma_map_of_domain(pa, id);
        lemma_map_of_domain(pb, id);
        let j = choose|j: int| 0 <= j < pb.len() && (#[trigger] pb[j]).0 == id;
        assert(b.contains(b[j]));
        assert(a.contains(b[j]));
        let i = choose|i: int| 0 <= i < a.len() && a[i] == b[j];
        assert(pa[i].0 == id);
    }
    assert(ma =~= mb);
    lemma_ascending_unique::<String, EntryModel>(pa, pb);
    assert(a =~= b) by {
        assert forall|i: int| 0 <= i < a.len() implies a[i] == b[i] by {
            assert(pa[i] == pb[i]);
        }
    }
}

/// Puts entries in the direction and window asked for.
fn arrange(matched: Vec<DocEntry>, options: &ScanOptions) -> (r: Vec<DocEntry>)
    ensures
        r.deep_view() == windowed(
            directed(matched.deep_view(), options.reverse),
            options.offset,
            options.limit,
        ),
{
    if options.reverse {
        let ghost all = matched.deep_view();
        let mut rest = matched;
        let mut out: Vec<DocEntry> = Vec::new();
        assert(out.deep_view() =~= Seq::empty());
        while rest.len() > 0
            invariant
                out.deep_view() + rest.deep_view().reverse() == all.reverse(),
            decreases rest.len(),
        {
            let ghost was = out.deep_view();
            let ghost left = rest.deep_view();
            if let Some(entry) = rest.pop() {
                out.push(entry);
                assert(out.deep_view() =~= was.push(left.last()));
                assert(rest.deep_view() =~= left.drop_last());
                assert(left.reverse() =~= seq![left.last()] + left.drop_last().reverse());
                assert(out.deep_view() + rest.deep_view().reverse() =~= was + left.reverse());
            }
        }
        assert(rest.deep_view().reverse() =~= Seq::empty());
        assert(out.deep_view() =~= all.reverse());
        apply_window(out, options.offset, options.limit)
    } else {
        apply_window(matched, options.offset, options.limit)
    }
}

/// At most `limit` entries (all of them for zero) after the first `offset`.
fn apply_window(matched: Vec<DocEntry>, offset: usize, limit: usize) -> (r: Vec<DocEntry>)
    ensures
        r.deep_view() == windowed(matched.deep_view(), offset, limit),
{
    let ghost raw = matched@;
    let ghost all = matched.deep_view();
    assert(all.len() == matched.len());
    let ghost rest = if offset <= all.len() {
        all.skip(offset as int)
    } else {
        Seq::empty()
    };
    let ghost goal = windowed(all, offset, limit);
    let mut out: Vec<DocEntry> = Vec::new();
    let mut at: usize = 0;
    assert(out.deep_view() =~= Seq::empty());
    for entry in it: matched.into_iter()
        invariant
            it.seq() == raw,
            all.len() == raw.len(),
            all.len() <= usize::MAX,
            forall|i: int| 0 <= i < raw.len() ==> #[trigger] all[i] == raw[i].deep_view(),
            at == it.index(),
            rest == (if offset <= all.len() {
                all.skip(offset as int)
            } else {
                Seq::empty()
            }),
            goal == windowed(all, offset, limit),
            out.deep_view() == goal.take(
                if at <= offset {
                    0
                } else if at - offset <= goal.len() {
                    at - offset
                } else {
                    goal.len() as int
                },
            ),
    {
        let ghost was = out.deep_view();
        if at >= offset && (limit == 0 || out.len() < limit) {
            proof {
                assert(rest[at - offset] == all[at as int]);
                assert(out.deep_view().len() == out.len());
            }
            out.push(entry);
            assert(out.deep_view() =~= was.push(all[at as int]));
            assert(out.deep_view() =~= goal.take(at - offset + 1));
        } else {
            assert(out.deep_view().len() == out.len());
        }
        at += 1;
    }
    assert(out.deep_view() =~= goal);
    out
}

/// Whether an id is not before the start and carries the prefix.
fn is_scanned(id: &str, options: &ScanOptions) -> (r: bool)
    ensures
        r == id_in_scan(id@, *options),
{
    let from_start = match &options.start {
        Some(start) => !text_less(id, start.as_str()),
        None => true,
    };
    let has_prefix = match &options.prefix {
        Some(prefix) => text_starts_with(id, prefix.as_str()),
        None => true,
    };
    from_start && has_prefix
}

/// The entries that a scan with these options goes through.
fn narrow(matched: Vec<DocEntry>, options: &ScanOptions) -> (r: Vec<DocEntry>)
    ensures
        r.deep_view() == matched.deep_view().filter(
            |entry: EntryModel| in_scan(entry, *options),
        ),
{
    let ghost raw = matched@;
    let ghost all = matched.deep_view();
    let ghost keep = |entry: EntryModel| in_scan(entry, *options);
    let mut out: Vec<DocEntry> = Vec::new();
    proof {
        reveal(Seq::filter);
        assert(out.deep_view() =~= all.take(0).filter(keep));
    }
    for entry in it: matched.into_iter()
        invariant
            it.seq() == raw,
            all.len() == raw.len(),
            forall|i: int| 0 <= i < raw.len() ==> #[trigger] all[i] == raw[i].deep_view(),
            keep == (|entry: EntryModel| in_scan(entry, *options)),
            out.deep_view() == all.take(it.index()).filter(keep),
    {
        let ghost at = it.index();
        let ghost was = out.deep_view();
        let ghost shown = entry.deep_view();
        proof {
            assert(all.take(at + 1) =~= all.take(at).push(shown));
            lemma_filter_push(all.take(at), shown, keep);
        }
        if is_scanned(entry.id.as_str(), options) {
            out.push(entry);
            assert(out.deep_view() =~= was.push(shown));
        }
    }
    assert(all.take(all.len() as int) =~= all);
    out
}

/// The error of the first entry that cannot be read.
fn find_refusal(entries: &Vec<DocEntry>) -> (r: Option<HiveError>)
    ensures
        r.deep_view() == first_refusal(entries.deep_view()),
{
    let ghost all = entries.deep_view();
    let mut i: usize = 0;
    while i < entries.len()
        invariant
            i <= entries.len(),
            all == entries.deep_view(),
            first_refusal(all.take(i as int)) is None,
        decreases entries.len() - i,
    {
        proof {
            assert(all.take(i + 1).drop_last() =~= all.take(i as int));
            assert(all.take(i + 1).last() == entries@[i as int].deep_view());
        }
        if let Some(message) = entries[i].doc.refusal() {
            let error = HiveError::Json(message);
            proof {
                lemma_refusal_stays(all, i + 1, all.len() as int);
                assert(all.take(all.len() as int) =~= all);
            }
            return Some(error);
        }
        i += 1;
    }
    assert(all.take(i as int) =~= all);
    None
}

proof fn lemma_refusal_stays(entries: Seq<EntryModel>, from: int, to: int)
    requires
        0 <= from <= to <= entries.len(),
        first_refusal(entries.take(from)) is Some,
    ensures
        first_refusal(entries.take(to)) == first_refusal(entries.take(from)),
    decreases to,
{
    if from < to {
        lemma_refusal_stays(entries, from, to - 1);
        assert(entries.take(to).drop_last() =~= entries.take(to - 1));
    }
}

impl Collections {
    /// Scan a collection in id order. It fails where a document that it goes through
    /// cannot be read.
    pub fn scan(&self, collection: &str, options: &ScanOptions) -> (r: HiveResult<Vec<DocEntry>>)
        ensures
            page_view(r) == scanned(self.deep_view().listing(collection@), *options),
    {
        let ghost c = collection@;
        let (lo, hi) = block_of(&self.docs, collection);
        let ghost rows = self.docs.pairs();
        let ghost keep = |entry: EntryModel| in_scan(entry, *options);
        let mut matched: Vec<DocEntry> = Vec::new();
        let mut i: usize = lo;
        proof {
            lemma_no_entries(rows, c, 0, lo as int);
            assert(entries_in(rows.take(lo as int), c) =~= Seq::empty());
            reveal(Seq::filter);
            assert(entries_in(rows.take(lo as int), c).filter(keep) =~= Seq::empty());
            assert(matched.deep_view() =~= Seq::empty());
        }
        while i < hi
            invariant
                lo <= i <= hi <= rows.len(),
                rows == self.docs.pairs(),
                c == collection@,
                keep == (|entry: EntryModel| in_scan(entry, *options)),
                forall|j: int|
                    0 <= j < rows.len() ==> ((#[trigger] rows[j]).0.0 == c <==> lo <= j < hi),
                matched.deep_view() == entries_in(rows.take(i as int), c).filter(keep),
            decreases hi - i,
        {
            let id = &self.docs.key_at(i).1;
            let stored = self.docs.value_at(i);
            let ghost entry = EntryModel {
                id: rows[i as int].0.1,
                version: rows[i as int].1.version,
                doc: rows[i as int].1.doc,
            };
            let ghost was = matched.deep_view();
            proof {
                lemma_one_entry(rows, c, i as int);
                let next = entries_in(rows.take(i + 1), c);
                assert(next.drop_last() =~= entries_in(rows.take(i as int), c));
                reveal(Seq::filter);
            }
            if is_scanned(id.as_str(), options) {
                assert(keep(entry));
                matched.push(
                    DocEntry {
                        id: id.clone(),
                        version: stored.version,
                        doc: stored.doc.replica(),
                    },
                );
                assert(matched.deep_view() =~= was.push(entry));
            } else {
                assert(!keep(entry));
            }
            i += 1;
        }
        proof {
            lemma_no_entries(rows, c, hi as int, rows.len() as int);
            assert(rows.take(rows.len() as int) =~= rows);
            assert(self.deep_view().listing(c) == entries_in(rows, c));
        }
        if let Some(error) = find_refusal(&matched) {
            return Err(error);
        }
        Ok(arrange(matched, options))
    }

    /// Number of documents in a collection.
    pub fn count(&self, collection: &str) -> (r: HiveResult<u64>)
        ensures
            r is Ok,
            r->Ok_0 == self.deep_view().listing(collection@).len(),
    {
        let ghost c = collection@;
        let (lo, hi) = block_of(&self.docs, collection);
        let ghost rows = self.docs.pairs();
        proof {
            lemma_no_entries(rows, c, 0, lo as int);
            assert(entries_in(rows.take(lo as int), c) =~= Seq::empty());
            lemma_block_length(rows, c, lo as int, hi as int);
            lemma_no_entries(rows, c, hi as int, rows.len() as int);
            assert(rows.take(rows.len() as int) =~= rows);
        }
        Ok((hi - lo) as u64)
    }
}

proof fn lemma_block_length(
    rows: Seq<((Seq<char>, Seq<char>), StoredModel)>,
    collection: Seq<char>,
    lo: int,
    hi: int,
)
    requires
        0 <= lo <= hi <= rows.len(),
        forall|i: int| lo <= i < hi ==> (#[trigger] rows[i]).0.0 == collection,
    ensures
        entries_in(rows.take(hi), collection).len() == entries_in(rows.take(lo), collection).len()
            + (hi - lo),
    decreases hi,
{
    if lo < hi {
        lemma_one_entry(rows, collection, hi - 1);
        lemma_block_length(rows, collection, lo, hi - 1);
    }
}

impl Collections {
    /// Looks for two documents, the first in id order, that share a value of the
    /// field.
    fn find_duplicate(&self, collection: &str, field: &String) -> (r: Option<(String, String)>)
        ensures
            match r {
                Some((other, id)) => self.deep_view().first_duplicate(
                    collection@,
                    field@,
                    other@,
                    id@,
                ),
                None => forall|a: Seq<char>, b: Seq<char>|
                    !#[trigger] self.deep_view().duplicates(collection@, field@, a, b),
            },
    {
        let ghost model = self.deep_view();
        let ghost c = collection@;
        let ghost f = field@;
        let (lo, hi) = block_of(&self.docs, collection);
        let ghost rows = self.docs.pairs();
        let mut seen: SortedMap<String, String> = SortedMap::new();
        let mut i: usize = lo;
        while i < hi
            invariant
                lo <= i <= hi <= rows.len(),
                rows == self.docs.pairs(),
                model == self.deep_view(),
                model.docs == map_of(rows),
                c == collection@,
                f == field@,
                ascending::<(String, String), StoredModel>(rows),
                forall|j: int|
                    0 <= j < rows.len() ==> ((#[trigger] rows[j]).0.0 == c <==> lo <= j < hi),
                forall|token: Seq<char>| #[trigger]
                    seen.deep_view().contains_key(token) ==> exists|j: int|
                        lo <= j < i && #[trigger] carries(rows, j, f, token)
                            && seen.deep_view()[token] == rows[j].0.1,
                forall|j: int, token: Seq<char>|
                    lo <= j < i && #[trigger] carries(rows, j, f, token)
                        ==> seen.deep_view().contains_key(token),
                forall|x: int, y: int, token: Seq<char>|
                    lo <= x < y < i ==> !(#[trigger] carries(rows, x, f, token)
                        && #[trigger] carries(rows, y, f, token)),
            decreases hi - i,
        {
            let id = &self.docs.key_at(i).1;
            let stored = self.docs.value_at(i);
            let ghost known = seen.deep_view();
            if let Some(token) = encode_field(&stored.doc, field) {
                assert(carries(rows, i as int, f, token@));
                if let Some(other) = seen.get(&token) {
                    proof {
                        let j = choose|j: int|
                            lo <= j < i && #[trigger] carries(rows, j, f, token@)
                                && known[token@] == rows[j].0.1;
                        self.lemma_is_first_duplicate(
                            rows,
                            c,
                            f,
                            lo as int,
                            hi as int,
                            j,
                            i as int,
                            token@,
                        );
                    }
                    return Some((other.clone(), id.clone()));
                }
                let ghost t = token@;
                seen.insert(token, id.clone());
                proof {
                    assert forall|token: Seq<char>| #[trigger]
                        seen.deep_view().contains_key(token) implies exists|j: int|
                        lo <= j < i + 1 && #[trigger] carries(rows, j, f, token)
                            && seen.deep_view()[token] == rows[j].0.1 by {
                        if token == t {
                            assert(carries(rows, i as int, f, token));
                        } else {
                            assert(known.contains_key(token));
                            let j = choose|j: int|
                                lo <= j < i && #[trigger] carries(rows, j, f, token)
                                    && known[token] == rows[j].0.1;
                            assert(carries(rows, j, f, token));
                        }
                    }
                    assert forall|j: int, token: Seq<char>|
                        lo <= j < i + 1 && #[trigger] carries(
                            rows,
                            j,
                            f,
                            token,
                        ) implies seen.deep_view().contains_key(token) by {
                        if j < i {
                            assert(known.contains_key(token));
                        }
                    }
                    assert forall|x: int, y: int, token: Seq<char>|
                        lo <= x < y < i + 1 implies !(#[trigger] carries(rows, x, f, token)
                        && #[trigger] carries(rows, y, f, token)) by {
                        if y == i && carries(rows, x, f, token) && carries(rows, y, f, token) {
                            assert(known.contains_key(token));
                        }
                    }
                }
            }
            i += 1;
        }
        proof {
            assert forall|a: Seq<char>, b: Seq<char>| !#[trigger] model.duplicates(c, f, a, b) by {
                if model.duplicates(c, f, a, b) {
                    self.lemma_no_duplicates(rows, c, f, lo as int, hi as int, hi as int, a, b);
                }
            }
        }
        None
    }

    /// No two of the documents from `lo` up to `n` share a value.
    proof fn lemma_no_duplicates(
        &self,
        rows: Seq<((Seq<char>, Seq<char>), StoredModel)>,
        c: Seq<char>,
        f: Seq<char>,
        lo: int,
        hi: int,
        n: int,
        a: Seq<char>,
        b: Seq<char>,
    )
        requires
            rows == self.docs.pairs(),
            ascending::<(String, String), StoredModel>(rows),
            0 <= lo <= n <= hi <= rows.len(),
            forall|j: int|
                0 <= j < rows.len() ==> ((#[trigger] rows[j]).0.0 == c <==> lo <= j < hi),
            forall|x: int, y: int, token: Seq<char>|
                lo <= x < y < n ==> !(#[trigger] carries(rows, x, f, token) && #[trigger] carries(
                    rows,
                    y,
                    f,
                    token,
                )),
            self.deep_view().duplicates(c, f, a, b),
        ensures
            n < hi,
            !text_lt(b, rows[n].0.1),
    {
        let model = self.deep_view();
        lemma_map_of_domain(rows, (c, a));
        lemma_map_of_domain(rows, (c, b));
        let x = choose|x: int| 0 <= x < rows.len() && (#[trigger] rows[x]).0 == (c, a);
        let y = choose|y: int| 0 <= y < rows.len() && (#[trigger] rows[y]).0 == (c, b);
        lemma_map_of_value::<(String, String), StoredModel>(rows, x);
        lemma_map_of_value::<(String, String), StoredModel>(rows, y);
        assert(rows[x].0.0 == c && rows[y].0.0 == c);
        text_lt_irreflexive(c);
        text_lt_irreflexive(a);
        if y < x {
            lemma_ascending_at::<(String, String), StoredModel>(rows, y, x);
            text_lt_transitive(a, b, a);
        }
        let token = field_token(model.docs[(c, a)].doc, f)->0;
        assert(carries(rows, x, f, token));
        assert(carries(rows, y, f, token));
        assert(y >= n);
        if text_lt(b, rows[n].0.1) {
            assert(rows[n].0.0 == c);
            if n < y {
                lemma_ascending_at::<(String, String), StoredModel>(rows, n, y);
                text_lt_transitive(b, rows[n].0.1, b);
            }
            text_lt_irreflexive(b);
        }
    }

    proof fn lemma_is_first_duplicate(
        &self,
        rows: Seq<((Seq<char>, Seq<char>), StoredModel)>,
        c: Seq<char>,
        f: Seq<char>,
        lo: int,
        hi: int,
        j: int,
        i: int,
        token: Seq<char>,
    )
        requires
            rows == self.docs.pairs(),
            ascending::<(String, String), StoredModel>(rows),
            0 <= lo <= j < i < hi <= rows.len(),
            forall|k: int|
                0 <= k < rows.len() ==> ((#[trigger] rows[k]).0.0 == c <==> lo <= k < hi),
            forall|x: int, y: int, token: Seq<char>|
                lo <= x < y < i ==> !(#[trigger] carries(rows, x, f, token) && #[trigger] carries(
                    rows,
                    y,
                    f,
                    token,
                )),
            carries(rows, j, f, token),
            carries(rows, i, f, token),
        ensures
            self.deep_view().first_duplicate(c, f, rows[j].0.1, rows[i].0.1),
    {
        let model = self.deep_view();
        let other = rows[j].0.1;
        let id = rows[i].0.1;
        assert(rows[j].0 == (c, other) && rows[i].0 == (c, id));
        lemma_map_of_value::<(String, String), StoredModel>(rows, j);
        lemma_map_of_value::<(String, String), StoredModel>(rows, i);
        lemma_ascending_at::<(String, String), StoredModel>(rows, j, i);
        text_lt_irreflexive(c);
        assert(model.duplicates(c, f, other, id));
        assert forall|a: Seq<char>, b: Seq<char>| text_lt(b, id) implies !#[trigger] model.duplicates(
            c,
            f,
            a,
            b,
        ) by {
            if model.duplicates(c, f, a, b) {
                self.lemma_no_duplicates(rows, c, f, lo, hi, i, a, b);
            }
        }
    }

    /// Looks for the first document of the collection, in id order, that cannot be read.
    fn find_unreadable(&self, collection: &str) -> (r: Option<(String, String)>)
        ensures
            match r {
                Some((id, message)) => self.deep_view().first_unreadable(collection@, id@)
                    && message@ == refusal_of(self.deep_view().docs[(collection@, id@)].doc),
                None => forall|id: Seq<char>| #[trigger] self.deep_view().can_read(collection@, id),
            },
    {
        let ghost model = self.deep_view();
        let ghost c = collection@;
        let (lo, hi) = block_of(&self.docs, collection);
        let ghost rows = self.docs.pairs();
        let mut i: usize = lo;
        while i < hi
            invariant
                lo <= i <= hi <= rows.len(),
                rows == self.docs.pairs(),
                model == self.deep_view(),
                c == collection@,
                ascending::<(String, String), StoredModel>(rows),
                forall|j: int|
                    0 <= j < rows.len() ==> ((#[trigger] rows[j]).0.0 == c <==> lo <= j < hi),
                forall|j: int| lo <= j < i ==> is_readable((#[trigger] rows[j]).1.doc),
            decreases hi - i,
        {
            let stored = self.docs.value_at(i);
            if let Some(message) = stored.doc.refusal() {
                let id = self.docs.key_at(i).1.clone();
                proof {
                    assert(rows[i as int].0 == (c, id@));
                    lemma_map_of_value::<(String, String), StoredModel>(rows, i as int);
                    assert forall|other: Seq<char>| text_lt(other, id@) implies #[trigger]
                        model.can_read(c, other) by {
                        self.lemma_read_before(rows, c, lo as int, hi as int, i as int, other);
                    }
                }
                return Some((id, message));
            }
            i += 1;
        }
        proof {
            assert forall|id: Seq<char>| #[trigger] model.can_read(c, id) by {
                self.lemma_read_before(rows, c, lo as int, hi as int, hi as int, id);
            }
        }
        None
    }

    /// Where the documents from `lo` up to `n` can be read, so can one that does not come
    /// at `n` or later.
    proof fn lemma_read_before(
        &self,
        rows: Seq<((Seq<char>, Seq<char>), StoredModel)>,
        c: Seq<char>,
        lo: int,
        hi: int,
        n: int,
        id: Seq<char>,
    )
        requires
            rows == self.docs.pairs(),
            ascending::<(String, String), StoredModel>(rows),
            0 <= lo <= n <= hi <= rows.len(),
            forall|j: int|
                0 <= j < rows.len() ==> ((#[trigger] rows[j]).0.0 == c <==> lo <= j < hi),
            forall|j: int| lo <= j < n ==> is_readable((#[trigger] rows[j]).1.doc),
            n < hi ==> text_lt(id, rows[n].0.1),
        ensures
            self.deep_view().can_read(c, id),
    {
        let model = self.deep_view();
        if model.docs.contains_key((c, id)) {
            lemma_map_of_domain(rows, (c, id));
            let y = choose|y: int| 0 <= y < rows.len() && (#[trigger] rows[y]).0 == (c, id);
            lemma_map_of_value::<(String, String), StoredModel>(rows, y);
            assert(rows[y].0.0 == c);
            if n <= y {
                assert(rows[n].0.0 == c);
                text_lt_irreflexive(id);
                text_lt_irreflexive(c);
                if n < y {
                    lemma_ascending_at::<(String, String), StoredModel>(rows, n, y);
                    text_lt_transitive(id, rows[n].0.1, id);
                }
            }
        }
    }

    /// Create an equality index on a top-level field, backfilling existing
    /// documents. With `unique: true`, existing duplicates make this fail, and so does
    /// a document of the collection that cannot be read.
    /// Idempotent when the index already exists with the same uniqueness.
    pub fn create_index(&mut self, collection: &str, field: &str, unique: bool) -> (r: HiveResult<
        (),
    >)
        requires
            old(self).wf(),
        ensures
            final(self).wf(),
            old(self).deep_view().indexing(
                collection@,
                field@,
                unique,
                unit_view(r),
                final(self).deep_view(),
            ),
    {
        let ghost model = self.deep_view();
        let ghost c = collection@;
        let ghost f = field@;
        let key = (collection.to_owned(), field.to_owned());
        if !self.defs.contains_key(&key) {
            if let Some((id, message)) = self.find_unreadable(collection) {
                if unique {
                    if let Some((other, twin)) = self.find_duplicate(collection, &key.1) {
                        proof {
                            assert(model.first_duplicate(c, f, other@, twin@));
                        }
                        if text_less(twin.as_str(), id.as_str()) {
                            proof {
                                assert forall|x: Seq<char>| !text_lt(twin@, x) implies #[trigger]
                                    model.can_read(c, x) by {
                                    text_lt_total(twin@, x);
                                    if x != twin@ {
                                        text_lt_transitive(x, twin@, id@);
                                    }
                                }
                            }
                            return Err(
                                HiveError::InvalidInput(
                                    duplicate_message(
                                        collection,
                                        field,
                                        other.as_str(),
                                        twin.as_str(),
                                    ),
                                ),
                            );
                        }
                        proof {
                            assert forall|a: Seq<char>, b: Seq<char>| text_lt(b, id@) implies
                                !#[trigger] model.duplicates(c, f, a, b) by {
                                text_lt_total(twin@, id@);
                                if twin@ != id@ {
                                    text_lt_transitive(b, id@, twin@);
                                }
                            }
                        }
                    }
                }
                assert(model.first_unreadable(c, id@));
                return Err(HiveError::Json(message));
            }
        }
        self.add_index(collection, field, unique)
    }

    /// Adds an index, whether or not the documents can be read.
    fn add_index(&mut self, collection: &str, field: &str, unique: bool) -> (r: HiveResult<
        (),
    >)
        requires
            old(self).wf(),
        ensures
            final(self).wf(),
            ({
                let model = old(self).deep_view();
                let key = (collection@, field@);
                if model.defs.contains_key(key) {
                    &&& final(self).deep_view() == model
                    &&& match r {
                        Ok(_) => model.defs[key] == unique,
                        Err(error) => model.defs[key] != unique && error.deep_view()
                            == ErrorModel::InvalidInput(
                            redefined_text(collection@, field@, model.defs[key]),
                        ),
                    }
                } else {
                    match r {
                        Ok(_) => {
                            &&& unique ==> forall|a: Seq<char>, b: Seq<char>|
                                !#[trigger] model.duplicates(collection@, field@, a, b)
                            &&& final(self).deep_view() == model.after_index(
                                collection@,
                                field@,
                                unique,
                            )
                        },
                        Err(error) => {
                            &&& unique
                            &&& exists|other: Seq<char>, id: Seq<char>| #[trigger]
                                model.first_duplicate(collection@, field@, other, id)
                                    && error.deep_view() == ErrorModel::InvalidInput(
                                    duplicate_text(collection@, field@, other, id),
                                )
                            &&& final(self).deep_view() == model
                        },
                    }
                }
            }),
    {
        let ghost model = self.deep_view();
        let ghost c = collection@;
        let ghost f = field@;
        let key = (collection.to_owned(), field.to_owned());
        if let Some(def) = self.defs.get(&key) {
            if def.unique == unique {
                return Ok(());
            }
            return Err(
                HiveError::InvalidInput(redefined_message(collection, field, def.unique)),
            );
        }
        if unique {
            if let Some((other, id)) = self.find_duplicate(collection, &key.1) {
                proof {
                    assert(model.first_duplicate(c, f, other@, id@));
                }
                return Err(
                    HiveError::InvalidInput(
                        duplicate_message(collection, field, other.as_str(), id.as_str()),
                    ),
                );
            }
        }
        // Backfill from existing documents.

        let (lo, hi) = block_of(&self.docs, collection);
        let ghost rows = self.docs.pairs();
        let mut i: usize = lo;
        while i < hi
            invariant
                lo <= i <= hi <= rows.len(),
                rows == self.docs.pairs(),
                self.deep_view() == model,
                model.docs == map_of(rows),
                c == collection@,
                f == field@,
                key.deep_view() == (c, f),
                ascending::<(String, String), StoredModel>(rows),
                forall|j: int|
                    0 <= j < rows.len() ==> ((#[trigger] rows[j]).0.0 == c <==> lo <= j < hi),
                !model.defs.contains_key((c, f)),
                forall|k: EntryKeyModel| #[trigger]
                    self.entries.deep_view().contains_key(k) <==> is_entry(model, k) || (k.0 == (
                        c,
                        f,
                    ) && backfilled(rows, lo as int, i as int, k)),
            decreases hi - i,
        {
            let id = self.docs.key_at(i).1.clone();
            let stored = self.docs.value_at(i);
            let ghost before = self.entries.deep_view();
            let token = encode_field(&stored.doc, &key.1);
            if let Some(token) = token {
                self.entries.insert(
                    ((collection.to_owned(), field.to_owned()), (token, id)),
                    (),
                );
            }
            proof {
                assert forall|k: EntryKeyModel| #[trigger]
                    self.entries.deep_view().contains_key(k) <==> is_entry(model, k) || (k.0 == (
                        c,
                        f,
                    ) && backfilled(rows, lo as int, i + 1, k)) by {
                    assert(before.contains_key(k) <==> is_entry(model, k) || (k.0 == (c, f)
                        && backfilled(rows, lo as int, i as int, k)));
                    if backfilled(rows, lo as int, i + 1, k) {
                        let j = choose|j: int|
                            lo <= j < i + 1 && #[trigger] carries(rows, j, k.0.1, k.1.0)
                                && rows[j].0.1 == k.1.1;
                        if j < i {
                            assert(carries(rows, j, k.0.1, k.1.0));
                            assert(backfilled(rows, lo as int, i as int, k));
                        }
                    }
                    if backfilled(rows, lo as int, i as int, k) {
                        let j = choose|j: int|
                            lo <= j < i && #[trigger] carries(rows, j, k.0.1, k.1.0)
                                && rows[j].0.1 == k.1.1;
                        assert(carries(rows, j, k.0.1, k.1.0));
                    }
                    if k.0 == (c, f) && carries(rows, i as int, f, k.1.0) && rows[i as int].0.1
                        == k.1.1 {
                        assert(backfilled(rows, lo as int, i + 1, k));
                    }
                }
            }
            i += 1;
        }
        self.defs.insert(key, IndexDef { unique });
        proof {
            let after = model.after_index(c, f, unique);
            assert(self.deep_view() =~= after);
            assert forall|k: EntryKeyModel| #[trigger]
                self.entries.deep_view().contains_key(k) <==> is_entry(after, k) by {
                if k.0 == (c, f) {
                    assert(backfilled(rows, lo as int, hi as int, k) <==> after.has_token(
                        k.0.0,
                        k.0.1,
                        k.1.1,
                        k.1.0,
                    )) by {
                        if backfilled(rows, lo as int, hi as int, k) {
                            let j = choose|j: int|
                                lo <= j < hi && #[trigger] carries(rows, j, k.0.1, k.1.0)
                                    && rows[j].0.1 == k.1.1;
                            lemma_map_of_value::<(String, String), StoredModel>(rows, j);
                            assert(rows[j].0 == (c, k.1.1));
                        }
                        if after.has_token(k.0.0, k.0.1, k.1.1, k.1.0) {
                            lemma_map_of_domain(rows, (c, k.1.1));
                            let j = choose|j: int|
                                0 <= j < rows.len() && (#[trigger] rows[j]).0 == (c, k.1.1);
                            lemma_map_of_value::<(String, String), StoredModel>(rows, j);
                            assert(rows[j].0.0 == c);
                            assert(carries(rows, j, k.0.1, k.1.0));
                        }
                    }
                } else {
                    assert(is_entry(after, k) <==> is_entry(model, k));
                }
            }
            lemma_index_consistent(model, c, f, unique);
        }
        Ok(())
    }

    /// Look up documents whose indexed `field` equals `value`.
    /// Requires a previous [`Collections::create_index`] on that field. It fails where a
    /// document that it finds cannot be read.
    pub fn find_by(&self, collection: &str, field: &str, value: &Json, options: &ScanOptions) -> (r:
        HiveResult<Vec<DocEntry>>)
        requires
            self.wf(),
        ensures
            page_view(r) == self.deep_view().find(
                collection@,
                field@,
                value.deep_view(),
                *options,
            ),
    {
        let ghost model = self.deep_view();
        let ghost c = collection@;
        let ghost f = field@;
        if !self.defs.contains_key(&(collection.to_owned(), field.to_owned())) {
            return Err(HiveError::InvalidInput(no_index_message(collection, field)));
        }
        let token = match encode_index_value(value) {
            Some(token) => token,
            None => {
                let nothing: Vec<DocEntry> = Vec::new();
                proof {
                    let none = Seq::<EntryModel>::empty();
                    assert(nothing.deep_view() =~= none);
                    assert(none.reverse() =~= none);
                    assert(windowed(none, options.offset, options.limit) =~= none);
                }
                return Ok(nothing);
            },
        };
        let ghost t = token@;
        let docs: usize = self.docs.len();
        let (lo, hi) = entry_block(&self.entries, collection, field, token.as_str());
        let ghost keys = self.entries.pairs();
        let mut matched: Vec<DocEntry> = Vec::new();
        let mut i: usize = lo;
        while i < hi
            invariant
                lo <= i <= hi <= keys.len(),
                keys == self.entries.pairs(),
                model == self.deep_view(),
                c == collection@,
                f == field@,
                t == token@,
                self.wf(),
                ascending::<EntryKey, ()>(keys),
                forall|j: int|
                    lo <= j < hi ==> (#[trigger] keys[j]).0.0 == (c, f) && keys[j].0.1.0 == t,
                matched.len() == i - lo,
                forall|j: int|
                    0 <= j < matched.len() ==> (#[trigger] matched@[j]).deep_view().id
                        == keys[lo + j].0.1.1,
                forall|j: int|
                    0 <= j < matched.len() ==> is_stored(
                        model,
                        c,
                        (#[trigger] matched@[j]).deep_view(),
                    ) && field_token(matched@[j].deep_view().doc, f) == Some(t),
            decreases hi - i,
        {
            let id = &self.entries.key_at(i).1.1;
            proof {
                let key = keys[i as int].0;
                assert(self.entries.deep_view().contains_key(key));
                assert(is_entry(model, key));
            }
            if let Some(stored) = self.docs.get(&(collection.to_owned(), id.clone())) {
                matched.push(
                    DocEntry {
                        id: id.clone(),
                        version: stored.version,
                        doc: stored.doc.replica(),
                    },
                );
            }
            i += 1;
        }
        proof {
            let found = matched.deep_view();
            let keep = |entry: EntryModel| field_token(entry.doc, f) == Some(t);
            let rows = self.docs.pairs();
            lemma_map_of_finite(rows);
            law_listing(model, c);
            lemma_filter_ascends(model.listing(c), keep);
            assert(ids_ascend(found)) by {
                assert forall|x: int, y: int| 0 <= x < y < found.len() implies text_lt(
                    #[trigger] found[x].id,
                    #[trigger] found[y].id,
                ) by {
                    assert(found[x] == matched@[x].deep_view());
                    assert(found[y] == matched@[y].deep_view());
                    lemma_ascending_at::<EntryKey, ()>(keys, lo + x, lo + y);
                    <(String, String) as SortKey>::before_irreflexive((c, f));
                    text_lt_irreflexive(t);
                }
            }
            assert forall|e: EntryModel| #[trigger] found.contains(e) <==> model.listing(c).filter(
                keep,
            ).contains(e) by {
                if found.contains(e) {
                    let x = choose|x: int| 0 <= x < found.len() && found[x] == e;
                    assert(found[x] == matched@[x].deep_view());
                    assert(model.listing(c).contains(e));
                }
                if model.listing(c).filter(keep).contains(e) {
                    assert(model.listing(c).contains(e));
                    assert(is_stored(model, c, e));
                    let key = ((c, f), (t, e.id));
                    assert(is_entry(model, key));
                    assert(self.entries.deep_view().contains_key(key));
                    lemma_map_of_domain(keys, key);
                    let j = choose|j: int| 0 <= j < keys.len() && (#[trigger] keys[j]).0 == key;
                    assert(keys[j].0.0 == (c, f) && keys[j].0.1.0 == t);
                    assert(found[j - lo] == matched@[j - lo].deep_view());
                    assert(matched@[j - lo].deep_view() == e);
                }
            }
            lemma_same_entries(found, model.listing(c).filter(keep));
            lemma_filter_twice(
                model.listing(c),
                keep,
                |entry: EntryModel| in_scan(entry, *options),
                |entry: EntryModel|
                    in_scan(entry, *options) && field_token(entry.doc, f) == Some(t),
            );
        }
        let kept = narrow(matched, options);
        if let Some(error) = find_refusal(&kept) {
            return Err(error);
        }
        Ok(arrange(kept, options))
    }

    /// Apply one operation of a batch.
    fn apply_op(&mut self, op: &ColOp) -> (r: HiveResult<()>)
        requires
            old(self).wf(),
            old(self).deep_view().versions_below(1),
        ensures
            final(self).wf(),
            match r {
                Ok(_) => old(self).deep_view().can_apply(op.deep_view())
                    && final(self).deep_view() == old(self).deep_view().after_op(op.deep_view()),
                Err(error) => !old(self).deep_view().can_apply(op.deep_view()) && old(
                    self,
                ).deep_view().op_error(op.deep_view(), error.deep_view()),
            },
    {
        match op {
            ColOp::Put { collection, id, doc, expected_version } => {
                assert(old(self).deep_view().docs.contains_key((collection@, id@)) ==> old(
                    self,
                ).deep_view().docs[(collection@, id@)].version + 1 <= u64::MAX);
                match self.put(
                    collection.as_str(),
                    id.as_str(),
                    doc,
                    PutOptions { expected_version: *expected_version },
                ) {
                    Ok(_) => Ok(()),
                    Err(error) => Err(error),
                }
            },
            ColOp::Delete { collection, id } => match self.delete(
                collection.as_str(),
                id.as_str(),
            ) {
                Ok(_) => Ok(()),
                Err(error) => Err(error),
            },
        }
    }

    /// Apply several puts/deletes atomically: either every operation commits
    /// or none does (a version conflict or unique violation aborts all).
    pub fn batch(&mut self, ops: &Vec<ColOp>) -> (r: HiveResult<()>)
        requires
            old(self).wf(),
            old(self).deep_view().versions_below(ops.len() as int),
        ensures
            final(self).wf(),
            match r {
                Ok(_) => old(self).deep_view().can_apply_first(ops.deep_view(), ops.len() as nat)
                    && final(self).deep_view() == old(self).deep_view().after_ops(
                    ops.deep_view(),
                    ops.len() as nat,
                ),
                Err(error) => final(self).deep_view() == old(self).deep_view() && exists|i: int|
                    #[trigger] batch_stops(
                        old(self).deep_view(),
                        ops.deep_view(),
                        i,
                        error.deep_view(),
                    ),
            },
    {
        let ghost model = self.deep_view();
        let ghost all = ops.deep_view();
        let mut work = self.replica();
        let mut i: usize = 0;
        while i < ops.len()
            invariant
                i <= ops.len(),
                all == ops.deep_view(),
                self.deep_view() == model,
                self.wf(),
                work.wf(),
                work.deep_view() == model.after_ops(all, i as nat),
                model.can_apply_first(all, i as nat),
                work.deep_view().versions_below(ops.len() - i),
            decreases ops.len() - i,
        {
            let ghost before = work.deep_view();
            assert(all[i as int] == ops@[i as int].deep_view());
            match work.apply_op(&ops[i]) {
                Ok(_) => {
                    proof {
                        assert((i + 1 - 1) as nat == i as nat);
                        lemma_versions_after_op(before, all[i as int], ops.len() - i);
                        assert(before.can_apply(all[i as int]));
                    }
                },
                Err(error) => {
                    assert(batch_stops(model, all, i as int, error.deep_view()));
                    return Err(error);
                },
            }
            i += 1;
        }
        *self = work;
        Ok(())
    }
}

/// An operation raises no version by more than one.
proof fn lemma_versions_after_op(model: ColModel, op: OpModel, margin: int)
    requires
        model.versions_below(margin),
        0 < margin <= u64::MAX,
    ensures
        model.after_op(op).versions_below(margin - 1),
{
    let after = model.after_op(op);
    assert forall|key: (Seq<char>, Seq<char>)| #[trigger] after.docs.contains_key(key) implies
        after.docs[key].version + (margin - 1) <= u64::MAX by {
        if model.docs.contains_key(key) {
            assert(model.docs[key].version + margin <= u64::MAX);
        }
    }
}

/// A batch stops at its `i`-th operation, the first that does not go through,
/// with this error.
pub open spec fn batch_stops(
    model: ColModel,
    ops: Seq<OpModel>,
    i: int,
    error: ErrorModel,
) -> bool {
    &&& 0 <= i < ops.len()
    &&& model.can_apply_first(ops, i as nat)
    &&& !model.after_ops(ops, i as nat).can_apply(ops[i])
    &&& model.after_ops(ops, i as nat).op_error(ops[i], error)
}

/// The `j`-th document carries the token in the field.
spec fn carries(
    rows: Seq<((Seq<char>, Seq<char>), StoredModel)>,
    j: int,
    field: Seq<char>,
    token: Seq<char>,
) -> bool {
    field_token(rows[j].1.doc, field) == Some(token)
}

/// The entry is of one of the documents from `lo` up to `hi`.
spec fn backfilled(
    rows: Seq<((Seq<char>, Seq<char>), StoredModel)>,
    lo: int,
    hi: int,
    key: EntryKeyModel,
) -> bool {
    exists|j: int|
        lo <= j < hi && #[trigger] carries(rows, j, key.0.1, key.1.0) && rows[j].0.1 == key.1.1
}

/// A stored document as it is persisted.
#[derive(Debug)]
pub struct DocRow {
    pub collection: String,
    pub id: String,
    pub version: u64,
    pub doc: Json,
}

/// An index definition as it is persisted.
#[derive(Debug)]
pub struct DefRow {
    pub collection: String,
    pub field: String,
    pub unique: bool,
}

impl DeepView for DocRow {
    type V = ((Seq<char>, Seq<char>), StoredModel);

    open spec fn deep_view(&self) -> ((Seq<char>, Seq<char>), StoredModel) {
        (
            (self.collection@, self.id@),
            StoredModel { version: self.version, doc: self.doc.deep_view() },
        )
    }
}

impl DeepView for DefRow {
    type V = ((Seq<char>, Seq<char>), bool);

    open spec fn deep_view(&self) -> ((Seq<char>, Seq<char>), bool) {
        ((self.collection@, self.field@), self.unique)
    }
}

/// No index is defined twice.
pub open spec fn defined_once(defs: Seq<((Seq<char>, Seq<char>), bool)>) -> bool {
    forall|i: int, j: int| 0 <= i < j < defs.len() ==> (#[trigger] defs[i]).0 != (#[trigger] defs[j]).0
}

/// What persisted rows stand for.
pub open spec fn stored_in(
    docs: Seq<((Seq<char>, Seq<char>), StoredModel)>,
    defs: Seq<((Seq<char>, Seq<char>), bool)>,
) -> ColModel {
    ColModel { docs: map_of(docs), defs: map_of(defs) }
}

/// The `i`-th definition is refused, after those before it were taken up.
pub open spec fn def_refused(
    docs: Seq<((Seq<char>, Seq<char>), StoredModel)>,
    defs: Seq<((Seq<char>, Seq<char>), bool)>,
    i: int,
    error: ErrorModel,
) -> bool {
    let before = stored_in(docs, defs.take(i));
    let (collection, field) = defs[i].0;
    if before.defs.contains_key(defs[i].0) {
        before.defs[defs[i].0] != defs[i].1 && error == ErrorModel::InvalidInput(
            redefined_text(collection, field, before.defs[defs[i].0]),
        )
    } else {
        defs[i].1 && exists|other: Seq<char>, id: Seq<char>| #[trigger]
            before.first_duplicate(collection, field, other, id) && error
                == ErrorModel::InvalidInput(duplicate_text(collection, field, other, id))
    }
}

/// Opening stops at the `i`-th definition, the first that is refused, with this error.
pub open spec fn opening_stops(
    docs: Seq<((Seq<char>, Seq<char>), StoredModel)>,
    defs: Seq<((Seq<char>, Seq<char>), bool)>,
    i: int,
    error: ErrorModel,
) -> bool {
    &&& 0 <= i < defs.len()
    &&& def_refused(docs, defs, i, error)
    &&& forall|j: int, other: ErrorModel|
        0 <= j < i ==> !#[trigger] def_refused(docs, defs, j, other)
}

impl Collections {
    /// A document as it is persisted, also where it cannot be read.
    pub fn row(&self, collection: &str, id: &str) -> (r: Option<DocRow>)
        ensures
            match r {
                Some(row) => {
                    &&& self.deep_view().docs.contains_key((collection@, id@))
                    &&& row.deep_view() == (
                        (collection@, id@),
                        self.deep_view().docs[(collection@, id@)],
                    )
                },
                None => !self.deep_view().docs.contains_key((collection@, id@)),
            },
    {
        match self.docs.get(&(collection.to_owned(), id.to_owned())) {
            Some(stored) => Some(
                DocRow {
                    collection: collection.to_owned(),
                    id: id.to_owned(),
                    version: stored.version,
                    doc: stored.doc.replica(),
                },
            ),
            None => None,
        }
    }

    /// The store's documents as rows, in key order.
    pub fn doc_rows(&self) -> (r: Vec<DocRow>)
        ensures
            r.deep_view() == rows_of::<(String, String), StoredModel>(self.deep_view().docs),
            map_of(r.deep_view()) == self.deep_view().docs,
    {
        let n: usize = self.docs.len();
        let ghost rows = self.docs.pairs();
        let mut out: Vec<DocRow> = Vec::new();
        let mut i: usize = 0;
        assert(out.deep_view() =~= rows.take(0));
        while i < n
            invariant
                i <= n,
                n == rows.len(),
                rows == self.docs.pairs(),
                out.deep_view() == rows.take(i as int),
            decreases n - i,
        {
            let ghost was = out.deep_view();
            let key = self.docs.key_at(i);
            let stored = self.docs.value_at(i);
            out.push(
                DocRow {
                    collection: key.0.clone(),
                    id: key.1.clone(),
                    version: stored.version,
                    doc: stored.doc.replica(),
                },
            );
            assert(out.deep_view() =~= was.push(rows[i as int]));
            assert(rows.take(i + 1) =~= was.push(rows[i as int]));
            i += 1;
        }
        assert(rows.take(i as int) =~= rows);
        out
    }

    /// The store's index definitions as rows, in key order.
    pub fn def_rows(&self) -> (r: Vec<DefRow>)
        ensures
            r.deep_view() == rows_of::<(String, String), bool>(self.deep_view().defs),
            map_of(r.deep_view()) == self.deep_view().defs,
            defined_once(r.deep_view()),
    {
        let n: usize = self.defs.len();
        let ghost rows = self.defs.pairs();
        let mut out: Vec<DefRow> = Vec::new();
        let mut i: usize = 0;
        assert(out.deep_view() =~= rows.take(0));
        while i < n
            invariant
                i <= n,
                n == rows.len(),
                rows == self.defs.pairs(),
                out.deep_view() == rows.take(i as int),
            decreases n - i,
        {
            let ghost was = out.deep_view();
            let key = self.defs.key_at(i);
            out.push(
                DefRow {
                    collection: key.0.clone(),
                    field: key.1.clone(),
                    unique: self.defs.value_at(i).unique,
                },
            );
            assert(out.deep_view() =~= was.push(rows[i as int]));
            assert(rows.take(i + 1) =~= was.push(rows[i as int]));
            i += 1;
        }
        assert(rows.take(i as int) =~= rows);
        proof {
            assert forall|x: int, y: int| 0 <= x < y < rows.len() implies (#[trigger] rows[x]).0
                != (#[trigger] rows[y]).0 by {
                lemma_ascending_at::<(String, String), bool>(rows, x, y);
                <(String, String) as SortKey>::before_irreflexive(rows[x].0);
            }
        }
        out
    }

    /// Opens a store from its persisted rows. Rows that respect their unique
    /// indexes and define no index twice always open; otherwise the first definition
    /// that contradicts an earlier one, or that the documents break, is an error.
    pub fn open(docs: Vec<DocRow>, defs: Vec<DefRow>) -> (r: HiveResult<Self>)
        ensures
            match r {
                Ok(store) => store.wf() && store.deep_view() == stored_in(
                    docs.deep_view(),
                    defs.deep_view(),
                ),
                Err(error) => {
                    &&& exists|i: int| #[trigger]
                        opening_stops(docs.deep_view(), defs.deep_view(), i, error.deep_view())
                    &&& !(defined_once(defs.deep_view()) && stored_in(
                        docs.deep_view(),
                        defs.deep_view(),
                    ).is_consistent())
                },
            },
    {
        let ghost doc_rows = docs.deep_view();
        let ghost raw = docs@;
        let ghost def_rows = defs.deep_view();
        let mut store = Collections::new();
        assert(map_of(doc_rows.take(0)) =~= Map::empty());
        assert(map_of(def_rows.take(0)) =~= Map::empty());
        for row in it: docs.into_iter()
            invariant
                it.seq() == raw,
                doc_rows.len() == raw.len(),
                forall|i: int| 0 <= i < raw.len() ==> #[trigger] doc_rows[i] == raw[i].deep_view(),
                store.defs.deep_view() == Map::<(Seq<char>, Seq<char>), bool>::empty(),
                store.entries.deep_view() == Map::<EntryKeyModel, ()>::empty(),
                store.docs.deep_view() == map_of(doc_rows.take(it.index() as int)),
        {
            proof {
                let next = doc_rows.take(it.index() + 1);
                assert(next.drop_last() =~= doc_rows.take(it.index() as int));
                assert(next.last() == row.deep_view());
            }
            store.docs.insert(
                (row.collection, row.id),
                StoredDoc { version: row.version, doc: row.doc },
            );
        }
        assert(doc_rows.take(doc_rows.len() as int) =~= doc_rows);
        let mut i: usize = 0;
        while i < defs.len()
            invariant
                i <= defs.len(),
                def_rows == defs.deep_view(),
                doc_rows == docs.deep_view(),
                store.wf(),
                store.deep_view() == stored_in(doc_rows, def_rows.take(i as int)),
                forall|j: int, other: ErrorModel|
                    0 <= j < i ==> !#[trigger] def_refused(doc_rows, def_rows, j, other),
            decreases defs.len() - i,
        {
            let ghost before = store.deep_view();
            let ghost key = def_rows[i as int].0;
            proof {
                let next = def_rows.take(i + 1);
                assert(next.drop_last() =~= def_rows.take(i as int));
                assert(next.last() == defs@[i as int].deep_view());
            }
            match store.add_index(
                defs[i].collection.as_str(),
                defs[i].field.as_str(),
                defs[i].unique,
            ) {
                Ok(_) => {
                    assert(store.deep_view() =~= stored_in(doc_rows, def_rows.take(i + 1)));
                    assert forall|other: ErrorModel| !#[trigger] def_refused(
                        doc_rows,
                        def_rows,
                        i as int,
                        other,
                    ) by {
                        if def_refused(doc_rows, def_rows, i as int, other)
                            && !before.defs.contains_key(key) {
                            let (a, b) = choose|a: Seq<char>, b: Seq<char>| #[trigger]
                                before.first_duplicate(key.0, key.1, a, b);
                            assert(before.duplicates(key.0, key.1, a, b));
                        }
                    }
                },
                Err(error) => {
                    proof {
                        assert(opening_stops(doc_rows, def_rows, i as int, error.deep_view()));
                        let whole = stored_in(doc_rows, def_rows);
                        if defined_once(def_rows) && whole.is_consistent() {
                            lemma_defined_once(def_rows, i as int);
                            lemma_map_of_domain(def_rows.take(i as int), key);
                            if before.defs.contains_key(key) {
                                let j = choose|j: int|
                                    0 <= j < i && (#[trigger] def_rows.take(i as int)[j]).0 == key;
                                assert(def_rows[j].0 == key);
                            }
                            let (other, id) = choose|other: Seq<char>, id: Seq<char>| #[trigger]
                                before.first_duplicate(key.0, key.1, other, id);
                            assert(before.duplicates(key.0, key.1, other, id));
                            let token = field_token(before.docs[(key.0, other)].doc, key.1)->0;
                            assert(whole.is_unique(key.0, key.1));
                            assert(whole.has_token(key.0, key.1, other, token));
                            assert(whole.has_token(key.0, key.1, id, token));
                            text_lt_irreflexive(other);
                        }
                    }
                    return Err(error);
                },
            }
            i += 1;
        }
        assert(def_rows.take(i as int) =~= def_rows);
        Ok(store)
    }
}

proof fn lemma_defined_once(defs: Seq<((Seq<char>, Seq<char>), bool)>, i: int)
    requires
        defined_once(defs),
        0 <= i < defs.len(),
    ensures
        map_of(defs).contains_key(defs[i].0),
        map_of(defs)[defs[i].0] == defs[i].1,
    decreases defs.len(),
{
    let rest = defs.drop_last();
    if i < rest.len() {
        assert(rest[i] == defs[i]);
        lemma_defined_once(rest, i);
        assert(defs[i].0 != defs[defs.len() - 1].0);
    }
}

/// A stored document is read back as it was put, with a version one higher than
/// before; every other document of every collection stays as it was. Only a document that
/// is nested too deep is not read back: reading it fails.
pub proof fn law_put_then_get(model: ColModel, collection: Seq<char>, id: Seq<char>, doc: JsonModel)
    requires
        model.version_of(collection, id) < u64::MAX,
    ensures
        ({
            let after = model.after_put(collection, id, doc);
            &&& is_readable(doc) ==> after.read(collection, id) == Ok::<
                Option<EntryModel>,
                ErrorModel,
            >(
                Some(
                    EntryModel {
                        id,
                        version: (model.version_of(collection, id) + 1) as u64,
                        doc,
                    },
                ),
            )
            &&& !is_readable(doc) ==> after.read(collection, id) is Err
            &&& after.version_of(collection, id) == model.version_of(collection, id) + 1
            &&& forall|c: Seq<char>, d: Seq<char>|
                (c, d) != (collection, id) ==> (#[trigger] after.docs.contains_key((c, d))
                    <==> model.docs.contains_key((c, d))) && (model.docs.contains_key((c, d))
                    ==> after.docs[(c, d)] == model.docs[(c, d)])
        }),
{
}

/// A put that expects another version than the current one is refused, whatever
/// the document.
pub proof fn law_stale_put_refused(
    model: ColModel,
    collection: Seq<char>,
    id: Seq<char>,
    doc: JsonModel,
    expected: u64,
)
    requires
        expected != model.version_of(collection, id),
    ensures
        !model.can_put(collection, id, doc, Some(expected)),
{
}

/// Of two puts that expect the same version, the second is refused.
pub proof fn law_one_of_two_writers_wins(
    model: ColModel,
    collection: Seq<char>,
    id: Seq<char>,
    first: JsonModel,
    second: JsonModel,
    expected: u64,
)
    requires
        model.version_of(collection, id) < u64::MAX,
        model.can_put(collection, id, first, Some(expected)),
    ensures
        !model.after_put(collection, id, first).can_put(collection, id, second, Some(expected)),
{
}

/// Expecting version zero means that the document must not exist.
pub proof fn law_create_only(model: ColModel, collection: Seq<char>, id: Seq<char>, doc: JsonModel)
    requires
        model.docs.contains_key((collection, id)),
        model.docs[(collection, id)].version > 0,
    ensures
        !model.can_put(collection, id, doc, Some(0)),
{
}

/// A deleted document is gone, and putting it again starts at version one.
pub proof fn law_delete_then_put(
    model: ColModel,
    collection: Seq<char>,
    id: Seq<char>,
    doc: JsonModel,
)
    ensures
        !model.after_delete(collection, id).docs.contains_key((collection, id)),
        model.after_delete(collection, id).after_put(collection, id, doc).version_of(
            collection,
            id,
        ) == 1,
{
}

/// Putting a document again with the values that it has never violates a unique
/// index.
pub proof fn law_put_again(model: ColModel, collection: Seq<char>, id: Seq<char>)
    requires
        model.is_consistent(),
        model.docs.contains_key((collection, id)),
        model.can_read(collection, id),
    ensures
        model.can_put(collection, id, model.docs[(collection, id)].doc, None),
{
    let doc = model.docs[(collection, id)].doc;
    assert forall|field: Seq<char>, other: Seq<char>| !#[trigger] model.clashes(
        collection,
        field,
        id,
        doc,
        other,
    ) by {
        if model.clashes(collection, field, id, doc, other) {
            let token = field_token(doc, field)->0;
            assert(model.has_token(collection, field, id, token));
            assert(model.has_token(collection, field, other, token));
        }
    }
}

/// Every state that a store can reach by puts, deletes and new indexes keeps its
/// unique indexes.
pub proof fn law_steps_keep_unique_indexes(
    model: ColModel,
    collection: Seq<char>,
    id: Seq<char>,
    doc: JsonModel,
    expected: Option<u64>,
    field: Seq<char>,
    unique: bool,
)
    requires
        model.is_consistent(),
    ensures
        model.can_put(collection, id, doc, expected) ==> model.after_put(
            collection,
            id,
            doc,
        ).is_consistent(),
        model.after_delete(collection, id).is_consistent(),
        (unique ==> forall|a: Seq<char>, b: Seq<char>|
            !#[trigger] model.duplicates(collection, field, a, b)) ==> model.after_index(
            collection,
            field,
            unique,
        ).is_consistent(),
{
    if model.can_put(collection, id, doc, expected) {
        lemma_put_consistent(model, collection, id, doc);
    }
    lemma_delete_consistent(model, collection, id);
    if unique ==> forall|a: Seq<char>, b: Seq<char>|
        !#[trigger] model.duplicates(collection, field, a, b) {
        lemma_index_consistent(model, collection, field, unique);
    }
}

/// Pages of a listing, one after the other, make up the listing.
pub proof fn law_pages_join(entries: Seq<EntryModel>, offset: usize, limit: usize)
    requires
        limit > 0,
        offset + limit <= usize::MAX,
    ensures
        windowed(entries, offset, limit) + windowed(entries, (offset + limit) as usize, 0)
            == windowed(entries, offset, 0),
{
    let next = (offset + limit) as usize;
    assert(windowed(entries, offset, limit) + windowed(entries, next, 0) =~= windowed(
        entries,
        offset,
        0,
    ));
}

/// Two values are equal scalars: strings, numbers or booleans of one kind with the same
/// text.
pub open spec fn same_scalar(a: JsonModel, b: JsonModel) -> bool {
    ||| a is String && b is String && a->String_0 == b->String_0
    ||| a is Number && b is Number && a->Number_0.text == b->Number_0.text
    ||| a is Bool && b is Bool && a->Bool_0 == b->Bool_0
}

proof fn lemma_marked(a: Seq<char>, x: Seq<char>, b: Seq<char>, y: Seq<char>)
    requires
        a.len() == 2,
        b.len() == 2,
    ensures
        a + x == b + y ==> a == b && x == y,
{
    if a + x == b + y {
        assert(a =~= (a + x).take(2));
        assert(b =~= (b + y).take(2));
        assert(x =~= (a + x).skip(2));
        assert(y =~= (b + y).skip(2));
    }
}

/// Index tokens tell scalars apart: strings, numbers and booleans have one, other values
/// have none, and two of them have the same token exactly if they are equal scalars.
pub proof fn law_tokens_tell_scalars_apart(a: JsonModel, b: JsonModel)
    ensures
        token_of(a) is Some <==> a is String || a is Number || a is Bool,
        token_of(a) is Some && token_of(a) == token_of(b) <==> same_scalar(a, b),
{
    reveal_strlit("s:");
    reveal_strlit("n:");
    reveal_strlit("b:");
    reveal_strlit("true");
    reveal_strlit("false");
    assert("s:"@[0] != "n:"@[0] && "s:"@[0] != "b:"@[0] && "n:"@[0] != "b:"@[0]);
    assert("true"@.len() != "false"@.len());
    let mark = |v: JsonModel|
        match v {
            JsonModel::String(_) => "s:"@,
            JsonModel::Number(_) => "n:"@,
            _ => "b:"@,
        };
    let text = |v: JsonModel|
        match v {
            JsonModel::String(s) => s,
            JsonModel::Number(n) => n.text,
            JsonModel::Bool(x) => bool_text(x),
            _ => Seq::empty(),
        };
    lemma_marked(mark(a), text(a), mark(b), text(b));
}

/// A document's field equals the scalar.
pub open spec fn field_is(doc: JsonModel, field: Seq<char>, value: JsonModel) -> bool {
    doc.field(field) matches Some(own) && same_scalar(own, value)
}

proof fn lemma_field_is(doc: JsonModel, field: Seq<char>, value: JsonModel)
    ensures
        field_is(doc, field, value) <==> token_of(value) is Some && field_token(doc, field)
            == token_of(value),
{
    if let Some(own) = doc.field(field) {
        law_tokens_tell_scalars_apart(own, value);
        law_tokens_tell_scalars_apart(value, own);
    } else {
        law_tokens_tell_scalars_apart(value, value);
    }
}

/// An id takes part in a scan: it is not before the start, and begins with the prefix.
pub open spec fn is_asked_for(id: Seq<char>, options: ScanOptions) -> bool {
    &&& options.start matches Some(start) ==> start@ == id || text_lt(start@, id)
    &&& options.prefix matches Some(prefix) ==> prefix@.len() <= id.len() && forall|i: int|
        0 <= i < prefix@.len() ==> id[i] == #[trigger] prefix@[i]
}

proof fn lemma_asked_for(id: Seq<char>, options: ScanOptions)
    ensures
        id_in_scan(id, options) <==> is_asked_for(id, options),
{
    if let Some(start) = options.start {
        text_lt_total(start@, id);
        if text_lt(start@, id) && text_lt(id, start@) {
            text_lt_transitive(start@, id, start@);
        }
        text_lt_irreflexive(id);
        text_lt_irreflexive(start@);
    }
    if let Some(prefix) = options.prefix {
        let head = id.take(prefix@.len() as int);
        if prefix@.len() <= id.len() {
            if head == prefix@ {
                assert forall|i: int| 0 <= i < prefix@.len() implies id[i]
                    == #[trigger] prefix@[i] by {
                    assert(head[i] == id[i]);
                }
            } else if forall|i: int| 0 <= i < prefix@.len() ==> id[i] == #[trigger] prefix@[i] {
                assert(head =~= prefix@);
            }
        }
    }
}

/// A lookup goes through exactly the stored documents whose field equals the value and
/// whose id is asked for, in ascending id order.
pub proof fn law_lookups_find_equal_values(
    model: ColModel,
    collection: Seq<char>,
    field: Seq<char>,
    value: JsonModel,
    options: ScanOptions,
)
    requires
        model.docs.dom().finite(),
    ensures
        ({
            let found = matching(model.listing(collection), field, value, options);
            &&& ids_ascend(found)
            &&& forall|entry: EntryModel| #[trigger]
                found.contains(entry) <==> is_stored(model, collection, entry) && field_is(
                    entry.doc,
                    field,
                    value,
                ) && is_asked_for(entry.id, options)
        }),
{
    let listing = model.listing(collection);
    let found = matching(listing, field, value, options);
    law_listing(model, collection);
    law_tokens_tell_scalars_apart(value, value);
    match token_of(value) {
        Some(token) => {
            let keep = |entry: EntryModel|
                in_scan(entry, options) && field_token(entry.doc, field) == Some(token);
            lemma_filter_ascends(listing, keep);
            assert forall|entry: EntryModel| #[trigger] found.contains(entry) <==> is_stored(
                model,
                collection,
                entry,
            ) && field_is(entry.doc, field, value) && is_asked_for(entry.id, options) by {
                lemma_field_is(entry.doc, field, value);
                lemma_asked_for(entry.id, options);
                assert(found.contains(entry) <==> listing.contains(entry) && keep(entry));
            }
        },
        None => {
            assert forall|entry: EntryModel| #[trigger] found.contains(entry) <==> is_stored(
                model,
                collection,
                entry,
            ) && field_is(entry.doc, field, value) && is_asked_for(entry.id, options) by {
                lemma_field_is(entry.doc, field, value);
            }
        },
    }
}

/// A scan goes through exactly the stored documents whose id is asked for, in ascending id
/// order.
pub proof fn law_scans_find_what_is_asked_for(
    model: ColModel,
    collection: Seq<char>,
    options: ScanOptions,
)
    requires
        model.docs.dom().finite(),
    ensures
        ({
            let found = passed(model.listing(collection), options);
            &&& ids_ascend(found)
            &&& forall|entry: EntryModel| #[trigger]
                found.contains(entry) <==> is_stored(model, collection, entry) && is_asked_for(
                    entry.id,
                    options,
                )
        }),
{
    let listing = model.listing(collection);
    let found = passed(listing, options);
    let keep = |entry: EntryModel| in_scan(entry, options);
    law_listing(model, collection);
    lemma_filter_ascends(listing, keep);
    assert forall|entry: EntryModel| #[trigger] found.contains(entry) <==> is_stored(
        model,
        collection,
        entry,
    ) && is_asked_for(entry.id, options) by {
        lemma_asked_for(entry.id, options);
        assert(found.contains(entry) <==> listing.contains(entry) && keep(entry));
    }
}

/// A page holds the entries from the offset on, at most as many as the limit says (all of
/// them for zero), from the front, or from the back where the order is reversed.
pub proof fn law_pages_are_cut_out(entries: Seq<EntryModel>, options: ScanOptions)
    ensures
        ({
            let page = windowed(
                directed(entries, options.reverse),
                options.offset,
                options.limit,
            );
            let left = if options.offset <= entries.len() {
                entries.len() - options.offset
            } else {
                0
            };
            &&& page.len() == (if options.limit == 0 || left < options.limit {
                left
            } else {
                options.limit as int
            })
            &&& forall|i: int|
                0 <= i < page.len() ==> #[trigger] page[i] == (if options.reverse {
                    entries[entries.len() - 1 - (options.offset + i)]
                } else {
                    entries[options.offset + i]
                })
        }),
{
}

/// A scan or a lookup fails exactly if it goes through a document that cannot be read, and
/// then with what is wrong with the first one.
pub proof fn law_pages_fail_on_unreadable_documents(
    entries: Seq<EntryModel>,
    options: ScanOptions,
)
    ensures
        match paged(entries, options) {
            Ok(page) => {
                &&& forall|i: int|
                    0 <= i < entries.len() ==> is_readable((#[trigger] entries[i]).doc)
                &&& page == windowed(
                    directed(entries, options.reverse),
                    options.offset,
                    options.limit,
                )
            },
            Err(error) => exists|i: int|
                {
                    &&& 0 <= i < entries.len()
                    &&& !is_readable((#[trigger] entries[i]).doc)
                    &&& error == ErrorModel::Json(refusal_of(entries[i].doc))
                    &&& forall|j: int| 0 <= j < i ==> is_readable((#[trigger] entries[j]).doc)
                },
        },
{
    lemma_first_refusal(entries);
}

proof fn lemma_first_refusal(entries: Seq<EntryModel>)
    ensures
        match first_refusal(entries) {
            None => forall|i: int|
                0 <= i < entries.len() ==> is_readable((#[trigger] entries[i]).doc),
            Some(error) => exists|i: int|
                {
                    &&& 0 <= i < entries.len()
                    &&& !is_readable((#[trigger] entries[i]).doc)
                    &&& error == ErrorModel::Json(refusal_of(entries[i].doc))
                    &&& forall|j: int| 0 <= j < i ==> is_readable((#[trigger] entries[j]).doc)
                },
        },
    decreases entries.len(),
{
    if entries.len() > 0 {
        let rest = entries.drop_last();
        lemma_first_refusal(rest);
        assert forall|j: int| 0 <= j < rest.len() implies rest[j] == #[trigger] entries[j] by {
        }
        match first_refusal(rest) {
            Some(error) => {
                let i = choose|i: int|
                    {
                        &&& 0 <= i < rest.len()
                        &&& !is_readable((#[trigger] rest[i]).doc)
                        &&& error == ErrorModel::Json(refusal_of(rest[i].doc))
                        &&& forall|j: int| 0 <= j < i ==> is_readable((#[trigger] rest[j]).doc)
                    };
                assert(entries[i] == rest[i]);
                assert forall|j: int| 0 <= j < i implies is_readable(
                    (#[trigger] entries[j]).doc,
                ) by {
                    assert(rest[j] == entries[j]);
                }
            },
            None => {
                assert forall|j: int| 0 <= j < rest.len() implies is_readable(
                    (#[trigger] entries[j]).doc,
                ) by {
                    assert(rest[j] == entries[j]);
                }
                assert(entries[entries.len() - 1] == entries.last());
            },
        }
    }
}

/// Two documents of the collection have equal scalars in a field.
pub open spec fn share_value(
    model: ColModel,
    collection: Seq<char>,
    field: Seq<char>,
    a: Seq<char>,
    b: Seq<char>,
) -> bool {
    &&& model.docs.contains_key((collection, a))
    &&& model.docs.contains_key((collection, b))
    &&& model.docs[(collection, b)].doc.field(field) matches Some(value) && field_is(
        model.docs[(collection, a)].doc,
        field,
        value,
    )
}

/// A document goes into a collection exactly if the version is the expected one, the
/// document that it replaces can be read, and no other document of the collection equals it
/// in a field whose values must be unique.
pub proof fn law_puts_go_through(
    model: ColModel,
    collection: Seq<char>,
    id: Seq<char>,
    doc: JsonModel,
    expected: Option<u64>,
)
    ensures
        model.can_put(collection, id, doc, expected) <==> {
            &&& expected matches Some(version) ==> version == (if model.docs.contains_key(
                (collection, id),
            ) {
                model.docs[(collection, id)].version
            } else {
                0
            })
            &&& model.docs.contains_key((collection, id)) ==> is_readable(
                model.docs[(collection, id)].doc,
            )
            &&& forall|field: Seq<char>, other: Seq<char>|
                #![trigger model.defs.contains_key((collection, field)), model.docs.contains_key((collection, other))]
                model.defs.contains_key((collection, field)) && model.defs[(collection, field)]
                    && other != id && model.docs.contains_key((collection, other)) ==> !(doc.field(
                    field,
                ) matches Some(value) && field_is(
                    model.docs[(collection, other)].doc,
                    field,
                    value,
                ))
        },
{
    assert forall|field: Seq<char>, other: Seq<char>| #[trigger]
        model.clashes(collection, field, id, doc, other) <==> {
        &&& model.defs.contains_key((collection, field)) && model.defs[(collection, field)]
        &&& other != id && model.docs.contains_key((collection, other))
        &&& doc.field(field) matches Some(value) && field_is(
            model.docs[(collection, other)].doc,
            field,
            value,
        )
    } by {
        if let Some(value) = doc.field(field) {
            lemma_field_is(model.docs[(collection, other)].doc, field, value);
        }
    }
    if model.can_put(collection, id, doc, expected) {
        assert forall|field: Seq<char>, other: Seq<char>|
            #![trigger model.defs.contains_key((collection, field)), model.docs.contains_key((collection, other))]
            model.defs.contains_key((collection, field)) && model.defs[(collection, field)]
                && other != id && model.docs.contains_key((collection, other)) implies !(doc.field(
            field,
        ) matches Some(value) && field_is(
            model.docs[(collection, other)].doc,
            field,
            value,
        )) by {
            assert(!model.clashes(collection, field, id, doc, other));
        }
    }
    if forall|field: Seq<char>, other: Seq<char>|
        #![trigger model.defs.contains_key((collection, field)), model.docs.contains_key((collection, other))]
        model.defs.contains_key((collection, field)) && model.defs[(collection, field)] && other
            != id && model.docs.contains_key((collection, other)) ==> !(doc.field(
            field,
        ) matches Some(value) && field_is(
            model.docs[(collection, other)].doc,
            field,
            value,
        )) {
        assert forall|field: Seq<char>, other: Seq<char>| !#[trigger] model.clashes(
            collection,
            field,
            id,
            doc,
            other,
        ) by {
            assert(model.defs.contains_key((collection, field)) || !model.defs.contains_key(
                (collection, field),
            ));
            assert(model.docs.contains_key((collection, other)) || !model.docs.contains_key(
                (collection, other),
            ));
        }
    }
}

/// A store is consistent exactly if no two of its documents have equal scalars in a field
/// whose values must be unique.
pub proof fn law_unique_means_no_shared_value(model: ColModel)
    ensures
        model.is_consistent() <==> forall|
            collection: Seq<char>,
            field: Seq<char>,
            a: Seq<char>,
            b: Seq<char>,
        |
            model.defs.contains_key((collection, field)) && model.defs[(collection, field)] && a
                != b ==> !#[trigger] share_value(model, collection, field, a, b),
{
    if model.is_consistent() {
        assert forall|collection: Seq<char>, field: Seq<char>, a: Seq<char>, b: Seq<char>|
            model.defs.contains_key((collection, field)) && model.defs[(collection, field)] && a
                != b implies !#[trigger] share_value(model, collection, field, a, b) by {
            if share_value(model, collection, field, a, b) {
                let value = model.docs[(collection, b)].doc.field(field)->0;
                lemma_field_is(model.docs[(collection, a)].doc, field, value);
                assert(model.has_token(collection, field, a, token_of(value)->0));
                assert(model.has_token(collection, field, b, token_of(value)->0));
                assert(model.is_unique(collection, field));
            }
        }
    }
    if forall|collection: Seq<char>, field: Seq<char>, a: Seq<char>, b: Seq<char>|
        model.defs.contains_key((collection, field)) && model.defs[(collection, field)] && a
            != b ==> !#[trigger] share_value(model, collection, field, a, b) {
        assert forall|
            collection: Seq<char>,
            field: Seq<char>,
            a: Seq<char>,
            b: Seq<char>,
            token: Seq<char>,
        |
            model.is_unique(collection, field) && #[trigger] model.has_token(
                collection,
                field,
                a,
                token,
            ) && #[trigger] model.has_token(collection, field, b, token) implies a == b by {
            let value = model.docs[(collection, b)].doc.field(field)->0;
            lemma_field_is(model.docs[(collection, a)].doc, field, value);
            assert(share_value(model, collection, field, a, b));
        }
    }
}

/// An operation of a batch is on the document.
pub open spec fn is_on(op: OpModel, collection: Seq<char>, id: Seq<char>) -> bool {
    match op {
        OpModel::Put { collection: c, id: d, .. } => (c, d) == (collection, id),
        OpModel::Delete { collection: c, id: d } => (c, d) == (collection, id),
    }
}

/// After a batch a document is what the last operation on it made it: what was put, or
/// gone. A document that no operation is on stays as it was, and so do the indexes.
pub proof fn law_the_last_operation_counts(
    model: ColModel,
    ops: Seq<OpModel>,
    collection: Seq<char>,
    id: Seq<char>,
)
    ensures
        ({
            let after = model.after_ops(ops, ops.len());
            let key = (collection, id);
            &&& after.defs == model.defs
            &&& forall|i: int|
                0 <= i < ops.len() && is_on(#[trigger] ops[i], collection, id) && (forall|j: int|
                    i < j < ops.len() ==> !is_on(#[trigger] ops[j], collection, id)) ==> {
                    &&& ops[i] is Put ==> after.docs.contains_key(key) && after.docs[key].doc
                        == ops[i]->Put_doc
                    &&& ops[i] is Delete ==> !after.docs.contains_key(key)
                }
            &&& (forall|j: int| 0 <= j < ops.len() ==> !is_on(#[trigger] ops[j], collection, id))
                ==> {
                &&& after.docs.contains_key(key) == model.docs.contains_key(key)
                &&& model.docs.contains_key(key) ==> after.docs[key] == model.docs[key]
            }
        }),
{
    lemma_last_operation(model, ops, ops.len(), collection, id);
}

proof fn lemma_last_operation(
    model: ColModel,
    ops: Seq<OpModel>,
    n: nat,
    collection: Seq<char>,
    id: Seq<char>,
)
    requires
        n <= ops.len(),
    ensures
        ({
            let after = model.after_ops(ops, n);
            let key = (collection, id);
            &&& after.defs == model.defs
            &&& forall|i: int|
                0 <= i < n && is_on(#[trigger] ops[i], collection, id) && (forall|j: int|
                    i < j < n ==> !is_on(#[trigger] ops[j], collection, id)) ==> {
                    &&& ops[i] is Put ==> after.docs.contains_key(key) && after.docs[key].doc
                        == ops[i]->Put_doc
                    &&& ops[i] is Delete ==> !after.docs.contains_key(key)
                }
            &&& (forall|j: int| 0 <= j < n ==> !is_on(#[trigger] ops[j], collection, id)) ==> {
                &&& after.docs.contains_key(key) == model.docs.contains_key(key)
                &&& model.docs.contains_key(key) ==> after.docs[key] == model.docs[key]
            }
        }),
    decreases n,
{
    if n > 0 {
        lemma_last_operation(model, ops, (n - 1) as nat, collection, id);
        let before = model.after_ops(ops, (n - 1) as nat);
        let after = model.after_ops(ops, n);
        assert(after == before.after_op(ops[n - 1]));
        let key = (collection, id);
        if !is_on(ops[n - 1], collection, id) {
            assert(after.docs.contains_key(key) == before.docs.contains_key(key));
            assert(before.docs.contains_key(key) ==> after.docs[key] == before.docs[key]);
            assert forall|i: int|
                0 <= i < n && is_on(#[trigger] ops[i], collection, id) && (forall|j: int|
                    i < j < n ==> !is_on(#[trigger] ops[j], collection, id)) implies {
                &&& ops[i] is Put ==> after.docs.contains_key(key) && after.docs[key].doc
                    == ops[i]->Put_doc
                &&& ops[i] is Delete ==> !after.docs.contains_key(key)
            } by {
                assert(i < n - 1);
            }
        } else {
            assert forall|i: int|
                0 <= i < n && is_on(#[trigger] ops[i], collection, id) && (forall|j: int|
                    i < j < n ==> !is_on(#[trigger] ops[j], collection, id)) implies {
                &&& ops[i] is Put ==> after.docs.contains_key(key) && after.docs[key].doc
                    == ops[i]->Put_doc
                &&& ops[i] is Delete ==> !after.docs.contains_key(key)
            } by {
                if i < n - 1 {
                    assert(!is_on(ops[n - 1], collection, id));
                }
            }
        }
    }
}

/// Deleting a document leaves every other document, and the indexes, as they were.
pub proof fn law_deleting_leaves_the_rest(
    model: ColModel,
    collection: Seq<char>,
    id: Seq<char>,
    other: (Seq<char>, Seq<char>),
)
    requires
        other != (collection, id),
    ensures
        model.after_delete(collection, id).docs.contains_key(other) == model.docs.contains_key(
            other,
        ),
        model.docs.contains_key(other) ==> model.after_delete(collection, id).docs[other]
            == model.docs[other],
        model.after_delete(collection, id).defs == model.defs,
{
}

/// A unique index can be made only where no two documents of the collection have equal
/// scalars in its field; it changes no document and no other index.
pub proof fn law_unique_indexes_need_distinct_values(
    model: ColModel,
    collection: Seq<char>,
    field: Seq<char>,
    unique: bool,
    result: Result<(), ErrorModel>,
    after: ColModel,
)
    requires
        model.indexing(collection, field, unique, result, after),
        !model.defs.contains_key((collection, field)),
    ensures
        after.docs == model.docs,
        result is Ok && unique ==> forall|a: Seq<char>, b: Seq<char>|
            a != b ==> !#[trigger] share_value(model, collection, field, a, b),
        result is Ok ==> after.defs.contains_key((collection, field)) && after.defs[(
            collection,
            field,
        )] == unique,
        forall|key: (Seq<char>, Seq<char>)|
            key != (collection, field) ==> #[trigger] after.defs.contains_key(key)
                == model.defs.contains_key(key) && (model.defs.contains_key(key)
                ==> after.defs[key] == model.defs[key]),
        result is Err ==> after == model,
        result is Err && !unique ==> exists|id: Seq<char>|
            #[trigger] model.docs.contains_key((collection, id)) && !is_readable(
                model.docs[(collection, id)].doc,
            ),
        result matches Err(ErrorModel::InvalidInput(_)) ==> exists|a: Seq<char>, b: Seq<char>|
            a != b && #[trigger] share_value(model, collection, field, a, b),
{
    assert forall|a: Seq<char>, b: Seq<char>| a != b && #[trigger] share_value(
        model,
        collection,
        field,
        a,
        b,
    ) implies model.duplicates(collection, field, a, b) || model.duplicates(
        collection,
        field,
        b,
        a,
    ) by {
        let value = model.docs[(collection, b)].doc.field(field)->0;
        lemma_field_is(model.docs[(collection, a)].doc, field, value);
        text_lt_total(a, b);
    }
    if let Err(error) = result {
        if exists|id: Seq<char>|
            {
                &&& #[trigger] model.first_unreadable(collection, id)
                &&& unique ==> forall|a: Seq<char>, b: Seq<char>|
                    text_lt(b, id) ==> !#[trigger] model.duplicates(collection, field, a, b)
                &&& error == ErrorModel::Json(refusal_of(model.docs[(collection, id)].doc))
            } {
            let id = choose|id: Seq<char>|
                {
                    &&& #[trigger] model.first_unreadable(collection, id)
                    &&& unique ==> forall|a: Seq<char>, b: Seq<char>|
                        text_lt(b, id) ==> !#[trigger] model.duplicates(collection, field, a, b)
                    &&& error == ErrorModel::Json(refusal_of(model.docs[(collection, id)].doc))
                };
            assert(model.docs.contains_key((collection, id)));
        } else {
            let (a, b) = choose|a: Seq<char>, b: Seq<char>|
                {
                    &&& #[trigger] model.first_duplicate(collection, field, a, b)
                    &&& forall|x: Seq<char>|
                        !text_lt(b, x) ==> #[trigger] model.can_read(collection, x)
                    &&& error == ErrorModel::InvalidInput(duplicate_text(collection, field, a, b))
                };
            assert(model.duplicates(collection, field, a, b));
            let value = model.docs[(collection, b)].doc.field(field)->0;
            lemma_field_is(model.docs[(collection, a)].doc, field, value);
            text_lt_irreflexive(a);
            assert(share_value(model, collection, field, a, b));
        }
    }
}

/// A scan returns stored documents whose id is asked for, and, without a window, all of
/// them.
pub proof fn law_scans_return_what_is_asked_for(
    model: ColModel,
    collection: Seq<char>,
    options: ScanOptions,
    entry: EntryModel,
)
    requires
        model.docs.dom().finite(),
        scanned(model.listing(collection), options) is Ok,
    ensures
        ({
            let page = scanned(model.listing(collection), options)->Ok_0;
            let wanted = is_stored(model, collection, entry) && is_asked_for(entry.id, options);
            &&& page.contains(entry) ==> wanted
            &&& options.offset == 0 && options.limit == 0 && wanted ==> page.contains(entry)
        }),
{
    let entries = passed(model.listing(collection), options);
    law_scans_find_what_is_asked_for(model, collection, options);
    lemma_page_holds(entries, options, entry);
}

/// A lookup returns stored documents whose field equals the value and whose id is asked for,
/// and, without a window, all of them. It needs an index on the field.
pub proof fn law_lookups_return_equal_values(
    model: ColModel,
    collection: Seq<char>,
    field: Seq<char>,
    value: JsonModel,
    options: ScanOptions,
    entry: EntryModel,
)
    requires
        model.docs.dom().finite(),
    ensures
        !model.defs.contains_key((collection, field)) ==> model.find(
            collection,
            field,
            value,
            options,
        ) is Err,
        model.find(collection, field, value, options) matches Ok(page) ==> {
            let wanted = is_stored(model, collection, entry) && field_is(entry.doc, field, value)
                && is_asked_for(entry.id, options);
            &&& page.contains(entry) ==> wanted
            &&& options.offset == 0 && options.limit == 0 && wanted ==> page.contains(entry)
        },
{
    let entries = matching(model.listing(collection), field, value, options);
    law_lookups_find_equal_values(model, collection, field, value, options);
    lemma_page_holds(entries, options, entry);
}

proof fn lemma_page_holds(entries: Seq<EntryModel>, options: ScanOptions, entry: EntryModel)
    ensures
        ({
            let page = windowed(directed(entries, options.reverse), options.offset, options.limit);
            &&& page.contains(entry) ==> entries.contains(entry)
            &&& options.offset == 0 && options.limit == 0 && entries.contains(entry)
                ==> page.contains(entry)
        }),
{
    let page = windowed(directed(entries, options.reverse), options.offset, options.limit);
    law_pages_are_cut_out(entries, options);
    if page.contains(entry) {
        let i = choose|i: int| 0 <= i < page.len() && page[i] == entry;
        if options.reverse {
            assert(entries[entries.len() - 1 - (options.offset + i)] == entry);
        } else {
            assert(entries[options.offset + i] == entry);
        }
    }
    if options.offset == 0 && options.limit == 0 && entries.contains(entry) {
        let k = choose|k: int| 0 <= k < entries.len() && entries[k] == entry;
        if options.reverse {
            assert(page[entries.len() - 1 - k] == entry);
        } else {
            assert(page[k] == entry);
        }
    }
}

/// A put that is refused says why: a version that is not the expected one, with both; else a
/// document to replace that cannot be read; else the first field, in order, in which another
/// document has the same value though it must be unique, and that document.
pub proof fn law_refused_puts_say_why(
    model: ColModel,
    collection: Seq<char>,
    id: Seq<char>,
    doc: JsonModel,
    expected: Option<u64>,
    error: ErrorModel,
)
    requires
        model.put_error(collection, id, doc, expected, error),
        !model.can_put(collection, id, doc, expected),
    ensures
        ({
            let current = if model.docs.contains_key((collection, id)) {
                model.docs[(collection, id)].version
            } else {
                0
            };
            if expected is Some && expected->0 != current {
                error == ErrorModel::InvalidInput(
                    "version conflict on "@ + collection + "/"@ + id + ": expected "@ + decimal(
                        expected->0 as nat,
                    ) + ", found "@ + decimal(current as nat),
                )
            } else if model.docs.contains_key((collection, id)) && !is_readable(
                model.docs[(collection, id)].doc,
            ) {
                error is Json
            } else {
                exists|field: Seq<char>, other: Seq<char>|
                    {
                        &&& #[trigger] takes_value_of(model, collection, field, id, doc, other)
                        &&& error == ErrorModel::InvalidInput(
                            "unique index "@ + collection + "."@ + field
                                + " violated: value already used by "@ + debug_quoted(other),
                        )
                        &&& forall|f: Seq<char>, o: Seq<char>|
                            text_lt(f, field) ==> !#[trigger] takes_value_of(
                                model,
                                collection,
                                f,
                                id,
                                doc,
                                o,
                            )
                    }
            }
        }),
{
    assert forall|field: Seq<char>, other: Seq<char>| #[trigger]
        model.clashes(collection, field, id, doc, other) <==> takes_value_of(
        model,
        collection,
        field,
        id,
        doc,
        other,
    ) by {
        if let Some(value) = doc.field(field) {
            lemma_field_is(model.docs[(collection, other)].doc, field, value);
        }
    }
    if model.version_matches(collection, id, expected) && model.can_read(collection, id) {
        let (field, other) = choose|field: Seq<char>, other: Seq<char>| #[trigger]
            model.first_clash(collection, field, id, doc, other) && error
                == ErrorModel::InvalidInput(clash_text(collection, field, other));
        assert(model.clashes(collection, field, id, doc, other));
        assert(takes_value_of(model, collection, field, id, doc, other));
        assert forall|f: Seq<char>, o: Seq<char>| text_lt(f, field) implies
            !#[trigger] takes_value_of(model, collection, f, id, doc, o) by {
            assert(!model.clashes(collection, f, id, doc, o));
        }
    }
}

/// A document would take a value that another document of the collection has in a field
/// whose values must be unique.
pub open spec fn takes_value_of(
    model: ColModel,
    collection: Seq<char>,
    field: Seq<char>,
    id: Seq<char>,
    doc: JsonModel,
    other: Seq<char>,
) -> bool {
    &&& model.defs.contains_key((collection, field)) && model.defs[(collection, field)]
    &&& other != id && model.docs.contains_key((collection, other))
    &&& doc.field(field) matches Some(value) && field_is(
        model.docs[(collection, other)].doc,
        field,
        value,
    )
}

/// A batch goes through exactly if each operation would go through after those before it, a
/// put as a put, a delete if the document can be read; where it stops, it stops at the first
/// that would not.
pub proof fn law_batches_stop_at_the_first_refusal(
    model: ColModel,
    ops: Seq<OpModel>,
    i: int,
    error: ErrorModel,
)
    ensures
        model.can_apply_first(ops, ops.len()) <==> forall|k: int|
            0 <= k < ops.len() ==> match #[trigger] ops[k] {
                OpModel::Put { collection, id, doc, expected_version } => model.after_ops(
                    ops,
                    k as nat,
                ).can_put(collection, id, doc, expected_version),
                OpModel::Delete { collection, id } => model.after_ops(ops, k as nat).can_read(
                    collection,
                    id,
                ),
            },
        batch_stops(model, ops, i, error) ==> {
            &&& 0 <= i < ops.len()
            &&& !model.can_apply_first(ops, ops.len())
            &&& model.can_apply_first(ops, i as nat)
            &&& ops[i] is Delete ==> error is Json
            &&& ops[i] is Put ==> model.after_ops(ops, i as nat).put_error(
                ops[i]->Put_collection,
                ops[i]->Put_id,
                ops[i]->Put_doc,
                ops[i]->expected_version,
                error,
            )
        },
{
    if model.can_apply_first(ops, ops.len()) {
        assert forall|k: int| 0 <= k < ops.len() implies match #[trigger] ops[k] {
            OpModel::Put { collection, id, doc, expected_version } => model.after_ops(
                ops,
                k as nat,
            ).can_put(collection, id, doc, expected_version),
            OpModel::Delete { collection, id } => model.after_ops(ops, k as nat).can_read(
                collection,
                id,
            ),
        } by {
            assert(model.after_ops(ops, k as nat).can_apply(ops[k]));
        }
    }
    if batch_stops(model, ops, i, error) {
        if model.can_apply_first(ops, ops.len()) {
            assert(model.after_ops(ops, i as nat).can_apply(ops[i]));
        }
    }
}

/// What is persisted of a store is enough to open it again as it was.
pub proof fn law_stores_reopen_from_their_rows(model: ColModel)
    requires
        model.docs.dom().finite(),
        model.defs.dom().finite(),
    ensures
        stored_in(
            rows_of::<(String, String), StoredModel>(model.docs),
            rows_of::<(String, String), bool>(model.defs),
        ) == model,
        defined_once(rows_of::<(String, String), bool>(model.defs)),
{
    lemma_finite_rows::<(String, String), StoredModel>(model.docs);
    lemma_finite_rows::<(String, String), bool>(model.defs);
    let rows = rows_of::<(String, String), bool>(model.defs);
    assert forall|x: int, y: int| 0 <= x < y < rows.len() implies (#[trigger] rows[x]).0 != (
    #[trigger] rows[y]).0 by {
        lemma_ascending_at::<(String, String), bool>(rows, x, y);
        <(String, String) as SortKey>::before_irreflexive(rows[x].0);
    }
}

/// The documents that an index is refused for have equal scalars, come in the order of their
/// ids, and the second is the first at which that happens.
pub proof fn law_duplicates_are_named_in_order(
    model: ColModel,
    collection: Seq<char>,
    field: Seq<char>,
    other: Seq<char>,
    id: Seq<char>,
)
    requires
        model.first_duplicate(collection, field, other, id),
    ensures
        text_lt(other, id),
        share_value(model, collection, field, other, id),
        forall|a: Seq<char>, b: Seq<char>|
            text_lt(a, b) && text_lt(b, id) ==> !#[trigger] share_value(
                model,
                collection,
                field,
                a,
                b,
            ),
{
    let value = model.docs[(collection, id)].doc.field(field)->0;
    lemma_field_is(model.docs[(collection, other)].doc, field, value);
    assert forall|a: Seq<char>, b: Seq<char>| text_lt(a, b) && text_lt(b, id) implies
        !#[trigger] share_value(model, collection, field, a, b) by {
        if share_value(model, collection, field, a, b) {
            let own = model.docs[(collection, b)].doc.field(field)->0;
            lemma_field_is(model.docs[(collection, a)].doc, field, own);
            assert(model.duplicates(collection, field, a, b));
        }
    }
}

} // verus!
