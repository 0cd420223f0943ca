//! The values that go into and come out of the search index.
//!
//! Coordinates, scores and boosts are the IEEE 754 bit patterns of single-precision
//! numbers.

use crate::causal::replica_list;
use crate::sorted::Replica;
use crate::state::causal_thread::replica_text;
use crate::text::IntoText;
use vstd::prelude::*;

verus! {

/// A single hybrid search result.
///
/// `score` semantics depend on the query mode:
/// - text-only: raw BM25 score (positive, higher is better).
/// - vector-only: cosine similarity in `[0, 1]` (higher is better).
/// - hybrid (text + vector): RRF-fused score.
///
/// `text_score` / `vector_score` carry the per-source scores when that
/// source participated in the query.
#[derive(Debug, PartialEq)]
pub struct Hit {
    pub id: String,
    pub score: u32,
    pub text_score: Option<u32>,
    pub vector_score: Option<u32>,
}

#[verifier::ext_equal]
pub struct HitModel {
    pub id: Seq<char>,
    pub score: u32,
    pub text_score: Option<u32>,
    pub vector_score: Option<u32>,
}

impl DeepView for Hit {
    type V = HitModel;

    open spec fn deep_view(&self) -> HitModel {
        HitModel {
            id: self.id@,
            score: self.score,
            text_score: self.text_score,
            vector_score: self.vector_score,
        }
    }
}

impl Replica for Hit {
    fn replica(&self) -> (r: Self) {
        Hit {
            id: self.id.clone(),
            score: self.score,
            text_score: self.text_score,
            vector_score: self.vector_score,
        }
    }
}

impl Clone for Hit {
    fn clone(&self) -> (r: Self)
        ensures
            r.deep_view() == self.deep_view(),
    {
        self.replica()
    }
}

/// Fusion strategy for combining multiple rankings.
///
/// Fusion only applies when both text and vector rankings are present; single
/// source queries return raw scores from that source.
#[derive(Clone, Copy, Debug, PartialEq, Eq, Structural)]
pub enum Fusion {
    /// Reciprocal Rank Fusion with the given `k` parameter.
    /// When constructed via `Default`, `k = 60`.
    Rrf { k: usize },
}

impl Default for Fusion {
    fn default() -> (r: Self)
        ensures
            r == (Fusion::Rrf { k: 60 }),
    {
        Fusion::Rrf { k: 60 }
    }
}

/// Scalar filter pushed down to the underlying index.
#[derive(Debug, PartialEq)]
pub enum ScalarFilter {
    /// Equality filter on a string field.
    Eq { field: String, value: String },
}

#[verifier::ext_equal]
pub struct FilterModel {
    pub field: Seq<char>,
    pub value: Seq<char>,
}

impl DeepView for ScalarFilter {
    type V = FilterModel;

    open spec fn deep_view(&self) -> FilterModel {
        match self {
            ScalarFilter::Eq { field, value } => FilterModel { field: field@, value: value@ },
        }
    }
}

impl Replica for ScalarFilter {
    fn replica(&self) -> (r: Self) {
        match self {
            ScalarFilter::Eq { field, value } => ScalarFilter::Eq {
                field: field.clone(),
                value: value.clone(),
            },
        }
    }
}

impl Clone for ScalarFilter {
    fn clone(&self) -> (r: Self)
        ensures
            r.deep_view() == self.deep_view(),
    {
        self.replica()
    }
}

impl ScalarFilter {
    pub fn eq<F: IntoText, W: IntoText>(field: F, value: W) -> (r: Self)
        ensures
            r.deep_view() == (FilterModel { field: field.text(), value: value.text() }),
    {
        ScalarFilter::Eq { field: field.into_text(), value: value.into_text() }
    }
}

/// Per-field BM25 boosts applied when parsing text queries.
#[derive(Clone, Copy, Debug, PartialEq, Eq, Structural)]
pub struct FieldBoosts {
    pub name: u32,
    pub body: u32,
    pub tags: u32,
}

impl FieldBoosts {
    /// Four for the name, two for the body, three for the tags.
    pub open spec fn usual() -> FieldBoosts {
        FieldBoosts { name: 0x4080_0000, body: 0x4000_0000, tags: 0x4040_0000 }
    }
}

impl Default for FieldBoosts {
    fn default() -> (r: Self)
        ensures
            r == FieldBoosts::usual(),
    {
        FieldBoosts { name: 0x4080_0000, body: 0x4000_0000, tags: 0x4040_0000 }
    }
}

/// A document to be indexed for hybrid search.
///
/// All text slots are optional; a document with no text fields is still
/// registered (id + filters) so it can be filtered and deleted. `vector` is
/// optional: text-only documents never touch the vector index.
#[derive(Debug)]
pub struct IndexDoc {
    pub id: String,
    /// Short, high-signal title (boosted highest by default).
    pub name: Option<String>,
    /// Main text content.
    pub body: Option<String>,
    /// Categories, triggers, keywords.
    pub tags: Option<String>,
    /// Optional embedding; must match the index dimension when present.
    pub vector: Option<Vec<u32>>,
    /// Scalar filters attached to the document.
    pub filters: Vec<ScalarFilter>,
}

#[verifier::ext_equal]
pub struct DocModel {
    pub id: Seq<char>,
    pub name: Option<Seq<char>>,
    pub body: Option<Seq<char>>,
    pub tags: Option<Seq<char>>,
    pub vector: Option<Seq<u32>>,
    pub filters: Seq<FilterModel>,
}

impl DeepView for IndexDoc {
    type V = DocModel;

    open spec fn deep_view(&self) -> DocModel {
        DocModel {
            id: self.id@,
            name: self.name.deep_view(),
            body: self.body.deep_view(),
            tags: self.tags.deep_view(),
            vector: self.vector.deep_view(),
            filters: self.filters.deep_view(),
        }
    }
}

impl DocModel {
    /// A document without content.
    pub open spec fn blank(id: Seq<char>) -> DocModel {
        DocModel {
            id,
            name: None,
            body: None,
            tags: None,
            vector: None,
            filters: Seq::empty(),
        }
    }
}

/// A copy of an optional vector.
pub fn replica_vector(vector: &Option<Vec<u32>>) -> (r: Option<Vec<u32>>)
    ensures
        r.deep_view() == vector.deep_view(),
{
    match vector {
        Some(values) => Some(replica_list(values)),
        None => None,
    }
}

impl Replica for u32 {
    fn replica(&self) -> (r: Self) {
        *self
    }
}

impl Replica for IndexDoc {
    fn replica(&self) -> (r: Self) {
        IndexDoc {
            id: self.id.clone(),
            name: replica_text(&self.name),
            body: replica_text(&self.body),
            tags: replica_text(&self.tags),
            vector: replica_vector(&self.vector),
            filters: replica_list(&self.filters),
        }
    }
}

impl Clone for IndexDoc {
    fn clone(&self) -> (r: Self)
        ensures
            r.deep_view() == self.deep_view(),
    {
        self.replica()
    }
}

impl IndexDoc {
    pub fn new<I: IntoText>(id: I) -> (r: Self)
        ensures
            r.deep_view() == DocModel::blank(id.text()),
    {
        let filters: Vec<ScalarFilter> = Vec::new();
        assert(filters.deep_view() =~= Seq::empty());
        IndexDoc { id: id.into_text(), name: None, body: None, tags: None, vector: None, filters }
    }

    pub fn with_name<N: IntoText>(self, name: N) -> (r: Self)
        ensures
            r.deep_view() == (DocModel { name: Some(name.text()), ..self.deep_view() }),
    {
        let mut doc = self;
        doc.name = Some(name.into_text());
        doc
    }

    pub fn with_body<B: IntoText>(self, body: B) -> (r: Self)
        ensures
            r.deep_view() == (DocModel { body: Some(body.text()), ..self.deep_view() }),
    {
        let mut doc = self;
        doc.body = Some(body.into_text());
        doc
    }

    pub fn with_tags<T: IntoText>(self, tags: T) -> (r: Self)
        ensures
            r.deep_view() == (DocModel { tags: Some(tags.text()), ..self.deep_view() }),
    {
        let mut doc = self;
        doc.tags = Some(tags.into_text());
        doc
    }

    pub fn with_vector(self, vector: Vec<u32>) -> (r: Self)
        ensures
            r.deep_view() == (DocModel { vector: Some(vector.deep_view()), ..self.deep_view() }),
    {
        let mut doc = self;
        doc.vector = Some(vector);
        doc
    }

    pub fn with_filters(self, filters: Vec<ScalarFilter>) -> (r: Self)
        ensures
            r.deep_view() == (DocModel { filters: filters.deep_view(), ..self.deep_view() }),
    {
        let mut doc = self;
        doc.filters = filters;
        doc
    }
}

/// The immutable identity of the embedding space that a base uses.
#[derive(Debug, PartialEq, Eq)]
pub struct VectorConfig {
    pub dimension: usize,
    pub space_id: String,
}

#[verifier::ext_equal]
pub struct ConfigModel {
    pub dimension: usize,
    pub space_id: Seq<char>,
}

impl DeepView for VectorConfig {
    type V = ConfigModel;

    open spec fn deep_view(&self) -> ConfigModel {
        ConfigModel { dimension: self.dimension, space_id: self.space_id@ }
    }
}

impl Replica for VectorConfig {
    fn replica(&self) -> (r: Self) {
        VectorConfig { dimension: self.dimension, space_id: self.space_id.clone() }
    }
}

impl Clone for VectorConfig {
    fn clone(&self) -> (r: Self)
        ensures
            r.deep_view() == self.deep_view(),
    {
        self.replica()
    }
}

impl VectorConfig {
    pub fn new<S: IntoText>(dimension: usize, space_id: S) -> (r: Self)
        ensures
            r.deep_view() == (ConfigModel { dimension, space_id: space_id.text() }),
    {
        VectorConfig { dimension, space_id: space_id.into_text() }
    }
}

/// Hybrid query over text and/or vector rankings.
#[derive(Clone, Debug)]
pub struct HybridQuery {
    /// Full-text query. Parsed leniently: raw user input never fails the query.
    pub text: Option<String>,
    /// Vector query.
    pub vector: Option<Vec<u32>>,
    /// Scalar filters applied to both text and vector results.
    pub filters: Vec<ScalarFilter>,
    /// Maximum number of hits to return.
    pub k: usize,
    /// Fusion strategy (used only when both text and vector are present).
    pub fusion: Fusion,
    /// Per-field boosts for the text query. `None` uses the defaults.
    pub boosts: Option<FieldBoosts>,
}

#[verifier::ext_equal]
pub struct QueryModel {
    pub text: Option<Seq<char>>,
    pub vector: Option<Seq<u32>>,
    pub filters: Seq<FilterModel>,
    pub k: usize,
    pub fusion: Fusion,
    pub boosts: Option<FieldBoosts>,
}

impl DeepView for HybridQuery {
    type V = QueryModel;

    open spec fn deep_view(&self) -> QueryModel {
        QueryModel {
            text: self.text.deep_view(),
            vector: self.vector.deep_view(),
            filters: self.filters.deep_view(),
            k: self.k,
            fusion: self.fusion,
            boosts: self.boosts,
        }
    }
}

impl QueryModel {
    /// A query for nothing.
    pub open spec fn blank() -> QueryModel {
        QueryModel {
            text: None,
            vector: None,
            filters: Seq::empty(),
            k: 0,
            fusion: Fusion::Rrf { k: 60 },
            boosts: None,
        }
    }
}

impl Default for HybridQuery {
    fn default() -> (r: Self)
        ensures
            r.deep_view() == QueryModel::blank(),
    {
        let filters: Vec<ScalarFilter> = Vec::new();
        assert(filters.deep_view() =~= Seq::empty());
        HybridQuery {
            text: None,
            vector: None,
            filters,
            k: 0,
            fusion: Fusion::default(),
            boosts: None,
        }
    }
}

impl HybridQuery {
    pub fn with_text<T: IntoText>(self, text: T) -> (r: Self)
        ensures
            r.deep_view() == (QueryModel { text: Some(text.text()), ..self.deep_view() }),
    {
        let mut query = self;
        query.text = Some(text.into_text());
        query
    }

    pub fn with_vector(self, vector: Vec<u32>) -> (r: Self)
        ensures
            r.deep_view() == (QueryModel { vector: Some(vector.deep_view()), ..self.deep_view() }),
    {
        let mut query = self;
        query.vector = Some(vector);
        query
    }

    pub fn with_filters(self, filters: Vec<ScalarFilter>) -> (r: Self)
        ensures
            r.deep_view() == (QueryModel { filters: filters.deep_view(), ..self.deep_view() }),
    {
        let mut query = self;
        query.filters = filters;
        query
    }

    pub fn with_k(self, k: usize) -> (r: Self)
        ensures
            r.deep_view() == (QueryModel { k, ..self.deep_view() }),
    {
        let mut query = self;
        query.k = k;
        query
    }

    pub fn with_boosts(self, boosts: FieldBoosts) -> (r: Self)
        ensures
            r.deep_view() == (QueryModel { boosts: Some(boosts), ..self.deep_view() }),
    {
        let mut query = self;
        query.boosts = Some(boosts);
        query
    }
}

} // verus!
