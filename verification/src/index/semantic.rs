//! The hybrid index: authoritative documents, and the full-text and vector indexes
//! that are derived from them.
//!
//! Every change is committed to the documents first, which raises the generation; the
//! derived indexes follow. What the full-text engine and the neighbour graph do
//! themselves happens outside: the engine's report comes in with each change, and the
//! vectors that the graph must take up go out.

use crate::index::error::{IndexError, IndexErrorModel};
use crate::index::hnsw::{
    first_of, ranked, search_width, validate_vector, vector_error, GraphModel, Placed, VectorIndex,
    MAX_VECTOR_DIMENSION,
};
use crate::index::query::vectors_among;
use crate::index::text::{
    carriers, law_filters_are_carried, law_filters_are_exact, token_of, tokens_of, with_docs,
    without_token, TextIndex, TokensModel,
};
use crate::index::types::{
    ConfigModel, DocModel, FilterModel, IndexDoc, ScalarFilter, VectorConfig,
};
use crate::causal::replica_list;
use crate::sorted::{
    ascending, lemma_finite_rows, lemma_map_of_domain, lemma_map_of_finite, lemma_map_of_value,
    map_of, rows_of, Replica, SortKey, SortedMap,
};
use crate::text::{
    blank, debug_quoted, decimal, is_blank, join2, join3, text_debug, text_lt, text_same,
    u64_text, usize_text, white_space,
};
use vstd::prelude::*;

verus! {

/// Why a configuration is refused.
pub open spec fn config_error(config: Option<ConfigModel>) -> Option<IndexErrorModel> {
    match config {
        Some(config) => if config.dimension == 0 || config.dimension > MAX_VECTOR_DIMENSION {
            Some(
                IndexErrorModel::InvalidVector(
                    "dimension must be in 1..=65536, got "@ + decimal(config.dimension as nat),
                ),
            )
        } else if blank(config.space_id) {
            Some(IndexErrorModel::VectorSpaceMismatch("space_id must not be empty"@))
        } else {
            None
        },
        None => None,
    }
}

/// Checks a vector configuration.
pub fn validate_config(config: &Option<VectorConfig>) -> (r: Result<(), IndexError>)
    ensures
        match r {
            Ok(_) => config_error(config.deep_view()) is None,
            Err(error) => config_error(config.deep_view()) == Some(error.deep_view()),
        },
{
    if let Some(config) = config {
        if config.dimension == 0 || config.dimension > MAX_VECTOR_DIMENSION {
            return Err(
                IndexError::InvalidVector(
                    join2(
                        "dimension must be in 1..=65536, got ",
                        usize_text(config.dimension).as_str(),
                    ),
                ),
            );
        }
        if is_blank(config.space_id.as_str()) {
            return Err(
                IndexError::VectorSpaceMismatch("space_id must not be empty".to_owned()),
            );
        }
    }
    Ok(())
}

/// Why a document is refused.
pub open spec fn doc_error(doc: DocModel, config: Option<ConfigModel>) -> Option<
    IndexErrorModel,
> {
    match doc.vector {
        Some(vector) => match config {
            Some(config) => vector_error(vector, config.dimension),
            None => Some(IndexErrorModel::VectorIndexDisabled),
        },
        None => None,
    }
}

/// Why the first of the first `n` documents that is refused is refused.
pub open spec fn docs_error(
    docs: Seq<DocModel>,
    config: Option<ConfigModel>,
    n: nat,
) -> Option<IndexErrorModel>
    decreases n,
{
    if n == 0 {
        None
    } else {
        match docs_error(docs, config, (n - 1) as nat) {
            Some(error) => Some(error),
            None => doc_error(docs[n - 1], config),
        }
    }
}

proof fn lemma_docs_error(docs: Seq<DocModel>, config: Option<ConfigModel>, n: nat, m: nat)
    requires
        n <= m,
        docs_error(docs, config, n) is Some,
    ensures
        docs_error(docs, config, m) == docs_error(docs, config, n),
    decreases m,
{
    if n < m {
        lemma_docs_error(docs, config, n, (m - 1) as nat);
    }
}

proof fn lemma_no_docs_error(docs: Seq<DocModel>, config: Option<ConfigModel>, n: nat, i: int)
    requires
        docs_error(docs, config, n) is None,
        0 <= i < n,
    ensures
        doc_error(docs[i], config) is None,
    decreases n,
{
    if i < n - 1 {
        lemma_no_docs_error(docs, config, (n - 1) as nat, i);
    }
}

/// Checks the vectors of documents.
pub fn validate_documents(docs: &Vec<IndexDoc>, config: &Option<VectorConfig>) -> (r: Result<
    (),
    IndexError,
>)
    ensures
        match r {
            Ok(_) => docs_error(docs.deep_view(), config.deep_view(), docs@.len()) is None,
            Err(error) => docs_error(docs.deep_view(), config.deep_view(), docs@.len()) == Some(
                error.deep_view(),
            ),
        },
{
    let ghost all = docs.deep_view();
    let ghost setup = config.deep_view();
    let mut i: usize = 0;
    while i < docs.len()
        invariant
            i <= docs.len(),
            all == docs.deep_view(),
            setup == config.deep_view(),
            docs_error(all, setup, i as nat) is None,
        decreases docs.len() - i,
    {
        let doc = &docs[i];
        assert(all[i as int] == doc.deep_view());
        assert((i + 1 - 1) as nat == i as nat);
        if let Some(vector) = &doc.vector {
            assert(vector.deep_view() =~= vector@);
            match config {
                Some(config) => {
                    if let Err(error) = validate_vector(vector, config.dimension) {
                        proof {
                            lemma_docs_error(all, setup, (i + 1) as nat, all.len());
                        }
                        return Err(error);
                    }
                },
                None => {
                    proof {
                        lemma_docs_error(all, setup, (i + 1) as nat, all.len());
                    }
                    return Err(IndexError::VectorIndexDisabled);
                },
            }
        }
        i += 1;
    }
    Ok(())
}

/// The version of the format that a base is in.
pub const SCHEMA_VERSION: u32 = 2;

/// What a base records about itself when it is created.
#[derive(Debug, PartialEq, Eq)]
pub struct DatabaseMeta {
    pub schema_version: u32,
    pub metric: String,
    pub vector: Option<VectorConfig>,
}

#[verifier::ext_equal]
pub struct MetaModel {
    pub schema_version: u32,
    pub metric: Seq<char>,
    pub vector: Option<ConfigModel>,
}

impl DeepView for DatabaseMeta {
    type V = MetaModel;

    open spec fn deep_view(&self) -> MetaModel {
        MetaModel {
            schema_version: self.schema_version,
            metric: self.metric@,
            vector: self.vector.deep_view(),
        }
    }
}

/// How a record is shown.
pub open spec fn meta_text(meta: MetaModel) -> Seq<char> {
    "DatabaseMeta { schema_version: "@ + decimal(meta.schema_version as nat) + ", metric: "@
        + debug_quoted(meta.metric) + ", vector: "@ + config_text(meta.vector) + " }"@
}

/// How a configuration is shown.
pub open spec fn config_text(config: Option<ConfigModel>) -> Seq<char> {
    match config {
        Some(config) => "Some(VectorConfig { dimension: "@ + decimal(config.dimension as nat)
            + ", space_id: "@ + debug_quoted(config.space_id) + " })"@,
        None => "None"@,
    }
}

fn show_config(config: &Option<VectorConfig>) -> (r: String)
    ensures
        r@ == config_text(config.deep_view()),
{
    match config {
        Some(config) => {
            let head = join3(
                "Some(VectorConfig { dimension: ",
                usize_text(config.dimension).as_str(),
                ", space_id: ",
            );
            join3(head.as_str(), text_debug(config.space_id.as_str()).as_str(), " })")
        },
        None => "None".to_owned(),
    }
}

fn show_meta(meta: &DatabaseMeta) -> (r: String)
    ensures
        r@ == meta_text(meta.deep_view()),
{
    let head = join3(
        "DatabaseMeta { schema_version: ",
        u64_text(meta.schema_version as u64).as_str(),
        ", metric: ",
    );
    let middle = join3(head.as_str(), text_debug(meta.metric.as_str()).as_str(), ", vector: ");
    join3(middle.as_str(), show_config(&meta.vector).as_str(), " }")
}

fn same_config(a: &Option<VectorConfig>, b: &Option<VectorConfig>) -> (r: bool)
    ensures
        r == (a.deep_view() == b.deep_view()),
{
    match (a, b) {
        (Some(a), Some(b)) => {
            assert(a.deep_view() == b.deep_view() <==> a.dimension == b.dimension && a.space_id@
                == b.space_id@);
            a.dimension == b.dimension && text_same(a.space_id.as_str(), b.space_id.as_str())
        },
        (None, None) => true,
        _ => false,
    }
}

/// What a base with this configuration records.
pub open spec fn requested_meta(config: Option<ConfigModel>) -> MetaModel {
    MetaModel { schema_version: SCHEMA_VERSION, metric: "cosine"@, vector: config }
}

/// Holds the configuration that is asked for against the recorded one. A base without
/// a record gets the one that is returned; a different record is an error, since the
/// vector space of a base never changes.
pub fn resolve_database_meta(
    stored: Option<&DatabaseMeta>,
    vector: &Option<VectorConfig>,
) -> (r: Result<Option<DatabaseMeta>, IndexError>)
    ensures
        ({
            let requested = requested_meta(vector.deep_view());
            match r {
                Ok(Some(meta)) => stored is None && meta.deep_view() == requested,
                Ok(None) => stored is Some && stored->0.deep_view() == requested,
                Err(error) => stored is Some && stored->0.deep_view() != requested
                    && error.deep_view() == IndexErrorModel::VectorSpaceMismatch(
                    "stored configuration "@ + meta_text(stored->0.deep_view())
                        + " does not match requested "@ + meta_text(requested),
                ),
            }
        }),
{
    let requested = DatabaseMeta {
        schema_version: SCHEMA_VERSION,
        metric: "cosine".to_owned(),
        vector: match vector {
            Some(config) => Some(config.replica()),
            None => None,
        },
    };
    assert(requested.deep_view() =~= requested_meta(vector.deep_view()));
    match stored {
        Some(stored) => {
            if stored.schema_version == requested.schema_version && text_same(
                stored.metric.as_str(),
                requested.metric.as_str(),
            ) && same_config(&stored.vector, &requested.vector) {
                assert(stored.deep_view() =~= requested.deep_view());
                Ok(None)
            } else {
                let head = join3(
                    "stored configuration ",
                    show_meta(stored).as_str(),
                    " does not match requested ",
                );
                Err(
                    IndexError::VectorSpaceMismatch(
                        join2(head.as_str(), show_meta(&requested).as_str()),
                    ),
                )
            }
        },
        None => Ok(Some(requested)),
    }
}

/// Stored documents by id.
pub type DocsModel = Map<Seq<char>, DocModel>;

/// The documents can be listed in ascending order of their ids.
pub open spec fn is_listed(docs: DocsModel) -> bool {
    ascending::<String, DocModel>(rows_of::<String, DocModel>(docs)) && map_of(
        rows_of::<String, DocModel>(docs),
    ) == docs
}

/// The documents once a batch was stored, one after the other.
pub open spec fn stored_with(docs: DocsModel, batch: Seq<DocModel>) -> DocsModel
    decreases batch.len(),
{
    if batch.len() == 0 {
        docs
    } else {
        stored_with(docs, batch.drop_last()).insert(batch.last().id, batch.last())
    }
}

/// The documents once some were removed.
pub open spec fn stored_without(docs: DocsModel, ids: Seq<Seq<char>>) -> DocsModel
    decreases ids.len(),
{
    if ids.len() == 0 {
        docs
    } else {
        stored_without(docs, ids.drop_last()).remove(ids.last())
    }
}

/// The filter tokens of all documents.
pub open spec fn all_tokens(docs: DocsModel) -> TokensModel {
    Map::new(
        |id: Seq<char>| docs.contains_key(id),
        |id: Seq<char>| tokens_of(docs[id].filters),
    )
}

/// The vectors of the documents that have one, in ascending order of their ids.
pub open spec fn vectors_of(rows: Seq<(Seq<char>, DocModel)>) -> Seq<(Seq<char>, Seq<u32>)>
    decreases rows.len(),
{
    if rows.len() == 0 {
        Seq::empty()
    } else {
        let before = vectors_of(rows.drop_last());
        match rows.last().1.vector {
            Some(vector) => before.push((rows.last().0, vector)),
            None => before,
        }
    }
}

/// The names of vectors.
pub open spec fn names_of(vectors: Seq<(Seq<char>, Seq<u32>)>) -> Seq<Seq<char>> {
    Seq::new(vectors.len(), |i: int| vectors[i].0)
}

/// Vectors under the numbers that a new graph knows them by.
pub open spec fn numbered(vectors: Seq<(Seq<char>, Seq<u32>)>) -> Seq<(usize, Seq<u32>)> {
    Seq::new(vectors.len(), |i: int| (i as usize, vectors[i].1))
}

/// The graph once a batch of documents was put into it.
pub open spec fn graph_with(graph: GraphModel, batch: Seq<DocModel>) -> GraphModel
    decreases batch.len(),
{
    if batch.len() == 0 {
        graph
    } else {
        let before = graph_with(graph, batch.drop_last());
        match batch.last().vector {
            Some(vector) => before.inserted(batch.last().id),
            None => before.removed(batch.last().id),
        }
    }
}

/// The vectors that a batch puts into the graph, under their numbers.
pub open spec fn placed_with(graph: GraphModel, batch: Seq<DocModel>) -> Seq<(usize, Seq<u32>)>
    decreases batch.len(),
{
    if batch.len() == 0 {
        Seq::empty()
    } else {
        let before = placed_with(graph, batch.drop_last());
        match batch.last().vector {
            Some(vector) => before.push(
                (graph_with(graph, batch.drop_last()).ids.len() as usize, vector),
            ),
            None => before,
        }
    }
}

/// The graph once some documents were removed.
pub open spec fn graph_without(graph: GraphModel, ids: Seq<Seq<char>>) -> GraphModel
    decreases ids.len(),
{
    if ids.len() == 0 {
        graph
    } else {
        graph_without(graph, ids.drop_last()).removed(ids.last())
    }
}

/// What the neighbour graph must do.
#[derive(Debug, PartialEq)]
pub enum Work {
    /// Take up these vectors.
    Insert(Vec<Placed>),
    /// Forget everything and take up these vectors.
    Rebuild(Vec<Placed>),
}

#[verifier::ext_equal]
pub enum WorkModel {
    Insert(Seq<(usize, Seq<u32>)>),
    Rebuild(Seq<(usize, Seq<u32>)>),
}

impl DeepView for Placed {
    type V = (usize, Seq<u32>);

    open spec fn deep_view(&self) -> (usize, Seq<u32>) {
        (self.number, self.vector@)
    }
}

impl DeepView for Work {
    type V = WorkModel;

    open spec fn deep_view(&self) -> WorkModel {
        match self {
            Work::Insert(placed) => WorkModel::Insert(placed.deep_view()),
            Work::Rebuild(placed) => WorkModel::Rebuild(placed.deep_view()),
        }
    }
}

/// What the full-text engine says about a change: whether it took it over, and, where
/// it did not, whether it could be filled anew from all documents.
#[derive(Debug)]
pub struct EngineReport {
    pub update: Result<(), String>,
    pub rebuild: Result<(), String>,
}

impl EngineReport {
    /// The engine took the change over.
    pub open spec fn took_over(self) -> bool {
        self.update is Ok
    }
}

/// What the index holds.
#[verifier::ext_equal]
pub struct SemanticModel {
    /// The authoritative documents.
    pub docs: DocsModel,
    /// How many changes have been committed to them.
    pub generation: u64,
    pub config: Option<ConfigModel>,
    /// What the full-text index knows.
    pub tokens: TokensModel,
    /// What the neighbour graph knows.
    pub graph: Option<GraphModel>,
    /// The generation that the derived indexes are at.
    pub derived: u64,
}

impl SemanticModel {
    /// The vectors that the graph must know.
    pub open spec fn vectors(self) -> Seq<(Seq<char>, Seq<u32>)> {
        vectors_of(rows_of::<String, DocModel>(self.docs))
    }

    /// A graph built from the documents.
    pub open spec fn fresh_graph(self) -> Option<GraphModel> {
        match self.config {
            Some(config) => Some(
                GraphModel::rebuilt(config.dimension, names_of(self.vectors())),
            ),
            None => None,
        }
    }

    /// The vectors that a graph built from the documents takes up.
    pub open spec fn fresh_work(self) -> Seq<(usize, Seq<u32>)> {
        match self.config {
            Some(config) => numbered(self.vectors()),
            None => Seq::empty(),
        }
    }

    /// The index with its derived indexes built from the documents.
    pub open spec fn rebuilt(self) -> SemanticModel {
        SemanticModel {
            tokens: all_tokens(self.docs),
            graph: self.fresh_graph(),
            derived: self.generation,
            ..self
        }
    }

    /// The derived indexes hold exactly the documents.
    pub open spec fn is_synced(self) -> bool {
        &&& self.tokens == all_tokens(self.docs)
        &&& self.graph is Some ==> forall|id: Seq<char>| #[trigger]
            self.graph->0.latest.contains_key(id) <==> self.docs.contains_key(id)
                && self.docs[id].vector is Some
    }

    /// Documents are stored under their ids and have acceptable vectors, and there is
    /// a graph, of the configured dimension, exactly if vectors are configured.
    pub open spec fn is_valid(self) -> bool {
        &&& is_listed(self.docs)
        &&& forall|id: Seq<char>| #[trigger]
            self.docs.contains_key(id) ==> self.docs[id].id == id && doc_error(
                self.docs[id],
                self.config,
            ) is None
        &&& match (self.config, self.graph) {
            (Some(config), Some(graph)) => graph.dimension == config.dimension
                && graph.is_valid(),
            (None, None) => true,
            _ => false,
        }
    }

    /// The documents have changed: a new generation.
    pub open spec fn committed(self, docs: DocsModel) -> SemanticModel {
        SemanticModel { docs, generation: (self.generation + 1) as u64, ..self }
    }

    /// The derived indexes have followed a change; a graph with many tombstones is
    /// built anew.
    pub open spec fn followed(self, tokens: TokensModel, graph: Option<GraphModel>) -> SemanticModel {
        SemanticModel {
            tokens,
            graph: if graph is Some && graph->0.wants_compaction() {
                self.fresh_graph()
            } else {
                graph
            },
            derived: self.generation,
            ..self
        }
    }
}

/// The outcome of a change.
#[verifier::ext_equal]
pub struct Settled {
    pub model: SemanticModel,
    pub result: Result<WorkModel, IndexErrorModel>,
}

/// A result in terms of models.
pub open spec fn result_view(result: Result<Work, IndexError>) -> Result<
    WorkModel,
    IndexErrorModel,
> {
    match result {
        Ok(work) => Ok(work.deep_view()),
        Err(error) => Err(error.deep_view()),
    }
}

/// How a committed change ends: the derived indexes follow; or, where the engine did
/// not take it over, they are built anew; or, where that failed too, they stay behind
/// and the error says so.
pub open spec fn settle(
    committed: SemanticModel,
    tokens: TokensModel,
    graph: Option<GraphModel>,
    work: WorkModel,
    report: EngineReport,
) -> Settled {
    match report.update {
        Ok(_) => Settled {
            model: committed.followed(tokens, graph),
            result: Ok(
                if graph is Some && graph->0.wants_compaction() {
                    WorkModel::Rebuild(committed.fresh_work())
                } else {
                    work
                },
            ),
        },
        Err(update_error) => match report.rebuild {
            Ok(_) => Settled {
                model: committed.rebuilt(),
                result: Ok(WorkModel::Rebuild(committed.fresh_work())),
            },
            Err(rebuild_error) => Settled {
                model: committed,
                result: Err(
                    IndexErrorModel::IndexUnavailableAfterCommit {
                        generation: committed.generation,
                        cause: "update failed: "@ + update_error@ + "; rebuild failed: "@
                            + rebuild_error@,
                    },
                ),
            },
        },
    }
}

/// Nothing changes.
pub open spec fn unchanged(model: SemanticModel) -> Settled {
    Settled { model, result: Ok(WorkModel::Insert(Seq::empty())) }
}

/// A change is refused because there are no generations left.
pub open spec fn out_of_generations(model: SemanticModel) -> Settled {
    Settled { model, result: Err(IndexErrorModel::Storage("semantic generation overflow"@)) }
}

/// The effect of storing a batch of documents.
pub open spec fn upserted(
    model: SemanticModel,
    batch: Seq<DocModel>,
    report: EngineReport,
) -> Settled {
    match docs_error(batch, model.config, batch.len()) {
        Some(error) => Settled { model, result: Err(error) },
        None => if batch.len() == 0 {
            unchanged(model)
        } else if model.generation == u64::MAX {
            out_of_generations(model)
        } else {
            settle(
                model.committed(stored_with(model.docs, batch)),
                with_docs(model.tokens, batch),
                match model.graph {
                    Some(graph) => Some(graph_with(graph, batch)),
                    None => None,
                },
                WorkModel::Insert(
                    match model.graph {
                        Some(graph) => placed_with(graph, batch),
                        None => Seq::empty(),
                    },
                ),
                report,
            )
        },
    }
}

/// The effect of deleting a document.
pub open spec fn deleted(model: SemanticModel, id: Seq<char>, report: EngineReport) -> Settled {
    if !model.docs.contains_key(id) {
        unchanged(model)
    } else if model.generation == u64::MAX {
        out_of_generations(model)
    } else {
        settle(
            model.committed(model.docs.remove(id)),
            model.tokens.remove(id),
            match model.graph {
                Some(graph) => Some(graph.removed(id)),
                None => None,
            },
            WorkModel::Insert(Seq::empty()),
            report,
        )
    }
}

/// The effect of deleting the documents that carry a filter.
pub open spec fn filtered_out(
    model: SemanticModel,
    filter: FilterModel,
    report: EngineReport,
) -> Settled {
    let ids = carriers(
        rows_of::<String, Seq<Seq<char>>>(model.tokens),
        seq![token_of(filter)],
    );
    if ids.len() == 0 {
        unchanged(model)
    } else if model.generation == u64::MAX {
        out_of_generations(model)
    } else {
        settle(
            model.committed(stored_without(model.docs, ids)),
            without_token(model.tokens, token_of(filter)),
            match model.graph {
                Some(graph) => Some(graph_without(graph, ids)),
                None => None,
            },
            WorkModel::Insert(Seq::empty()),
            report,
        )
    }
}

/// The effect of deleting all documents.
pub open spec fn cleared(model: SemanticModel, report: EngineReport) -> Settled {
    if model.generation == u64::MAX {
        out_of_generations(model)
    } else {
        settle(
            model.committed(Map::empty()),
            Map::empty(),
            match model.graph {
                Some(graph) => Some(GraphModel::blank(graph.dimension)),
                None => None,
            },
            WorkModel::Rebuild(Seq::empty()),
            report,
        )
    }
}

/// The authoritative documents with their generation.
pub struct SemanticStore {
    docs: SortedMap<String, IndexDoc>,
    generation: u64,
}

impl SemanticStore {
    pub closed spec fn docs(&self) -> DocsModel {
        self.docs.deep_view()
    }

    pub closed spec fn at(&self) -> u64 {
        self.generation
    }

    /// A store that holds the given documents.
    pub fn new(documents: Vec<IndexDoc>, generation: u64) -> (r: Self)
        ensures
            r.docs() == stored_with(Map::empty(), documents.deep_view()),
            r.at() == generation,
            is_listed(r.docs()),
    {
        let mut store = SemanticStore { docs: SortedMap::new(), generation };
        store.put_all(&documents);
        store
    }

    /// The number of changes that have been committed.
    pub fn generation(&self) -> (r: u64)
        ensures
            r == self.at(),
    {
        self.generation
    }

    /// All documents, in ascending order of their ids.
    pub fn load_all(&self) -> (r: Vec<IndexDoc>)
        ensures
            r.deep_view() == docs_in_order(self.docs()),
            is_listed(self.docs()),
    {
        let n: usize = self.docs.len();
        let ghost rows = self.docs.pairs();
        let ghost all = docs_in_order(self.docs());
        let mut out: Vec<IndexDoc> = Vec::new();
        let mut i: usize = 0;
        assert(out.deep_view() =~= all.take(0));
        while i < n
            invariant
                i <= n,
                n == rows.len(),
                rows == self.docs.pairs(),
                all == Seq::new(rows.len(), |i: int| rows[i].1),
                out.deep_view() == all.take(i as int),
            decreases n - i,
        {
            let ghost was = out.deep_view();
            out.push(self.docs.value_at(i).replica());
            assert(out.deep_view() =~= was.push(all[i as int]));
            assert(all.take(i + 1) =~= was.push(all[i as int]));
            i += 1;
        }
        assert(all.take(i as int) =~= all);
        out
    }

    /// The document of an id.
    pub fn load(&self, id: &str) -> (r: Option<&IndexDoc>)
        ensures
            match r {
                Some(doc) => self.docs().contains_key(id@) && self.docs()[id@] == doc.deep_view(),
                None => !self.docs().contains_key(id@),
            },
    {
        self.docs.get(&id.to_owned())
    }

    fn put_all(&mut self, documents: &Vec<IndexDoc>)
        ensures
            final(self).docs() == stored_with(old(self).docs(), documents.deep_view()),
            final(self).at() == old(self).at(),
            is_listed(final(self).docs()),
    {
        let ghost start = self.docs();
        let ghost all = documents.deep_view();
        let mut i: usize = 0;
        assert(all.take(0) =~= Seq::empty());
        while i < documents.len()
            invariant
                i <= documents.len(),
                all == documents.deep_view(),
                self.at() == old(self).at(),
                self.docs() == stored_with(start, all.take(i as int)),
            decreases documents.len() - i,
        {
            assert(all.take(i + 1).drop_last() =~= all.take(i as int));
            assert(all.take(i + 1).last() == documents@[i as int].deep_view());
            self.docs.insert(documents[i].id.clone(), documents[i].replica());
            i += 1;
        }
        assert(all.take(i as int) =~= all);
        let n: usize = self.docs.len();
    }

    fn next_generation(&self) -> (r: Result<u64, IndexError>)
        ensures
            match r {
                Ok(next) => self.at() < u64::MAX && next == self.at() + 1,
                Err(error) => self.at() == u64::MAX && error.deep_view()
                    == IndexErrorModel::Storage("semantic generation overflow"@),
            },
    {
        if self.generation == u64::MAX {
            Err(IndexError::Storage("semantic generation overflow".to_owned()))
        } else {
            Ok(self.generation + 1)
        }
    }

    /// Stores a batch of documents under a new generation.
    pub fn upsert_batch(&mut self, documents: &Vec<IndexDoc>) -> (r: Result<u64, IndexError>)
        ensures
            match r {
                Ok(generation) => {
                    &&& old(self).at() < u64::MAX
                    &&& generation == old(self).at() + 1
                    &&& final(self).at() == generation
                    &&& final(self).docs() == stored_with(old(self).docs(), documents.deep_view())
                    &&& is_listed(final(self).docs())
                },
                Err(error) => {
                    &&& old(self).at() == u64::MAX
                    &&& error.deep_view() == IndexErrorModel::Storage(
                        "semantic generation overflow"@,
                    )
                    &&& *final(self) == *old(self)
                },
            },
    {
        let next = self.next_generation()?;
        self.put_all(documents);
        self.generation = next;
        Ok(next)
    }

    /// Removes documents under a new generation.
    pub fn delete_ids(&mut self, ids: &Vec<String>) -> (r: Result<u64, IndexError>)
        ensures
            match r {
                Ok(generation) => {
                    &&& old(self).at() < u64::MAX
                    &&& generation == old(self).at() + 1
                    &&& final(self).at() == generation
                    &&& final(self).docs() == stored_without(old(self).docs(), ids.deep_view())
                    &&& is_listed(final(self).docs())
                },
                Err(error) => {
                    &&& old(self).at() == u64::MAX
                    &&& error.deep_view() == IndexErrorModel::Storage(
                        "semantic generation overflow"@,
                    )
                    &&& *final(self) == *old(self)
                },
            },
    {
        let next = self.next_generation()?;
        let ghost start = self.docs();
        let ghost all = ids.deep_view();
        let mut i: usize = 0;
        assert(all.take(0) =~= Seq::empty());
        while i < ids.len()
            invariant
                i <= ids.len(),
                all == ids.deep_view(),
                self.docs() == stored_without(start, all.take(i as int)),
            decreases ids.len() - i,
        {
            let ghost was = self.docs();
            assert(all.take(i + 1).drop_last() =~= all.take(i as int));
            assert(all.take(i + 1).last() == ids@[i as int]@);
            let removed = self.docs.remove(&ids[i]);
            assert(self.docs() =~= was.remove(all[i as int]));
            i += 1;
        }
        assert(all.take(i as int) =~= all);
        let n: usize = self.docs.len();
        self.generation = next;
        Ok(next)
    }

    /// Removes all documents under a new generation.
    pub fn clear(&mut self) -> (r: Result<u64, IndexError>)
        ensures
            match r {
                Ok(generation) => {
                    &&& old(self).at() < u64::MAX
                    &&& generation == old(self).at() + 1
                    &&& final(self).at() == generation
                    &&& final(self).docs() == DocsModel::empty()
                    &&& is_listed(final(self).docs())
                },
                Err(error) => {
                    &&& old(self).at() == u64::MAX
                    &&& error.deep_view() == IndexErrorModel::Storage(
                        "semantic generation overflow"@,
                    )
                    &&& *final(self) == *old(self)
                },
            },
    {
        let next = self.next_generation()?;
        self.docs = SortedMap::new();
        let n: usize = self.docs.len();
        self.generation = next;
        Ok(next)
    }
}

/// All documents, in ascending order of their ids.
pub open spec fn docs_in_order(docs: DocsModel) -> Seq<DocModel> {
    let rows = rows_of::<String, DocModel>(docs);
    Seq::new(rows.len(), |i: int| rows[i].1)
}

/// A graph that holds the vectors of the documents, and what it must take up.
fn build_vector_index(dimension: usize, docs: &SortedMap<String, IndexDoc>) -> (r: (
    VectorIndex,
    Vec<Placed>,
))
    requires
        forall|id: Seq<char>| #[trigger]
            docs.deep_view().contains_key(id) ==> match docs.deep_view()[id].vector {
                Some(vector) => vector_error(vector, dimension) is None,
                None => true,
            },
    ensures
        r.0.deep_view() == GraphModel::rebuilt(
            dimension,
            names_of(vectors_of(rows_of::<String, DocModel>(docs.deep_view()))),
        ),
        r.0.deep_view().is_valid(),
        r.1.deep_view() == numbered(
            vectors_of(rows_of::<String, DocModel>(docs.deep_view())),
        ),
{
    let n: usize = docs.len();
    let ghost rows = docs.pairs();
    let mut index = VectorIndex::new(dimension);
    let mut placed: Vec<Placed> = Vec::new();
    let mut i: usize = 0;
    proof {
        assert(rows.take(0) =~= Seq::empty());
        assert(names_of(vectors_of(rows.take(0))) =~= Seq::empty());
        assert(placed.deep_view() =~= numbered(vectors_of(rows.take(0))));
    }
    while i < n
        invariant
            i <= n,
            n == rows.len(),
            rows == docs.pairs(),
            forall|id: Seq<char>| #[trigger]
                docs.deep_view().contains_key(id) ==> match docs.deep_view()[id].vector {
                    Some(vector) => vector_error(vector, dimension) is None,
                    None => true,
                },
            index.deep_view() == GraphModel::rebuilt(
                dimension,
                names_of(vectors_of(rows.take(i as int))),
            ),
            index.deep_view().ids.len() == vectors_of(rows.take(i as int)).len(),
            index.deep_view().dimension == dimension,
            index.deep_view().is_valid(),
            placed.deep_view() == numbered(vectors_of(rows.take(i as int))),
        decreases n - i,
    {
        let ghost before = vectors_of(rows.take(i as int));
        let ghost was = placed.deep_view();
        let doc = docs.value_at(i);
        let id = docs.key_at(i);
        assert(rows.take(i + 1).drop_last() =~= rows.take(i as int));
        assert(docs.deep_view().contains_key(id@));
        if let Some(vector) = &doc.vector {
            let ghost seen = vector.deep_view();
            assert(seen =~= vector@);
            let copy = replica_list(vector);
            assert(copy.deep_view() =~= copy@);
            match index.insert(id.clone(), vector) {
                Ok(number) => {
                    placed.push(Placed { number, vector: copy });
                    proof {
                        let now = before.push((id@, seen));
                        assert(vectors_of(rows.take(i + 1)) == now);
                        assert(names_of(now).drop_last() =~= names_of(before));
                        assert(names_of(now).last() == id@);
                        assert(placed.deep_view() =~= was.push((number, seen)));
                        assert(was.push((number, seen)) =~= numbered(now));
                    }
                },
                Err(error) => {
                    assert(false);
                },
            }
        }
        i += 1;
    }
    assert(rows.take(i as int) =~= rows);
    (index, placed)
}

/// Hybrid semantic index backed by authoritative documents.
pub struct SemanticIndex {
    store: SemanticStore,
    vector_config: Option<VectorConfig>,
    text: TextIndex,
    vector: Option<VectorIndex>,
    generation: u64,
}

impl DeepView for SemanticIndex {
    type V = SemanticModel;

    closed spec fn deep_view(&self) -> SemanticModel {
        SemanticModel {
            docs: self.store.docs(),
            generation: self.store.at(),
            config: self.vector_config.deep_view(),
            tokens: self.text.deep_view(),
            graph: self.vector.deep_view(),
            derived: self.generation,
        }
    }
}

proof fn lemma_stored_with(
    docs: DocsModel,
    batch: Seq<DocModel>,
    config: Option<ConfigModel>,
    n: nat,
)
    requires
        n <= batch.len(),
        docs_error(batch, config, batch.len()) is None,
        forall|id: Seq<char>| #[trigger]
            docs.contains_key(id) ==> docs[id].id == id && doc_error(docs[id], config) is None,
    ensures
        forall|id: Seq<char>| #[trigger]
            stored_with(docs, batch.take(n as int)).contains_key(id) ==> stored_with(
                docs,
                batch.take(n as int),
            )[id].id == id && doc_error(stored_with(docs, batch.take(n as int))[id], config) is None,
    decreases n,
{
    if n > 0 {
        let m = (n - 1) as nat;
        lemma_stored_with(docs, batch, config, m);
        assert(batch.take(n as int).drop_last() =~= batch.take(m as int));
        lemma_no_docs_error(batch, config, batch.len(), m as int);
    } else {
        assert(batch.take(0) =~= Seq::empty());
    }
}

proof fn lemma_stored_without(docs: DocsModel, ids: Seq<Seq<char>>)
    ensures
        forall|id: Seq<char>| #[trigger]
            stored_without(docs, ids).contains_key(id) <==> docs.contains_key(id) && !ids.contains(
                id,
            ),
        forall|id: Seq<char>| #[trigger]
            stored_without(docs, ids).contains_key(id) ==> stored_without(docs, ids)[id]
                == docs[id],
    decreases ids.len(),
{
    if ids.len() > 0 {
        let rest = ids.drop_last();
        lemma_stored_without(docs, rest);
        assert forall|id: Seq<char>| #[trigger] ids.contains(id) <==> rest.contains(id) || id
            == ids.last() by {
            if ids.contains(id) {
                let i = choose|i: int| 0 <= i < ids.len() && ids[i] == id;
                if i < rest.len() {
                    assert(rest[i] == id);
                }
            }
            if rest.contains(id) {
                let i = choose|i: int| 0 <= i < rest.len() && rest[i] == id;
                assert(ids[i] == id);
            }
            assert(ids[ids.len() - 1] == ids.last());
        }
        let before = stored_without(docs, rest);
        let after = stored_without(docs, ids);
        assert(after == before.remove(ids.last()));
        assert forall|id: Seq<char>| #[trigger] after.contains_key(id) <==> docs.contains_key(id)
            && !ids.contains(id) by {
            assert(before.contains_key(id) <==> docs.contains_key(id) && !rest.contains(id));
            assert(ids.contains(id) <==> rest.contains(id) || id == ids.last());
        }
        assert forall|id: Seq<char>| #[trigger] after.contains_key(id) implies after[id]
            == docs[id] by {
            assert(before.contains_key(id));
        }
    }
}

impl SemanticIndex {
    /// Opens an index on stored documents.
    pub fn open(
        vector_config: Option<VectorConfig>,
        documents: Vec<IndexDoc>,
        generation: u64,
    ) -> (r: Result<(Self, Vec<Placed>), IndexError>)
        ensures
            match r {
                Ok((index, placed)) => {
                    let docs = stored_with(Map::empty(), documents.deep_view());
                    let model = index.deep_view();
                    &&& config_error(vector_config.deep_view()) is None
                    &&& docs_error(
                        documents.deep_view(),
                        vector_config.deep_view(),
                        documents@.len(),
                    ) is None
                    &&& model.docs == docs
                    &&& model.generation == generation
                    &&& model.config == vector_config.deep_view()
                    &&& model == model.rebuilt()
                    &&& model.is_valid()
                    &&& placed.deep_view() == model.fresh_work()
                },
                Err(error) => match config_error(vector_config.deep_view()) {
                    Some(cause) => error.deep_view() == cause,
                    None => docs_error(
                        documents.deep_view(),
                        vector_config.deep_view(),
                        documents@.len(),
                    ) == Some(error.deep_view()),
                },
            },
    {
        validate_config(&vector_config)?;
        validate_documents(&documents, &vector_config)?;
        let ghost batch = documents.deep_view();
        let store = SemanticStore::new(documents, generation);
        let dimension: Option<usize> = match &vector_config {
            Some(config) => Some(config.dimension),
            None => None,
        };
        let ghost setup = vector_config.deep_view();
        proof {
            assert(batch.take(batch.len() as int) =~= batch);
            lemma_stored_with(Map::empty(), batch, setup, batch.len());
        }
        let mut index = SemanticIndex {
            store,
            vector_config,
            text: TextIndex::new(),
            vector: match dimension {
                Some(dimension) => Some(VectorIndex::new(dimension)),
                None => None,
            },
            generation,
        };
        assert(index.deep_view().is_valid());
        let placed = index.rebuild_state();
        Ok((index, placed))
    }

    /// Builds the derived indexes from the documents.
    pub fn rebuild_state(&mut self) -> (r: Vec<Placed>)
        requires
            old(self).deep_view().is_valid(),
        ensures
            final(self).deep_view() == old(self).deep_view().rebuilt(),
            final(self).deep_view().is_valid(),
            r.deep_view() == old(self).deep_view().fresh_work(),
    {
        let ghost model = self.deep_view();
        let documents = self.store.load_all();
        let mut text = TextIndex::new();
        text.upsert_batch(&documents);
        proof {
            let rows = rows_of::<String, DocModel>(model.docs);
            let n = rows.len() as int;
            assert forall|i: int| 0 <= i < rows.len() implies (#[trigger] rows[i]).1.id
                == rows[i].0 by {
                lemma_map_of_value::<String, DocModel>(rows, i);
                assert(model.docs.contains_key(rows[i].0));
            }
            lemma_tokens_of_rows(rows, n);
            assert(rows.take(n) =~= rows);
            assert(docs_in_order(model.docs).take(n) =~= docs_in_order(model.docs));
        }
        self.text = text;
        self.generation = self.store.generation();
        self.rebuild_vector()
    }

    /// Builds the graph from the documents.
    fn rebuild_vector(&mut self) -> (r: Vec<Placed>)
        requires
            old(self).deep_view().is_valid(),
        ensures
            final(self).deep_view() == (SemanticModel {
                graph: old(self).deep_view().fresh_graph(),
                ..old(self).deep_view()
            }),
            final(self).deep_view().is_valid(),
            r.deep_view() == old(self).deep_view().fresh_work(),
    {
        let ghost model = self.deep_view();
        match &self.vector_config {
            Some(config) => {
                proof {
                    assert forall|id: Seq<char>| #[trigger]
                        self.store.docs.deep_view().contains_key(
                            id,
                        ) implies match self.store.docs.deep_view()[id].vector {
                        Some(vector) => vector_error(vector, config.dimension) is None,
                        None => true,
                    } by {
                        assert(model.docs.contains_key(id));
                    }
                }
                let (index, placed) = build_vector_index(config.dimension, &self.store.docs);
                proof {
                    lemma_rebuilt_dimension(config.dimension, names_of(model.vectors()));
                }
                self.vector = Some(index);
                placed
            },
            None => {
                let placed: Vec<Placed> = Vec::new();
                assert(placed.deep_view() =~= Seq::empty());
                placed
            },
        }
    }

    /// Whether the derived indexes are behind the documents.
    pub fn needs_sync(&self) -> (r: bool)
        ensures
            r == (self.deep_view().derived != self.deep_view().generation),
    {
        self.generation != self.store.generation()
    }

    /// The generation of the documents.
    pub fn generation(&self) -> (r: u64)
        ensures
            r == self.deep_view().generation,
    {
        self.store.generation()
    }

    /// Lets a committed change end.
    fn finish_update(&mut self, work: Work, report: &EngineReport) -> (r: Result<Work, IndexError>)
        requires
            old(self).deep_view().is_valid(),
        ensures
            final(self).deep_view().is_valid(),
            ({
                let model = old(self).deep_view();
                let settled = settle(model, model.tokens, model.graph, work.deep_view(), *report);
                final(self).deep_view() == settled.model && result_view(r) == settled.result
            }),
    {
        match &report.update {
            Ok(_) => {
                self.generation = self.store.generation();
                let compact: bool = match &self.vector {
                    Some(vector) => vector.should_compact(),
                    None => false,
                };
                if compact {
                    Ok(Work::Rebuild(self.rebuild_vector()))
                } else {
                    Ok(work)
                }
            },
            Err(update_error) => match &report.rebuild {
                Ok(_) => Ok(Work::Rebuild(self.rebuild_state())),
                Err(rebuild_error) => {
                    let head = join3(
                        "update failed: ",
                        update_error.as_str(),
                        "; rebuild failed: ",
                    );
                    Err(
                        IndexError::IndexUnavailableAfterCommit {
                            generation: self.store.generation(),
                            cause: join2(head.as_str(), rebuild_error.as_str()),
                        },
                    )
                },
            },
        }
    }
}

proof fn lemma_rebuilt_dimension(dimension: usize, ids: Seq<Seq<char>>)
    ensures
        GraphModel::rebuilt(dimension, ids).dimension == dimension,
    decreases ids.len(),
{
    if ids.len() > 0 {
        lemma_rebuilt_dimension(dimension, ids.drop_last());
    }
}

proof fn lemma_tokens_of_rows(rows: Seq<(Seq<char>, DocModel)>, n: int)
    requires
        0 <= n <= rows.len(),
        forall|i: int| 0 <= i < rows.len() ==> (#[trigger] rows[i]).1.id == rows[i].0,
    ensures
        ({
            let docs = Seq::new(rows.len(), |i: int| rows[i].1);
            with_docs(Map::empty(), docs.take(n)) == all_tokens(map_of(rows.take(n)))
        }),
    decreases n,
{
    let docs = Seq::new(rows.len(), |i: int| rows[i].1);
    if n > 0 {
        lemma_tokens_of_rows(rows, n - 1);
        assert(docs.take(n).drop_last() =~= docs.take(n - 1));
        assert(rows.take(n).drop_last() =~= rows.take(n - 1));
        assert(docs.take(n).last() == rows[n - 1].1);
        assert(rows[n - 1].1.id == rows[n - 1].0);
        assert(with_docs(Map::empty(), docs.take(n)) =~= all_tokens(map_of(rows.take(n))));
    } else {
        assert(docs.take(0) =~= Seq::empty());
        assert(rows.take(0) =~= Seq::empty());
        assert(with_docs(Map::empty(), docs.take(n)) =~= all_tokens(map_of(rows.take(n))));
    }
}

impl SemanticIndex {
    /// Insert or replace a document.
    pub fn upsert(&mut self, doc: &IndexDoc, report: &EngineReport) -> (r: Result<Work, IndexError>)
        requires
            old(self).deep_view().is_valid(),
        ensures
            final(self).deep_view().is_valid(),
            (Settled { model: final(self).deep_view(), result: result_view(r) }) == upserted(
                old(self).deep_view(),
                seq![doc.deep_view()],
                *report,
            ),
    {
        let mut docs: Vec<IndexDoc> = Vec::new();
        docs.push(doc.replica());
        assert(docs.deep_view() =~= seq![doc.deep_view()]);
        self.upsert_batch(&docs, report)
    }

    /// Insert or replace a batch of documents under a single commit. All of them are
    /// checked before anything is stored.
    pub fn upsert_batch(&mut self, docs: &Vec<IndexDoc>, report: &EngineReport) -> (r: Result<
        Work,
        IndexError,
    >)
        requires
            old(self).deep_view().is_valid(),
        ensures
            final(self).deep_view().is_valid(),
            (Settled { model: final(self).deep_view(), result: result_view(r) }) == upserted(
                old(self).deep_view(),
                docs.deep_view(),
                *report,
            ),
    {
        let ghost model = self.deep_view();
        let ghost batch = docs.deep_view();
        validate_documents(docs, &self.vector_config)?;
        if docs.len() == 0 {
            let none: Vec<Placed> = Vec::new();
            assert(none.deep_view() =~= Seq::empty());
            return Ok(Work::Insert(none));
        }
        let committed = self.store.upsert_batch(docs)?;
        let ghost after = model.committed(stored_with(model.docs, batch));
        proof {
            assert(batch.take(batch.len() as int) =~= batch);
            lemma_stored_with(model.docs, batch, model.config, batch.len());
            assert(self.deep_view() =~= after);
            assert(after.is_valid());
        }
        let placed = match &report.update {
            Ok(_) => {
                self.text.upsert_batch(docs);
                self.sync_vectors(docs)
            },
            Err(_) => {
                let none: Vec<Placed> = Vec::new();
                none
            },
        };
        self.finish_update(Work::Insert(placed), report)
    }

    /// Lets the graph follow a batch of documents.
    fn sync_vectors(&mut self, docs: &Vec<IndexDoc>) -> (r: Vec<Placed>)
        requires
            old(self).deep_view().is_valid(),
            docs_error(docs.deep_view(), old(self).deep_view().config, docs@.len()) is None,
        ensures
            final(self).deep_view().is_valid(),
            final(self).deep_view() == (SemanticModel {
                graph: match old(self).deep_view().graph {
                    Some(graph) => Some(graph_with(graph, docs.deep_view())),
                    None => None,
                },
                ..old(self).deep_view()
            }),
            r.deep_view() == (match old(self).deep_view().graph {
                Some(graph) => placed_with(graph, docs.deep_view()),
                None => Seq::empty(),
            }),
    {
        let ghost model = self.deep_view();
        let ghost batch = docs.deep_view();
        let mut placed: Vec<Placed> = Vec::new();
        assert(placed.deep_view() =~= Seq::empty());
        let mut vector: Option<VectorIndex> = None;
        std::mem::swap(&mut vector, &mut self.vector);
        if let Some(index) = vector {
            let mut index = index;
            let ghost start = index.deep_view();
            let mut i: usize = 0;
            assert(batch.take(0) =~= Seq::empty());
            while i < docs.len()
                invariant
                    i <= docs.len(),
                    batch == docs.deep_view(),
                    model.config is Some,
                    start.dimension == (model.config->0).dimension,
                    docs_error(batch, model.config, batch.len()) is None,
                    index.deep_view() == graph_with(start, batch.take(i as int)),
                    index.deep_view().is_valid(),
                    index.deep_view().dimension == start.dimension,
                    placed.deep_view() == placed_with(start, batch.take(i as int)),
                decreases docs.len() - i,
            {
                let doc = &docs[i];
                let ghost was = placed.deep_view();
                proof {
                    assert(batch[i as int] == doc.deep_view());
                    assert(batch.take(i + 1).drop_last() =~= batch.take(i as int));
                    assert(batch.take(i + 1).last() == doc.deep_view());
                    lemma_no_docs_error(batch, model.config, batch.len(), i as int);
                }
                match &doc.vector {
                    Some(values) => {
                        assert(values.deep_view() =~= values@);
                        let copy = replica_list(values);
                        assert(copy.deep_view() =~= copy@);
                        match index.insert(doc.id.clone(), values) {
                            Ok(number) => {
                                placed.push(Placed { number, vector: copy });
                                assert(placed.deep_view() =~= was.push((number, values@)));
                            },
                            Err(error) => {
                                assert(false);
                            },
                        }
                    },
                    None => {
                        let gone: bool = index.delete(doc.id.as_str());
                    },
                }
                i += 1;
            }
            assert(batch.take(i as int) =~= batch);
            self.vector = Some(index);
        } else {
            self.vector = None;
        }
        placed
    }

    /// Whether there is a document under the id.
    pub fn holds(&self, id: &str) -> (r: bool)
        ensures
            r == self.deep_view().docs.contains_key(id@),
    {
        self.store.load(id).is_some()
    }

    /// Delete a document. Missing ids are a no-op.
    pub fn delete(&mut self, id: &str, report: &EngineReport) -> (r: Result<Work, IndexError>)
        requires
            old(self).deep_view().is_valid(),
        ensures
            final(self).deep_view().is_valid(),
            (Settled { model: final(self).deep_view(), result: result_view(r) }) == deleted(
                old(self).deep_view(),
                id@,
                *report,
            ),
    {
        let ghost model = self.deep_view();
        let none: Vec<Placed> = Vec::new();
        assert(none.deep_view() =~= Seq::empty());
        if !self.holds(id) {
            return Ok(Work::Insert(none));
        }
        let mut ids: Vec<String> = Vec::new();
        ids.push(id.to_owned());
        let ghost names = ids.deep_view();
        proof {
            assert(names =~= seq![id@]);
            assert(names.drop_last() =~= Seq::empty());
            assert(stored_without(model.docs, names) == stored_without(
                model.docs,
                names.drop_last(),
            ).remove(names.last()));
        }
        let committed = self.store.delete_ids(&ids)?;
        assert(self.deep_view() =~= model.committed(model.docs.remove(id@)));
        assert(self.deep_view().is_valid());
        if report.update.is_ok() {
            self.text.delete_doc(id);
            proof {
                if model.graph is Some {
                    assert(graph_without(model.graph->0, names) == graph_without(
                        model.graph->0,
                        names.drop_last(),
                    ).removed(names.last()));
                }
            }
            self.forget_vectors(&ids);
        }
        self.finish_update(Work::Insert(none), report)
    }

    /// Lets the graph forget some documents.
    fn forget_vectors(&mut self, ids: &Vec<String>)
        requires
            old(self).deep_view().is_valid(),
        ensures
            final(self).deep_view().is_valid(),
            final(self).deep_view() == (SemanticModel {
                graph: match old(self).deep_view().graph {
                    Some(graph) => Some(graph_without(graph, ids.deep_view())),
                    None => None,
                },
                ..old(self).deep_view()
            }),
    {
        let ghost all = ids.deep_view();
        let mut vector: Option<VectorIndex> = None;
        std::mem::swap(&mut vector, &mut self.vector);
        if let Some(index) = vector {
            let mut index = index;
            let ghost start = index.deep_view();
            let mut i: usize = 0;
            assert(all.take(0) =~= Seq::empty());
            while i < ids.len()
                invariant
                    i <= ids.len(),
                    all == ids.deep_view(),
                    index.deep_view() == graph_without(start, all.take(i as int)),
                    index.deep_view().is_valid(),
                    index.deep_view().dimension == start.dimension,
                decreases ids.len() - i,
            {
                assert(all.take(i + 1).drop_last() =~= all.take(i as int));
                assert(all.take(i + 1).last() == ids@[i as int]@);
                let gone: bool = index.delete(ids[i].as_str());
                i += 1;
            }
            assert(all.take(i as int) =~= all);
            self.vector = Some(index);
        } else {
            self.vector = None;
        }
    }

    /// The documents that carry the given scalar filter, in ascending order.
    pub fn ids_by_filter(&self, filter: &ScalarFilter) -> (r: Vec<String>)
        ensures
            r.deep_view() == carriers(
                rows_of::<String, Seq<Seq<char>>>(self.deep_view().tokens),
                seq![token_of(filter.deep_view())],
            ),
    {
        self.text.ids_by_filter(filter)
    }

    /// Delete every document carrying the given scalar filter.
    pub fn delete_by_filter(&mut self, filter: &ScalarFilter, report: &EngineReport) -> (r: Result<
        Work,
        IndexError,
    >)
        requires
            old(self).deep_view().is_valid(),
        ensures
            final(self).deep_view().is_valid(),
            (Settled { model: final(self).deep_view(), result: result_view(r) }) == filtered_out(
                old(self).deep_view(),
                filter.deep_view(),
                *report,
            ),
    {
        let ghost model = self.deep_view();
        let ids = self.text.ids_by_filter(filter);
        let none: Vec<Placed> = Vec::new();
        assert(none.deep_view() =~= Seq::empty());
        if ids.len() == 0 {
            assert(ids.deep_view().len() == 0);
            return Ok(Work::Insert(none));
        }
        assert(ids.deep_view().len() == ids@.len());
        let committed = self.store.delete_ids(&ids)?;
        proof {
            lemma_stored_without(model.docs, ids.deep_view());
            assert(self.deep_view() =~= model.committed(
                stored_without(model.docs, ids.deep_view()),
            ));
        }
        assert(self.deep_view().is_valid());
        if report.update.is_ok() {
            self.forget_vectors(&ids);
            self.text.delete_by_filter(filter);
        }
        self.finish_update(Work::Insert(none), report)
    }

    /// Remove every document.
    pub fn clear(&mut self, report: &EngineReport) -> (r: Result<Work, IndexError>)
        requires
            old(self).deep_view().is_valid(),
        ensures
            final(self).deep_view().is_valid(),
            (Settled { model: final(self).deep_view(), result: result_view(r) }) == cleared(
                old(self).deep_view(),
                *report,
            ),
    {
        let ghost model = self.deep_view();
        let committed = self.store.clear()?;
        assert(self.deep_view() =~= model.committed(Map::empty()));
        assert(self.deep_view().is_valid());
        let none: Vec<Placed> = Vec::new();
        assert(none.deep_view() =~= Seq::empty());
        if report.update.is_ok() {
            self.text.clear();
            let mut vector: Option<VectorIndex> = None;
            std::mem::swap(&mut vector, &mut self.vector);
            if let Some(index) = vector {
                let mut index = index;
                index.clear();
                self.vector = Some(index);
            } else {
                self.vector = None;
            }
        }
        self.finish_update(Work::Rebuild(none), report)
    }

    /// Builds the derived indexes anew, without tombstones.
    pub fn compact(&mut self) -> (r: Vec<Placed>)
        requires
            old(self).deep_view().is_valid(),
        ensures
            final(self).deep_view() == old(self).deep_view().rebuilt(),
            final(self).deep_view().is_valid(),
            r.deep_view() == old(self).deep_view().fresh_work(),
    {
        self.rebuild_state()
    }

    /// What to ask the graph for.
    pub(crate) fn plan_nearest(&self, vector: &Vec<u32>, k: usize) -> (r: Option<(usize, usize)>)
        requires
            self.deep_view().is_valid(),
            k > 0,
        ensures
            match self.deep_view().graph {
                Some(graph) => if vector_error(vector@, graph.dimension) is None {
                    r is Some && ((r->0).0 as int, (r->0).1 as int) == search_width(
                        k,
                        graph.deleted.len(),
                    )
                } else {
                    r is None
                },
                None => r is None,
            },
    {
        match &self.vector {
            Some(index) => match index.plan_search(vector, k) {
                Ok(width) => Some(width),
                Err(_) => None,
            },
            None => None,
        }
    }

    /// The vectors of the documents that carry all filters.
    pub(crate) fn candidates(&self, filters: &Vec<ScalarFilter>) -> (r: Vec<(String, Vec<u32>)>)
        ensures
            r.deep_view() == vectors_among(
                self.deep_view(),
                carriers(
                    rows_of::<String, Seq<Seq<char>>>(self.deep_view().tokens),
                    tokens_of(filters.deep_view()),
                ),
            ),
    {
        let ghost model = self.deep_view();
        let ids = self.text.ids_by_filters(filters);
        let ghost all = ids.deep_view();
        let mut out: Vec<(String, Vec<u32>)> = Vec::new();
        let mut i: usize = 0;
        assert(all.take(0) =~= Seq::empty());
        assert(out.deep_view() =~= Seq::empty());
        while i < ids.len()
            invariant
                i <= ids.len(),
                all == ids.deep_view(),
                model == self.deep_view(),
                out.deep_view() == vectors_among(model, all.take(i as int)),
            decreases ids.len() - i,
        {
            let ghost was = out.deep_view();
            assert(all.take(i + 1).drop_last() =~= all.take(i as int));
            assert(all.take(i + 1).last() == ids@[i as int]@);
            if let Some(doc) = self.store.load(ids[i].as_str()) {
                if let Some(vector) = &doc.vector {
                    let copy = replica_list(vector);
                    let ghost seen = copy.deep_view();
                    out.push((ids[i].clone(), copy));
                    assert(out.deep_view() =~= was.push((all[i as int], seen)));
                }
            }
            i += 1;
        }
        assert(all.take(i as int) =~= all);
        out
    }

    /// The ranking that the graph's neighbours make.
    pub fn collect_neighbors(&self, neighbors: &Vec<(usize, u32)>, k: usize) -> (r: Option<
        Vec<(String, usize, u32)>,
    >)
        requires
            k > 0,
        ensures
            match (r, self.deep_view().graph) {
                (Some(ranking), Some(graph)) => ranking.deep_view() == ranked(
                    first_of(graph.live_among(neighbors@, neighbors@.len()), k),
                ),
                (None, None) => true,
                _ => false,
            },
    {
        match &self.vector {
            Some(index) => Some(index.collect(neighbors, k)),
            None => None,
        }
    }

    /// The dimension of vectors, where there are any.
    pub fn vector_dimension(&self) -> (r: Option<usize>)
        ensures
            r == (match self.deep_view().config {
                Some(config) => Some(config.dimension),
                None => None,
            }),
    {
        match &self.vector_config {
            Some(config) => Some(config.dimension),
            None => None,
        }
    }

    /// The number of live vectors and of tombstones, where there are vectors.
    pub fn vector_stats(&self) -> (r: Option<(usize, usize)>)
        ensures
            match (r, self.deep_view().graph) {
                (Some((live, dead)), Some(graph)) => live == graph.latest.len() && dead
                    == graph.deleted.len(),
                (None, None) => true,
                _ => false,
            },
    {
        match &self.vector {
            Some(vector) => Some(vector.stats()),
            None => None,
        }
    }
}

proof fn lemma_names(rows: Seq<(Seq<char>, DocModel)>, id: Seq<char>)
    ensures
        names_of(vectors_of(rows)).contains(id) <==> exists|i: int|
            0 <= i < rows.len() && (#[trigger] rows[i]).0 == id && rows[i].1.vector is Some,
    decreases rows.len(),
{
    if rows.len() > 0 {
        let rest = rows.drop_last();
        let before = names_of(vectors_of(rest));
        let all = names_of(vectors_of(rows));
        lemma_names(rest, id);
        assert(all =~= if rows.last().1.vector is Some {
            before.push(rows.last().0)
        } else {
            before
        });
        if all.contains(id) {
            let k = choose|k: int| 0 <= k < all.len() && all[k] == id;
            if k < before.len() {
                assert(before[k] == id);
                assert(before.contains(id));
                let i = choose|i: int|
                    0 <= i < rest.len() && (#[trigger] rest[i]).0 == id && rest[i].1.vector is Some;
                assert(rows[i] == rest[i]);
            } else {
                assert(rows[rows.len() - 1].0 == id);
            }
        }
        if exists|i: int|
            0 <= i < rows.len() && (#[trigger] rows[i]).0 == id && rows[i].1.vector is Some {
            let i = choose|i: int|
                0 <= i < rows.len() && (#[trigger] rows[i]).0 == id && rows[i].1.vector is Some;
            if i < rest.len() {
                assert(rest[i] == rows[i]);
                assert(before.contains(id));
                let k = choose|k: int| 0 <= k < before.len() && before[k] == id;
                assert(all[k] == id);
            } else {
                assert(all[before.len() as int] == id);
            }
        }
    }
}

proof fn lemma_names_distinct(rows: Seq<(Seq<char>, DocModel)>)
    requires
        ascending::<String, DocModel>(rows),
    ensures
        names_of(vectors_of(rows)).no_duplicates(),
    decreases rows.len(),
{
    if rows.len() > 0 {
        let rest = rows.drop_last();
        let before = names_of(vectors_of(rest));
        assert(ascending::<String, DocModel>(rest));
        lemma_names_distinct(rest);
        lemma_names(rest, rows.last().0);
        if before.contains(rows.last().0) {
            let i = choose|i: int|
                0 <= i < rest.len() && (#[trigger] rest[i]).0 == rows.last().0
                    && rest[i].1.vector is Some;
            crate::sorted::lemma_ascending_at::<String, DocModel>(rows, i, rows.len() - 1);
            assert(rows[i] == rest[i]);
            <String as SortKey>::before_irreflexive(rows.last().0);
        }
        assert(names_of(vectors_of(rows)) =~= if rows.last().1.vector is Some {
            before.push(rows.last().0)
        } else {
            before
        });
    }
}

proof fn lemma_rebuilt(dimension: usize, ids: Seq<Seq<char>>)
    requires
        ids.no_duplicates(),
    ensures
        GraphModel::rebuilt(dimension, ids).ids == ids,
        GraphModel::rebuilt(dimension, ids).deleted == Set::<usize>::empty(),
        forall|id: Seq<char>| #[trigger]
            GraphModel::rebuilt(dimension, ids).latest.contains_key(id) <==> ids.contains(id),
    decreases ids.len(),
{
    let graph = GraphModel::rebuilt(dimension, ids);
    if ids.len() > 0 {
        let rest = ids.drop_last();
        let before = GraphModel::rebuilt(dimension, rest);
        assert(rest.no_duplicates());
        lemma_rebuilt(dimension, rest);
        if rest.contains(ids.last()) {
            let i = choose|i: int| 0 <= i < rest.len() && rest[i] == ids.last();
            assert(ids[i] == ids[ids.len() - 1]);
        }
        assert(!before.latest.contains_key(ids.last()));
        assert(graph.ids =~= ids);
        assert forall|id: Seq<char>| #[trigger] graph.latest.contains_key(id) <==> ids.contains(
            id,
        ) by {
            assert(before.latest.contains_key(id) <==> rest.contains(id));
            if ids.contains(id) {
                let i = choose|i: int| 0 <= i < ids.len() && ids[i] == id;
                if i < rest.len() {
                    assert(rest[i] == id);
                }
            }
            if rest.contains(id) {
                let i = choose|i: int| 0 <= i < rest.len() && rest[i] == id;
                assert(ids[i] == id);
            }
            assert(ids[ids.len() - 1] == ids.last());
        }
    } else {
        assert(graph.ids =~= ids);
    }
}

/// A graph built from the documents knows exactly those with a vector, and has no
/// tombstones.
proof fn lemma_fresh_graph(model: SemanticModel)
    requires
        is_listed(model.docs),
        model.config is Some,
    ensures
        model.fresh_graph() is Some,
        model.fresh_graph()->0.deleted == Set::<usize>::empty(),
        forall|id: Seq<char>| #[trigger]
            model.fresh_graph()->0.latest.contains_key(id) <==> model.docs.contains_key(id)
                && model.docs[id].vector is Some,
{
    let rows = rows_of::<String, DocModel>(model.docs);
    let names = names_of(model.vectors());
    let dimension = (model.config->0).dimension;
    lemma_names_distinct(rows);
    lemma_rebuilt(dimension, names);
    assert forall|id: Seq<char>| #[trigger]
        model.fresh_graph()->0.latest.contains_key(id) <==> model.docs.contains_key(id)
            && model.docs[id].vector is Some by {
        lemma_names(rows, id);
        lemma_map_of_domain(rows, id);
        assert(names.contains(id) <==> GraphModel::rebuilt(
            dimension,
            names,
        ).latest.contains_key(id));
        if names.contains(id) {
            let i = choose|i: int|
                0 <= i < rows.len() && (#[trigger] rows[i]).0 == id && rows[i].1.vector is Some;
            lemma_map_of_value::<String, DocModel>(rows, i);
        }
        if model.docs.contains_key(id) && model.docs[id].vector is Some {
            let i = choose|i: int| 0 <= i < rows.len() && (#[trigger] rows[i]).0 == id;
            lemma_map_of_value::<String, DocModel>(rows, i);
        }
    }
}

/// Derived indexes that are built anew hold exactly the documents, at their
/// generation and without tombstones: a gap between a commit and the derived indexes
/// is closed by building them anew.
pub proof fn law_rebuilding_syncs(model: SemanticModel)
    requires
        model.is_valid(),
    ensures
        model.rebuilt().is_synced(),
        model.rebuilt().derived == model.generation,
        model.rebuilt().docs == model.docs,
        model.rebuilt().graph is Some ==> model.rebuilt().graph->0.deleted
            == Set::<usize>::empty(),
{
    if model.config is Some {
        lemma_fresh_graph(model);
    }
}

/// Compaction drops tombstones and nothing else: of an index that holds exactly its
/// documents it keeps the same filter tokens and the same live vectors.
pub proof fn law_compaction_keeps_documents(model: SemanticModel)
    requires
        model.is_valid(),
        model.is_synced(),
    ensures
        model.rebuilt().tokens == model.tokens,
        model.graph is Some ==> model.rebuilt().graph is Some && model.rebuilt().graph->0.latest.dom()
            == model.graph->0.latest.dom(),
{
    if model.config is Some {
        lemma_fresh_graph(model);
        let before = model.graph->0.latest;
        let after = model.rebuilt().graph->0.latest;
        assert forall|id: Seq<char>| before.dom().contains(id) <==> after.dom().contains(id) by {
            assert(before.contains_key(id) <==> model.docs.contains_key(id)
                && model.docs[id].vector is Some);
            assert(after.contains_key(id) <==> model.docs.contains_key(id)
                && model.docs[id].vector is Some);
        }
        assert(after.dom() =~= before.dom());
    }
}

proof fn lemma_batch_synced(docs: DocsModel, batch: Seq<DocModel>)
    ensures
        with_docs(all_tokens(docs), batch) == all_tokens(stored_with(docs, batch)),
    decreases batch.len(),
{
    if batch.len() > 0 {
        lemma_batch_synced(docs, batch.drop_last());
        assert(with_docs(all_tokens(docs), batch) =~= all_tokens(stored_with(docs, batch)));
    }
}

/// Storing a batch leaves the documents listed.
proof fn lemma_batch_listed(docs: DocsModel, batch: Seq<DocModel>)
    requires
        is_listed(docs),
    ensures
        is_listed(stored_with(docs, batch)),
    decreases batch.len(),
{
    if batch.len() > 0 {
        let before = stored_with(docs, batch.drop_last());
        lemma_batch_listed(docs, batch.drop_last());
        lemma_map_of_finite(rows_of::<String, DocModel>(before));
        lemma_finite_rows::<String, DocModel>(stored_with(docs, batch));
    }
}

proof fn lemma_batch_graph(docs: DocsModel, graph: GraphModel, batch: Seq<DocModel>, id: Seq<char>)
    requires
        graph.latest.contains_key(id) <==> docs.contains_key(id) && docs[id].vector is Some,
    ensures
        graph_with(graph, batch).latest.contains_key(id) <==> stored_with(
            docs,
            batch,
        ).contains_key(id) && stored_with(docs, batch)[id].vector is Some,
    decreases batch.len(),
{
    if batch.len() > 0 {
        lemma_batch_graph(docs, graph, batch.drop_last(), id);
    }
}

/// The derived indexes stay in step: where they hold exactly the documents and the
/// engine takes a batch over, they hold exactly the documents afterwards.
pub proof fn law_upserts_stay_in_step(
    model: SemanticModel,
    batch: Seq<DocModel>,
    report: EngineReport,
)
    requires
        model.is_valid(),
        model.is_synced(),
        report.took_over(),
    ensures
        upserted(model, batch, report).model.is_synced(),
{
    let committed = model.committed(stored_with(model.docs, batch));
    lemma_batch_synced(model.docs, batch);
    lemma_batch_listed(model.docs, batch);
    if model.graph is Some {
        assert forall|id: Seq<char>| #[trigger]
            graph_with(model.graph->0, batch).latest.contains_key(id) <==> committed.docs.contains_key(
                id,
            ) && committed.docs[id].vector is Some by {
            assert(model.graph->0.latest.contains_key(id) <==> model.docs.contains_key(id)
                && model.docs[id].vector is Some);
            lemma_batch_graph(model.docs, model.graph->0, batch, id);
        }
        lemma_fresh_graph(committed);
    }
}

/// A deleted document is gone from the documents and from the derived indexes, and
/// these stay in step.
pub proof fn law_deletions_stay_in_step(
    model: SemanticModel,
    id: Seq<char>,
    report: EngineReport,
)
    requires
        model.is_valid(),
        model.is_synced(),
        model.generation < u64::MAX,
        report.took_over(),
    ensures
        deleted(model, id, report).model.is_synced(),
        !deleted(model, id, report).model.docs.contains_key(id),
        !deleted(model, id, report).model.tokens.contains_key(id),
        model.graph is Some ==> deleted(model, id, report).model.graph is Some && !deleted(
            model,
            id,
            report,
        ).model.graph->0.latest.contains_key(id),
{
    let committed = model.committed(model.docs.remove(id));
    lemma_map_of_finite(rows_of::<String, DocModel>(model.docs));
    lemma_finite_rows::<String, DocModel>(committed.docs);
    assert(model.tokens.remove(id) =~= all_tokens(committed.docs));
    if model.graph is Some {
        let graph = model.graph->0;
        assert forall|other: Seq<char>| #[trigger]
            graph.removed(id).latest.contains_key(other) <==> committed.docs.contains_key(other)
                && committed.docs[other].vector is Some by {
            assert(graph.latest.contains_key(other) <==> model.docs.contains_key(other)
                && model.docs[other].vector is Some);
        }
        lemma_fresh_graph(committed);
        assert(committed.fresh_graph()->0.latest.contains_key(id) <==> committed.docs.contains_key(
            id,
        ) && committed.docs[id].vector is Some);
        assert(graph.removed(id).latest.contains_key(id) <==> committed.docs.contains_key(id)
            && committed.docs[id].vector is Some);
    }
}

/// Nothing is left once everything was removed.
pub proof fn law_clearing_leaves_nothing(model: SemanticModel, report: EngineReport)
    requires
        model.is_valid(),
        model.generation < u64::MAX,
        report.took_over(),
    ensures
        cleared(model, report).model.docs == DocsModel::empty(),
        cleared(model, report).model.tokens == TokensModel::empty(),
        cleared(model, report).model.is_synced(),
{
    let committed = model.committed(Map::empty());
    assert(all_tokens(committed.docs) =~= Map::empty());
    if model.graph is Some {
        let blank = GraphModel::blank((model.graph->0).dimension);
        assert(blank.deleted.len() == 0);
        assert(!blank.wants_compaction());
    }
}

/// A batch with an unacceptable vector is refused as a whole: nothing changes.
pub proof fn law_refused_batches_change_nothing(
    model: SemanticModel,
    batch: Seq<DocModel>,
    report: EngineReport,
)
    requires
        docs_error(batch, model.config, batch.len()) is Some,
    ensures
        upserted(model, batch, report).model == model,
        upserted(model, batch, report).result is Err,
{
}

proof fn lemma_graph_without(graph: GraphModel, ids: Seq<Seq<char>>, id: Seq<char>)
    ensures
        graph_without(graph, ids).latest.contains_key(id) <==> graph.latest.contains_key(id)
            && !ids.contains(id),
    decreases ids.len(),
{
    if ids.len() > 0 {
        let rest = ids.drop_last();
        lemma_graph_without(graph, rest, id);
        if ids.contains(id) {
            let i = choose|i: int| 0 <= i < ids.len() && ids[i] == id;
            if i < rest.len() {
                assert(rest[i] == id);
            }
        }
        if rest.contains(id) {
            let i = choose|i: int| 0 <= i < rest.len() && rest[i] == id;
            assert(ids[i] == id);
        }
        assert(ids[ids.len() - 1] == ids.last());
    }
}

/// Deleting by a filter removes exactly the documents that carry it, from the
/// documents and from the derived indexes, and these stay in step.
pub proof fn law_filtered_deletions_stay_in_step(
    model: SemanticModel,
    filter: FilterModel,
    report: EngineReport,
    id: Seq<char>,
)
    requires
        model.is_valid(),
        model.is_synced(),
        model.generation < u64::MAX,
        report.took_over(),
    ensures
        filtered_out(model, filter, report).model.is_synced(),
        filtered_out(model, filter, report).model.docs.contains_key(id) <==> model.docs.contains_key(
            id,
        ) && !tokens_of(model.docs[id].filters).contains(token_of(filter)),
{
    let token = token_of(filter);
    let rows = rows_of::<String, Seq<Seq<char>>>(model.tokens);
    let ids = carriers(rows, seq![token]);
    lemma_map_of_finite(rows_of::<String, DocModel>(model.docs));
    assert(model.tokens.dom() =~= model.docs.dom());
    lemma_finite_rows::<String, Seq<Seq<char>>>(model.tokens);
    assert forall|other: Seq<char>| #[trigger]
        ids.contains(other) <==> model.docs.contains_key(other) && tokens_of(
            model.docs[other].filters,
        ).contains(token) by {
        crate::index::text::law_filters_are_exact(rows, seq![token], other);
        lemma_map_of_domain(rows, other);
        if ids.contains(other) {
            let i = choose|i: int|
                0 <= i < rows.len() && (#[trigger] rows[i]).0 == other
                    && crate::index::text::carries(rows[i].1, seq![token]);
            lemma_map_of_value::<String, Seq<Seq<char>>>(rows, i);
            assert(rows[i].1.contains(seq![token][0]));
        }
        if model.docs.contains_key(other) && tokens_of(model.docs[other].filters).contains(token) {
            assert(model.tokens.contains_key(other));
            let i = choose|i: int| 0 <= i < rows.len() && (#[trigger] rows[i]).0 == other;
            lemma_map_of_value::<String, Seq<Seq<char>>>(rows, i);
            assert(crate::index::text::carries(rows[i].1, seq![token]));
        }
    }
    lemma_stored_without(model.docs, ids);
    if ids.len() == 0 {
        if model.docs.contains_key(id) && tokens_of(model.docs[id].filters).contains(token) {
            assert(ids.contains(id));
        }
    } else {
        let committed = model.committed(stored_without(model.docs, ids));
        assert(committed.docs.dom().subset_of(model.docs.dom()));
        vstd::set_lib::lemma_len_subset(committed.docs.dom(), model.docs.dom());
        lemma_finite_rows::<String, DocModel>(committed.docs);
        assert(without_token(model.tokens, token) =~= all_tokens(committed.docs)) by {
            assert forall|other: Seq<char>| #[trigger]
                without_token(model.tokens, token).contains_key(other) <==> all_tokens(
                    committed.docs,
                ).contains_key(other) by {
                assert(committed.docs.contains_key(other) <==> model.docs.contains_key(other)
                    && !ids.contains(other));
            }
            assert forall|other: Seq<char>| #[trigger]
                without_token(model.tokens, token).contains_key(other) implies without_token(
                model.tokens,
                token,
            )[other] == all_tokens(committed.docs)[other] by {
                assert(committed.docs.contains_key(other));
            }
        }
        if model.graph is Some {
            let graph = model.graph->0;
            assert forall|other: Seq<char>| #[trigger]
                graph_without(graph, ids).latest.contains_key(other)
                    <==> committed.docs.contains_key(other) && committed.docs[other].vector is Some by {
                lemma_graph_without(graph, ids, other);
                assert(graph.latest.contains_key(other) <==> model.docs.contains_key(other)
                    && model.docs[other].vector is Some);
                assert(committed.docs.contains_key(other) <==> model.docs.contains_key(other)
                    && !ids.contains(other));
            }
            lemma_fresh_graph(committed);
        }
        assert(committed.docs.contains_key(id) <==> model.docs.contains_key(id) && !ids.contains(id));
    }
}

/// A configuration is accepted exactly if its dimension is between one and 65536 and its
/// space has a name with something other than white space; so is having none.
pub proof fn law_configurations_are_acceptable(config: Option<ConfigModel>)
    ensures
        config_error(config) is None <==> (config matches Some(own) ==> {
            &&& 1 <= own.dimension <= 65536
            &&& exists|i: int|
                0 <= i < own.space_id.len() && !#[trigger] white_space(own.space_id[i])
        }),
{
}

/// A batch is accepted exactly if each of its documents is: one without a vector always, one
/// with a vector where vectors are configured and this one is acceptable.
pub proof fn law_batches_are_acceptable(batch: Seq<DocModel>, config: Option<ConfigModel>)
    ensures
        docs_error(batch, config, batch.len()) is None <==> forall|i: int|
            0 <= i < batch.len() ==> ((#[trigger] batch[i]).vector matches Some(vector) ==> {
                &&& config is Some
                &&& vector_error(vector, config->0.dimension) is None
            }),
{
    lemma_batch_acceptable(batch, config, batch.len());
}

proof fn lemma_batch_acceptable(batch: Seq<DocModel>, config: Option<ConfigModel>, n: nat)
    requires
        n <= batch.len(),
    ensures
        docs_error(batch, config, n) is None <==> forall|i: int|
            0 <= i < n ==> ((#[trigger] batch[i]).vector matches Some(vector) ==> {
                &&& config is Some
                &&& vector_error(vector, config->0.dimension) is None
            }),
    decreases n,
{
    if n > 0 {
        lemma_batch_acceptable(batch, config, (n - 1) as nat);
        if docs_error(batch, config, n) is None {
            assert forall|i: int| 0 <= i < n implies ((#[trigger] batch[i]).vector matches Some(
                vector,
            ) ==> {
                &&& config is Some
                &&& vector_error(vector, config->0.dimension) is None
            }) by {
                if i == n - 1 {
                    assert(doc_error(batch[n - 1], config) is None);
                }
            }
        }
        if forall|i: int|
            0 <= i < n ==> ((#[trigger] batch[i]).vector matches Some(vector) ==> {
                &&& config is Some
                &&& vector_error(vector, config->0.dimension) is None
            }) {
            assert(batch[n - 1].vector matches Some(vector) ==> config is Some);
        }
    }
}

proof fn lemma_last_stored(docs: DocsModel, batch: Seq<DocModel>, id: Seq<char>)
    ensures
        (forall|i: int| 0 <= i < batch.len() ==> (#[trigger] batch[i]).id != id) ==> {
            &&& stored_with(docs, batch).contains_key(id) == docs.contains_key(id)
            &&& docs.contains_key(id) ==> stored_with(docs, batch)[id] == docs[id]
        },
        forall|i: int|
            0 <= i < batch.len() && (#[trigger] batch[i]).id == id && (forall|j: int|
                i < j < batch.len() ==> (#[trigger] batch[j]).id != id) ==> stored_with(
                docs,
                batch,
            ).contains_key(id) && stored_with(docs, batch)[id] == batch[i],
    decreases batch.len(),
{
    if batch.len() > 0 {
        let rest = batch.drop_last();
        let n = batch.len() - 1;
        lemma_last_stored(docs, rest, id);
        assert(batch[n] == batch.last());
        if batch.last().id != id {
            if forall|i: int| 0 <= i < batch.len() ==> (#[trigger] batch[i]).id != id {
                assert forall|i: int| 0 <= i < rest.len() implies (#[trigger] rest[i]).id != id by {
                    assert(rest[i] == batch[i]);
                }
            }
            assert forall|i: int|
                0 <= i < batch.len() && (#[trigger] batch[i]).id == id && (forall|j: int|
                    i < j < batch.len() ==> (#[trigger] batch[j]).id != id) implies stored_with(
                docs,
                batch,
            ).contains_key(id) && stored_with(docs, batch)[id] == batch[i] by {
                assert(rest[i] == batch[i]);
                assert forall|j: int| i < j < rest.len() implies (#[trigger] rest[j]).id != id by {
                    assert(rest[j] == batch[j]);
                }
            }
        } else {
            assert forall|i: int|
                0 <= i < batch.len() && (#[trigger] batch[i]).id == id && (forall|j: int|
                    i < j < batch.len() ==> (#[trigger] batch[j]).id != id) implies i == n by {
                if i < n {
                    assert(batch[n].id != id);
                }
            }
        }
    }
}

/// An accepted batch is committed whatever becomes of the derived indexes: a document is what
/// the last one of that id in the batch is, the others stay as they were, and the generation
/// rises by one.
pub proof fn law_batches_are_stored(
    model: SemanticModel,
    batch: Seq<DocModel>,
    report: EngineReport,
    id: Seq<char>,
)
    requires
        docs_error(batch, model.config, batch.len()) is None,
        batch.len() > 0,
        model.generation < u64::MAX,
    ensures
        ({
            let after = upserted(model, batch, report).model;
            &&& after.generation == model.generation + 1
            &&& after.config == model.config
            &&& (forall|i: int| 0 <= i < batch.len() ==> (#[trigger] batch[i]).id != id) ==> {
                &&& after.docs.contains_key(id) == model.docs.contains_key(id)
                &&& model.docs.contains_key(id) ==> after.docs[id] == model.docs[id]
            }
            &&& forall|i: int|
                0 <= i < batch.len() && (#[trigger] batch[i]).id == id && (forall|j: int|
                    i < j < batch.len() ==> (#[trigger] batch[j]).id != id)
                    ==> after.docs.contains_key(id) && after.docs[id] == batch[i]
        }),
{
    lemma_last_stored(model.docs, batch, id);
}

/// Deleting a document is committed whatever becomes of the derived indexes; it leaves every
/// other document as it was, and a missing one leaves everything as it was.
pub proof fn law_deletions_are_exact(
    model: SemanticModel,
    id: Seq<char>,
    report: EngineReport,
    other: Seq<char>,
)
    requires
        model.generation < u64::MAX,
    ensures
        ({
            let after = deleted(model, id, report).model;
            &&& !after.docs.contains_key(id)
            &&& other != id ==> after.docs.contains_key(other) == model.docs.contains_key(other)
            &&& other != id && model.docs.contains_key(other) ==> after.docs[other]
                == model.docs[other]
            &&& model.docs.contains_key(id) ==> after.generation == model.generation + 1
            &&& !model.docs.contains_key(id) ==> after == model
        }),
{
}

/// A committed change fails only if the engine neither took it over nor could be built anew,
/// and then says which generation the derived indexes lag behind. Otherwise they are at the
/// generation of the documents.
pub proof fn law_failures_are_told_after_the_commit(
    committed: SemanticModel,
    tokens: TokensModel,
    graph: Option<GraphModel>,
    work: WorkModel,
    report: EngineReport,
)
    ensures
        ({
            let settled = settle(committed, tokens, graph, work, report);
            &&& settled.model.docs == committed.docs
            &&& settled.model.generation == committed.generation
            &&& settled.result is Err <==> report.update is Err && report.rebuild is Err
            &&& settled.result is Ok ==> settled.model.derived == committed.generation
            &&& settled.result is Err ==> settled.model == committed
            &&& settled.result matches Err(error) ==> error
                is IndexUnavailableAfterCommit && error->generation == committed.generation
            &&& report.update is Err && report.rebuild is Ok ==> settled.model.tokens
                == all_tokens(committed.docs)
        }),
{
}

/// Filters find exactly the documents whose own filters include all of them.
pub proof fn law_filters_find_documents(
    model: SemanticModel,
    wanted: Seq<FilterModel>,
    id: Seq<char>,
)
    requires
        model.is_valid(),
        model.is_synced(),
        forall|i: int| 0 <= i < wanted.len() ==> !(#[trigger] wanted[i]).field.contains('\u{1f}'),
        forall|name: Seq<char>, i: int|
            #![trigger model.docs[name].filters[i]]
            model.docs.contains_key(name) && 0 <= i < model.docs[name].filters.len()
                ==> !model.docs[name].filters[i].field.contains('\u{1f}'),
    ensures
        carriers(
            rows_of::<String, Seq<Seq<char>>>(model.tokens),
            tokens_of(wanted),
        ).contains(id) <==> model.docs.contains_key(id) && forall|i: int|
            0 <= i < wanted.len() ==> model.docs[id].filters.contains(#[trigger] wanted[i]),
{
    let rows = rows_of::<String, Seq<Seq<char>>>(model.tokens);
    let tokens = tokens_of(wanted);
    lemma_map_of_finite(rows_of::<String, DocModel>(model.docs));
    assert(model.tokens.dom() =~= model.docs.dom());
    lemma_finite_rows::<String, Seq<Seq<char>>>(model.tokens);
    law_filters_are_exact(rows, tokens, id);
    lemma_map_of_domain(rows, id);
    if model.docs.contains_key(id) {
        let own = model.docs[id].filters;
        assert(model.tokens[id] == tokens_of(own));
        assert forall|i: int| 0 <= i < own.len() implies !(#[trigger] own[i]).field.contains(
            '\u{1f}',
        ) by {
            assert(model.docs[id].filters[i] == own[i]);
        }
        law_filters_are_carried(own, wanted);
        let r = choose|r: int| 0 <= r < rows.len() && (#[trigger] rows[r]).0 == id;
        lemma_map_of_value::<String, Seq<Seq<char>>>(rows, r);
        assert(rows[r].1 == tokens_of(own));
        assert forall|q: int| 0 <= q < rows.len() && (#[trigger] rows[q]).0 == id implies rows[q].1
            == tokens_of(own) by {
            lemma_map_of_value::<String, Seq<Seq<char>>>(rows, q);
        }
    }
}

/// The vectors of a batch go to the graph under the numbers that it knows them by: each
/// number is new and stands for a document of the batch with that vector.
pub proof fn law_placed_vectors_have_their_numbers(
    graph: GraphModel,
    batch: Seq<DocModel>,
    k: int,
)
    requires
        0 <= k < placed_with(graph, batch).len(),
        graph.ids.len() + batch.len() <= usize::MAX,
    ensures
        ({
            let (number, vector) = placed_with(graph, batch)[k];
            let after = graph_with(graph, batch);
            &&& graph.ids.len() <= number < after.ids.len()
            &&& exists|i: int|
                0 <= i < batch.len() && (#[trigger] batch[i]).id == after.ids[number as int]
                    && batch[i].vector == Some(vector)
        }),
    decreases batch.len(),
{
    lemma_graph_grows(graph, batch);
    let rest = batch.drop_last();
    let before = placed_with(graph, rest);
    let after = graph_with(graph, batch);
    let earlier = graph_with(graph, rest);
    lemma_graph_grows(graph, rest);
    assert(batch[batch.len() - 1] == batch.last());
    if k < before.len() {
        law_placed_vectors_have_their_numbers(graph, rest, k);
        let (number, vector) = before[k];
        let i = choose|i: int|
            0 <= i < rest.len() && (#[trigger] rest[i]).id == earlier.ids[number as int]
                && rest[i].vector == Some(vector);
        assert(batch[i] == rest[i]);
        assert(after.ids[number as int] == earlier.ids[number as int]);
    } else {
        assert(after.ids == earlier.ids.push(batch.last().id));
    }
}

proof fn lemma_graph_grows(graph: GraphModel, batch: Seq<DocModel>)
    ensures
        graph.ids.is_prefix_of(graph_with(graph, batch).ids),
        graph_with(graph, batch).ids.len() <= graph.ids.len() + batch.len(),
    decreases batch.len(),
{
    if batch.len() > 0 {
        lemma_graph_grows(graph, batch.drop_last());
    }
}

/// Documents in order come in ascending order of their ids.
pub proof fn law_documents_come_in_order(model: SemanticModel, i: int, j: int)
    requires
        model.is_valid(),
        0 <= i < j < docs_in_order(model.docs).len(),
    ensures
        text_lt(docs_in_order(model.docs)[i].id, docs_in_order(model.docs)[j].id),
{
    let rows = rows_of::<String, DocModel>(model.docs);
    lemma_map_of_value::<String, DocModel>(rows, i);
    lemma_map_of_value::<String, DocModel>(rows, j);
    assert(<String as SortKey>::before(rows[i].0, rows[j].0));
}

/// A base records the format that it is in, that similarity is by cosine, and the vector
/// configuration.
pub proof fn law_records_name_the_configuration(config: Option<ConfigModel>)
    ensures
        requested_meta(config).schema_version == 2,
        requested_meta(config).metric == "cosine"@,
        requested_meta(config).vector == config,
{
}

} // verus!
