//! The hybrid index with a real full-text engine and a real neighbour graph around it.

use hivedb::clock::MockClock;
use hivedb::context::{
    best_text_score, episode_query, relevant_episodes, AgentContextRequest, ContextStrategy,
    EpisodicConfig,
};
use hivedb::db::{resolve_vector_dimension, HiveDB, OpenOptions, VectorOptions};
use hivedb::index::error::IndexError;
use hivedb::index::hnsw::{validate_vector, Placed, VectorIndex, COMPACT_AT, MAX_VECTOR_DIMENSION};
use hivedb::index::query::{fusion_terms, merge_rankings, rank_by_similarity, VectorPlan};
use hivedb::index::rrf::{rrf, rrf_terms, totally_below};
use hivedb::index::semantic::{
    resolve_database_meta, validate_config, DatabaseMeta, EngineReport, SemanticIndex, Work,
};
use hivedb::index::text::{bag_of_words, filter_token, word_clauses, Clause, TextField, TextIndex};
use hivedb::index::types::{
    FieldBoosts, Fusion, Hit, HybridQuery, IndexDoc, ScalarFilter, VectorConfig,
};
use hnsw_rs::prelude::{DistCosine, Hnsw};
use std::collections::BTreeMap;
use tantivy::collector::TopDocs;
use tantivy::query::{BooleanQuery, BoostQuery, Occur, Query, QueryParser, TermQuery};
use tantivy::schema::{
    Field, IndexRecordOption, Schema, TextFieldIndexing, TextOptions, Value, STORED, STRING,
};
use tantivy::tokenizer::{
    AsciiFoldingFilter, Language, LowerCaser, SimpleTokenizer, Stemmer, TextAnalyzer,
};
use tantivy::{Index, IndexWriter, TantivyDocument, Term};

type Ranking = Vec<(String, usize, u32)>;

fn bits(vector: &[f32]) -> Vec<u32> {
    vector.iter().map(|value| value.to_bits()).collect()
}

fn floats(vector: &[u32]) -> Vec<f32> {
    vector.iter().map(|value| f32::from_bits(*value)).collect()
}

fn cosine_similarity(left: &[f32], right: &[f32]) -> f32 {
    let (mut dot, mut left_norm, mut right_norm) = (0.0f64, 0.0f64, 0.0f64);
    for (&left, &right) in left.iter().zip(right) {
        dot += f64::from(left) * f64::from(right);
        left_norm += f64::from(left) * f64::from(left);
        right_norm += f64::from(right) * f64::from(right);
    }
    (dot / (left_norm * right_norm).sqrt()).clamp(-1.0, 1.0) as f32
}

/// A full-text engine in memory.
struct TextEngine {
    index: Index,
    writer: IndexWriter,
    id: Field,
    name: Field,
    body: Field,
    tags: Field,
    filters: Field,
}

impl TextEngine {
    fn new() -> Self {
        let text = TextOptions::default().set_indexing_options(
            TextFieldIndexing::default()
                .set_tokenizer("es_folded")
                .set_index_option(IndexRecordOption::WithFreqsAndPositions),
        );
        let mut schema = Schema::builder();
        let id = schema.add_text_field("id", STRING | STORED);
        let name = schema.add_text_field("name", text.clone());
        let body = schema.add_text_field("body", text.clone());
        let tags = schema.add_text_field("tags", text);
        let filters = schema.add_text_field("filters", STRING | STORED);
        let index = Index::create_in_ram(schema.build());
        index.tokenizers().register(
            "es_folded",
            TextAnalyzer::builder(SimpleTokenizer::default())
                .filter(LowerCaser)
                .filter(AsciiFoldingFilter)
                .filter(Stemmer::new(Language::Spanish))
                .build(),
        );
        let writer = index.writer_with_num_threads(1, 15_000_000).unwrap();
        TextEngine { index, writer, id, name, body, tags, filters }
    }

    fn upsert(&mut self, doc: &IndexDoc) {
        self.writer.delete_term(Term::from_field_text(self.id, &doc.id));
        let mut document = TantivyDocument::default();
        document.add_text(self.id, &doc.id);
        if let Some(name) = &doc.name {
            document.add_text(self.name, name);
        }
        if let Some(body) = &doc.body {
            document.add_text(self.body, body);
        }
        if let Some(tags) = &doc.tags {
            document.add_text(self.tags, tags);
        }
        for filter in &doc.filters {
            document.add_text(self.filters, filter_token(filter));
        }
        self.writer.add_document(document).unwrap();
    }

    fn commit(&mut self) {
        self.writer.commit().unwrap();
    }

    fn fill<'a>(&mut self, docs: impl Iterator<Item = &'a IndexDoc>) {
        self.writer.delete_all_documents().unwrap();
        for doc in docs {
            self.upsert(doc);
        }
        self.commit();
    }

    fn query(&self, text: &str, boosts: FieldBoosts) -> Box<dyn Query> {
        let mut parser =
            QueryParser::for_index(&self.index, vec![self.name, self.body, self.tags]);
        parser.set_field_boost(self.name, f32::from_bits(boosts.name));
        parser.set_field_boost(self.body, f32::from_bits(boosts.body));
        parser.set_field_boost(self.tags, f32::from_bits(boosts.tags));
        let (query, errors) = parser.parse_query_lenient(text);
        if errors.is_empty() {
            return query;
        }
        let clauses: Vec<(Occur, Box<dyn Query>)> = bag_of_words(text)
            .iter()
            .map(|clause| {
                let (field, boost) = match clause.field {
                    TextField::Name => (self.name, boosts.name),
                    TextField::Body => (self.body, boosts.body),
                    TextField::Tags => (self.tags, boosts.tags),
                };
                let term = Term::from_field_text(field, &clause.token);
                let query: Box<dyn Query> = Box::new(BoostQuery::new(
                    Box::new(TermQuery::new(term, IndexRecordOption::WithFreqs)),
                    f32::from_bits(boost),
                ));
                (Occur::Should, query)
            })
            .collect();
        Box::new(BooleanQuery::new(clauses))
    }

    fn search(
        &self,
        text: &str,
        tokens: &[String],
        boosts: FieldBoosts,
        k: usize,
    ) -> Ranking {
        let mut clauses: Vec<(Occur, Box<dyn Query>)> =
            vec![(Occur::Must, self.query(text, boosts))];
        for token in tokens {
            let term = Term::from_field_text(self.filters, token);
            clauses.push((
                Occur::Must,
                Box::new(TermQuery::new(term, IndexRecordOption::Basic)),
            ));
        }
        let query: Box<dyn Query> = if clauses.len() == 1 {
            clauses.remove(0).1
        } else {
            Box::new(BooleanQuery::new(clauses))
        };
        let searcher = self.index.reader().unwrap().searcher();
        let found = searcher.search(&*query, &TopDocs::with_limit(k)).unwrap();
        let mut ranked = Vec::new();
        for (rank, (score, address)) in found.iter().enumerate() {
            let doc: TantivyDocument = searcher.doc(*address).unwrap();
            let id = doc.get_first(self.id).unwrap().as_str().unwrap().to_string();
            ranked.push((id, rank + 1, score.to_bits()));
        }
        ranked
    }
}

/// The documents as they would lie on disk, the engines, and the index between them.
struct Hybrid {
    config: Option<VectorConfig>,
    stored: BTreeMap<String, IndexDoc>,
    text: TextEngine,
    graph: Hnsw<'static, f32, DistCosine>,
    index: SemanticIndex,
}

fn new_graph() -> Hnsw<'static, f32, DistCosine> {
    Hnsw::new(16, 100_000, 200, 16, DistCosine {})
}

fn took_over() -> EngineReport {
    EngineReport { update: Ok(()), rebuild: Ok(()) }
}

impl Hybrid {
    fn open_with(
        config: Option<VectorConfig>,
        stored: BTreeMap<String, IndexDoc>,
        generation: u64,
    ) -> Result<Self, IndexError> {
        let docs: Vec<IndexDoc> = stored.values().cloned().collect();
        let (index, placed) = SemanticIndex::open(config.clone(), docs, generation)?;
        let mut text = TextEngine::new();
        text.fill(stored.values());
        let mut hybrid = Hybrid { config, stored, text, graph: new_graph(), index };
        hybrid.place(placed);
        Ok(hybrid)
    }

    fn open(dimension: usize) -> Self {
        let config = VectorConfig::new(dimension, format!("test:{dimension}"));
        Self::open_with(Some(config), BTreeMap::new(), 0).unwrap()
    }

    fn reopened(self) -> Self {
        Self::open_with(self.config, self.stored, self.index.generation()).unwrap()
    }

    fn place(&mut self, placed: Vec<Placed>) {
        for point in placed {
            self.graph.insert((&floats(&point.vector), point.number));
        }
    }

    fn follow(&mut self, work: Work) {
        match work {
            Work::Insert(placed) => self.place(placed),
            Work::Rebuild(placed) => {
                self.graph = new_graph();
                self.place(placed);
            },
        }
    }

    fn upsert(&mut self, doc: &IndexDoc) -> Result<(), IndexError> {
        self.upsert_batch(&vec![doc.clone()])
    }

    fn upsert_batch(&mut self, docs: &Vec<IndexDoc>) -> Result<(), IndexError> {
        let work = self.index.upsert_batch(docs, &took_over())?;
        for doc in docs {
            self.stored.insert(doc.id.clone(), doc.clone());
            self.text.upsert(doc);
        }
        self.text.commit();
        self.follow(work);
        Ok(())
    }

    fn delete(&mut self, id: &str) -> Result<(), IndexError> {
        let work = self.index.delete(id, &took_over())?;
        self.stored.remove(id);
        self.text.fill(self.stored.values());
        self.follow(work);
        Ok(())
    }

    fn delete_by_filter(&mut self, filter: &ScalarFilter) -> Result<(), IndexError> {
        let work = self.index.delete_by_filter(filter, &took_over())?;
        self.stored.retain(|_, doc| !doc.filters.contains(filter));
        self.text.fill(self.stored.values());
        self.follow(work);
        Ok(())
    }

    fn clear(&mut self) -> Result<(), IndexError> {
        let work = self.index.clear(&took_over())?;
        self.stored.clear();
        self.text.fill(self.stored.values());
        self.follow(work);
        Ok(())
    }

    fn compact(&mut self) {
        let placed = self.index.compact();
        self.graph = new_graph();
        self.place(placed);
    }

    fn query_hybrid(&self, query: HybridQuery) -> Result<Vec<Hit>, IndexError> {
        let plan = self.index.plan_query(&query)?;
        let text = query
            .text
            .as_ref()
            .map(|text| self.text.search(text, &plan.filter_tokens, plan.boosts, query.k));
        let vector = match &plan.vector {
            VectorPlan::Absent => None,
            VectorPlan::Nearest { want, ef } => {
                let asked = floats(query.vector.as_ref().unwrap());
                let neighbors: Vec<(usize, u32)> = self
                    .graph
                    .search(&asked, *want, *ef)
                    .iter()
                    .map(|n| (n.d_id, (1.0 - n.distance).clamp(-1.0, 1.0).to_bits()))
                    .collect();
                self.index.collect_neighbors(&neighbors, query.k)
            },
            VectorPlan::Exact(candidates) => {
                let asked = floats(query.vector.as_ref().unwrap());
                let similarities: Vec<u32> = candidates
                    .iter()
                    .map(|(_, vector)| cosine_similarity(&asked, &floats(vector)).to_bits())
                    .collect();
                Some(rank_by_similarity(candidates, &similarities, query.k))
            },
        };
        let Fusion::Rrf { k } = query.fusion;
        let scores: Vec<u32> = match (&text, &vector) {
            (Some(text), Some(vector)) => {
                fusion_terms(text, vector).iter().map(|(_, ranks)| rrf_score(ranks, k)).collect()
            },
            _ => Vec::new(),
        };
        Ok(merge_rankings(text, vector, &scores, query.k))
    }
}

fn rrf_score(ranks: &[usize], k: usize) -> u32 {
    ranks.iter().fold(0.0f32, |sum, rank| sum + 1.0 / (k as f32 + *rank as f32)).to_bits()
}

fn unit(dimension: usize, coordinate: usize) -> Vec<u32> {
    let mut vector = vec![0.0; dimension];
    vector[coordinate] = 1.0;
    bits(&vector)
}

fn embed(text: &str) -> Vec<u32> {
    let mut v = vec![0.0; 384];
    match text {
        "pago fallido" | "pago" | "null pointer pagos" | "NPE en pagos" => {
            v[0] = 1.0;
            v[1] = 1.0;
        },
        "transacción rechazada" | "transacción" => {
            v[0] = 1.0;
            v[2] = 1.0;
        },
        "logística" | "optimización queries SQL" | "queries SQL" => {
            v[10] = 1.0;
        },
        "x" => {
            v[5] = 1.0;
        },
        _ => {
            v[100] = 1.0;
        },
    }
    bits(&v)
}

fn doc(id: &str, body: &str) -> IndexDoc {
    IndexDoc::new(id).with_body(body)
}

fn by_text(text: &str, k: usize) -> HybridQuery {
    HybridQuery::default().with_text(text).with_k(k)
}

fn by_vector(vector: Vec<u32>, k: usize) -> HybridQuery {
    HybridQuery::default().with_vector(vector).with_k(k)
}

fn score(hit: &Hit) -> f32 {
    f32::from_bits(hit.score)
}

#[test]
fn generation_gap_is_rebuilt_before_query() {
    let mut hybrid = Hybrid::open(8);
    let committed = doc("committed", "confirmado antes del fallo").with_vector(unit(8, 2));

    // The documents are committed, and the engine takes nothing over.
    let failed =
        EngineReport { update: Err("stopped".into()), rebuild: Err("stopped".into()) };
    let error = hybrid.index.upsert(&committed, &failed).unwrap_err();
    assert!(matches!(error, IndexError::IndexUnavailableAfterCommit { generation: 1, .. }));
    hybrid.stored.insert(committed.id.clone(), committed);
    assert!(hybrid.index.needs_sync());

    let placed = hybrid.index.rebuild_state();
    hybrid.text.fill(hybrid.stored.values());
    hybrid.follow(Work::Rebuild(placed));
    assert!(!hybrid.index.needs_sync());

    let hits =
        hybrid.query_hybrid(by_text("confirmado", 1).with_vector(unit(8, 2))).unwrap();
    assert_eq!(hits[0].id, "committed");
}

#[test]
fn rrf_fusion_matches_reference() {
    let bm25 = vec![("a".to_string(), 1), ("b".to_string(), 2), ("c".to_string(), 3)];
    let ann = vec![("b".to_string(), 1), ("c".to_string(), 2), ("a".to_string(), 3)];
    let entries: Vec<(String, usize)> = bm25.into_iter().chain(ann).collect();
    let terms = rrf_terms(&entries);
    let scores: Vec<u32> = terms.iter().map(|(_, ranks)| rrf_score(ranks, 60)).collect();
    let fused = rrf(&terms, &scores);
    assert_eq!(fused[0].0, "b");
    assert_eq!(f32::from_bits(fused[0].1), 1.0 / 62.0 + 1.0 / 61.0);
    assert_eq!(fused.len(), 3);
}

#[test]
fn invalid_vectors_are_rejected_before_indexing() {
    let mut index = Hybrid::open(8);
    for (name, vector) in [
        ("zero", vec![0.0; 8]),
        ("nan", vec![f32::NAN; 8]),
        ("infinite", vec![f32::INFINITY; 8]),
    ] {
        let error =
            index.upsert(&IndexDoc::new(name).with_vector(bits(&vector))).unwrap_err();
        assert!(error.to_string().starts_with("INVALID_VECTOR:"));
    }

    let hits = index.query_hybrid(by_text("zero nan infinite", 10)).unwrap();
    assert!(hits.is_empty(), "validation must happen before the redb commit");
    assert_eq!(index.index.generation(), 0);
}

#[test]
fn invalid_queries_and_text_only_mode_fail_explicitly() {
    let vector_index = Hybrid::open(8);
    assert!(vector_index
        .query_hybrid(by_vector(bits(&[0.0; 8]), 1))
        .unwrap_err()
        .to_string()
        .starts_with("INVALID_VECTOR:"));
    assert!(vector_index
        .query_hybrid(by_text("x", 0))
        .unwrap_err()
        .to_string()
        .starts_with("INVALID_VECTOR:"));

    let mut text_only = Hybrid::open_with(None, BTreeMap::new(), 0).unwrap();
    text_only.upsert(&doc("text", "solo texto")).unwrap();
    assert!(text_only
        .upsert(&IndexDoc::new("vector").with_vector(unit(8, 0)))
        .unwrap_err()
        .to_string()
        .starts_with("INVALID_VECTOR:"));
}

#[test]
fn vector_space_is_immutable() {
    let first = Some(VectorConfig::new(8, "test:8"));
    let record = resolve_database_meta(None, &first).unwrap().unwrap();
    assert_eq!(
        record,
        DatabaseMeta { schema_version: 2, metric: "cosine".to_string(), vector: first.clone() }
    );
    assert!(resolve_database_meta(Some(&record), &first).unwrap().is_none());

    let other = Some(VectorConfig::new(8, "another-model:8"));
    let error = resolve_database_meta(Some(&record), &other).unwrap_err();
    assert!(error.to_string().starts_with("VECTOR_SPACE_MISMATCH:"));
}

#[test]
fn filtered_search_returns_exact_top_k_from_allowed_documents() {
    let mut index = Hybrid::open(8);
    let mut docs = Vec::new();
    // These highly similar documents do not satisfy the filter and would starve a
    // fixed-size ANN post-filter.
    for position in 0..20 {
        let mut vector = floats(&unit(8, 0));
        vector[1] = position as f32 * 0.0001;
        docs.push(
            IndexDoc::new(format!("blocked-{position}"))
                .with_vector(bits(&vector))
                .with_filters(vec![ScalarFilter::eq("tenant", "blocked")]),
        );
    }
    docs.push(
        IndexDoc::new("allowed-best")
            .with_vector(bits(&[0.8, 0.2, 0.0, 0.0, 0.0, 0.0, 0.0, 0.0]))
            .with_filters(vec![ScalarFilter::eq("tenant", "allowed")]),
    );
    docs.push(
        IndexDoc::new("allowed-second")
            .with_vector(bits(&[0.6, 0.4, 0.0, 0.0, 0.0, 0.0, 0.0, 0.0]))
            .with_filters(vec![ScalarFilter::eq("tenant", "allowed")]),
    );
    index.upsert_batch(&docs).unwrap();

    let hits = index
        .query_hybrid(
            by_vector(unit(8, 0), 10).with_filters(vec![ScalarFilter::eq("tenant", "allowed")]),
        )
        .unwrap();
    assert_eq!(hits.len(), 2);
    assert_eq!(hits[0].id, "allowed-best");
    assert_eq!(hits[1].id, "allowed-second");
}

#[test]
fn compact_removes_tombstones_without_changing_results() {
    let mut index = Hybrid::open(8);
    index.upsert(&IndexDoc::new("doc").with_vector(unit(8, 0))).unwrap();
    for coordinate in 1..8 {
        index.upsert(&IndexDoc::new("doc").with_vector(unit(8, coordinate))).unwrap();
    }
    let before = index.index.vector_stats().unwrap();
    assert_eq!(before, (1, 7));
    let expected = index.query_hybrid(by_vector(unit(8, 7), 1)).unwrap();

    index.compact();
    assert_eq!(index.index.vector_stats(), Some((1, 0)));
    let after = index.query_hybrid(by_vector(unit(8, 7), 1)).unwrap();
    assert_eq!(expected, after);
}

#[test]
fn tombstone_threshold_triggers_automatic_compaction() {
    let mut index = Hybrid::open(8);
    let documents: Vec<IndexDoc> = (0..=1_024)
        .map(|version| IndexDoc::new("shared").with_vector(unit(8, version % 8)))
        .collect();
    index.upsert_batch(&documents).unwrap();
    assert_eq!(index.index.vector_stats(), Some((1, 0)));
}

#[test]
fn authoritative_documents_rebuild_both_indexes_on_reopen() {
    let mut index = Hybrid::open(8);
    index.upsert(&doc("doc", "memoria persistente").with_vector(unit(8, 3))).unwrap();

    let index = index.reopened();
    assert_eq!(index.query_hybrid(by_text("persistente", 1)).unwrap()[0].id, "doc");
    assert_eq!(index.query_hybrid(by_vector(unit(8, 3), 1)).unwrap()[0].id, "doc");
}

#[test]
fn hybrid_query_fuses_text_and_vector() {
    let mut index = Hybrid::open(384);

    index
        .upsert(&doc("doc1", "error de compilación en pagos").with_vector(embed("pago fallido")))
        .unwrap();
    index
        .upsert(&doc("doc2", "documentación de la API de envíos").with_vector(embed("logística")))
        .unwrap();

    let hits = index
        .query_hybrid(
            by_text("error pagos", 5).with_vector(embed("transacción rechazada")),
        )
        .unwrap();

    assert!(!hits.is_empty());
    assert_eq!(hits[0].id, "doc1");
    // Hybrid hits expose the raw per-source scores.
    assert!(hits[0].text_score.is_some());
    assert!(hits[0].vector_score.is_some());
}

#[test]
fn scalar_filters_pushed_into_index() {
    let mut index = Hybrid::open(384);

    for (id, agent) in [("d1", "Backend"), ("d2", "Frontend")] {
        index
            .upsert(
                &doc(id, "deploy fallido")
                    .with_vector(embed("x"))
                    .with_filters(vec![ScalarFilter::eq("agent", agent)]),
            )
            .unwrap();
    }

    let hits = index
        .query_hybrid(
            by_text("deploy", 10).with_filters(vec![ScalarFilter::eq("agent", "Backend")]),
        )
        .unwrap();

    assert_eq!(hits.len(), 1);
    assert_eq!(hits[0].id, "d1");
}

#[test]
fn vector_index_survives_reopen() {
    let mut index = Hybrid::open(384);
    index.upsert(&doc("doc1", "torre eiffel en parís").with_vector(embed("pago"))).unwrap();
    index.upsert(&doc("doc2", "sushi en tokio").with_vector(embed("logística"))).unwrap();

    let index = index.reopened();
    let hits = index.query_hybrid(by_vector(embed("pago"), 1)).unwrap();

    assert_eq!(hits.len(), 1);
    assert_eq!(hits[0].id, "doc1");
}

#[test]
fn scalar_filters_work_on_arbitrary_fields() {
    let mut index = Hybrid::open(384);

    for (id, city) in [("d1", "tokyo"), ("d2", "paris")] {
        index
            .upsert(
                &doc(id, "guía de viaje")
                    .with_vector(embed("x"))
                    .with_filters(vec![ScalarFilter::eq("city", city)]),
            )
            .unwrap();
    }

    let hits = index
        .query_hybrid(by_text("guía", 10).with_filters(vec![ScalarFilter::eq("city", "paris")]))
        .unwrap();

    assert_eq!(hits.len(), 1);
    assert_eq!(hits[0].id, "d2");
}

#[test]
fn hit_has_positive_score() {
    let mut index = Hybrid::open(384);

    index.upsert(&doc("doc1", "hello world")).unwrap();

    let hits = index.query_hybrid(by_text("hello", 1)).unwrap();

    assert_eq!(hits.len(), 1);
    assert!(score(&hits[0]) > 0.0);
}

#[test]
fn spanish_stemming_matches_morphological_variants() {
    let mut index = Hybrid::open(384);

    index.upsert(&doc("d1", "procesa el pago de la factura")).unwrap();

    // "pagos" must match a document containing "pago".
    let hits = index.query_hybrid(by_text("pagos", 5)).unwrap();
    assert_eq!(hits.len(), 1);
    assert_eq!(hits[0].id, "d1");
}

#[test]
fn accent_folding_matches_both_directions() {
    let mut index = Hybrid::open(384);

    index.upsert(&doc("d1", "transacción rechazada por el banco")).unwrap();
    index.upsert(&doc("d2", "generacion de reportes mensuales")).unwrap();

    // Accent-less query matches accented document...
    let hits = index.query_hybrid(by_text("transaccion", 5)).unwrap();
    assert_eq!(hits.len(), 1);
    assert_eq!(hits[0].id, "d1");

    // ...and accented query matches accent-less document.
    let hits = index.query_hybrid(by_text("generación", 5)).unwrap();
    assert_eq!(hits.len(), 1);
    assert_eq!(hits[0].id, "d2");
}

#[test]
fn malformed_query_never_fails() {
    let mut index = Hybrid::open(384);

    index.upsert(&doc("d1", "envía el correo")).unwrap();

    // Raw user input with FTS operators, unbalanced quotes and punctuation.
    for query in [
        "\"correo sin cerrar",
        "correo AND OR NOT (",
        "¿puedes enviar el correo?",
        "field:value*^~",
        "***",
    ] {
        let result = index.query_hybrid(by_text(query, 5));
        assert!(result.is_ok(), "query {query:?} must not fail");
    }

    // The natural-language variant still finds the document.
    let hits = index.query_hybrid(by_text("¿puedes enviar el correo?", 5)).unwrap();
    assert_eq!(hits.len(), 1);
    assert_eq!(hits[0].id, "d1");
}

#[test]
fn name_field_boost_ranks_title_matches_first() {
    let mut index = Hybrid::open(384);

    index
        .upsert(
            &IndexDoc::new("by-name")
                .with_name("enviar correo")
                .with_body("herramienta de mensajería"),
        )
        .unwrap();
    index
        .upsert(
            &IndexDoc::new("by-body")
                .with_name("notificaciones")
                .with_body("permite enviar un correo al usuario"),
        )
        .unwrap();

    let hits = index.query_hybrid(by_text("correo", 5)).unwrap();
    assert_eq!(hits.len(), 2);
    assert_eq!(hits[0].id, "by-name", "name match must outrank body match");

    // Inverting the boosts inverts the ranking.
    let hits = index
        .query_hybrid(by_text("correo", 5).with_boosts(FieldBoosts {
            name: 1.0f32.to_bits(),
            body: 10.0f32.to_bits(),
            tags: 1.0f32.to_bits(),
        }))
        .unwrap();
    assert_eq!(hits[0].id, "by-body");
}

#[test]
fn upsert_replaces_document() {
    let mut index = Hybrid::open(384);

    index.upsert(&doc("d1", "contenido de pagos")).unwrap();
    index.upsert(&doc("d1", "contenido de envíos")).unwrap();

    let hits = index.query_hybrid(by_text("pagos", 5)).unwrap();
    assert!(hits.is_empty(), "old content must be gone after upsert");

    let hits = index.query_hybrid(by_text("envíos", 5)).unwrap();
    assert_eq!(hits.len(), 1, "no duplicates after upsert");
}

#[test]
fn delete_removes_text_and_vector() {
    let mut index = Hybrid::open(384);

    index.upsert(&doc("d1", "pago fallido").with_vector(embed("pago"))).unwrap();
    index.upsert(&doc("d2", "otro tema").with_vector(embed("logística"))).unwrap();

    index.delete("d1").unwrap();

    let hits = index.query_hybrid(by_text("pago", 5)).unwrap();
    assert!(hits.is_empty());

    let hits = index.query_hybrid(by_vector(embed("pago"), 5)).unwrap();
    assert!(hits.iter().all(|h| h.id != "d1"), "vector must be tombstoned");

    // Deletion survives a reopen.
    let index = index.reopened();
    let hits = index.query_hybrid(by_vector(embed("pago"), 5)).unwrap();
    assert!(hits.iter().all(|h| h.id != "d1"));
}

#[test]
fn delete_by_filter_removes_matching_docs() {
    let mut index = Hybrid::open(384);

    for i in 0..3 {
        index
            .upsert(
                &doc(&format!("srv-a-{i}"), "herramienta del servidor A")
                    .with_vector(embed("x"))
                    .with_filters(vec![ScalarFilter::eq("server_id", "a")]),
            )
            .unwrap();
    }
    index
        .upsert(
            &doc("srv-b-0", "herramienta del servidor B")
                .with_filters(vec![ScalarFilter::eq("server_id", "b")]),
        )
        .unwrap();

    index.delete_by_filter(&ScalarFilter::eq("server_id", "a")).unwrap();

    let hits = index.query_hybrid(by_text("herramienta servidor", 10)).unwrap();
    assert_eq!(hits.len(), 1);
    assert_eq!(hits[0].id, "srv-b-0");

    // Vectors of the deleted docs are gone too.
    let hits = index.query_hybrid(by_vector(embed("x"), 10)).unwrap();
    assert!(hits.iter().all(|h| !h.id.starts_with("srv-a-")));
}

#[test]
fn clear_empties_the_index() {
    let mut index = Hybrid::open(384);

    index.upsert(&doc("d1", "algo de texto").with_vector(embed("x"))).unwrap();
    index.clear().unwrap();

    let hits = index.query_hybrid(by_text("texto", 5)).unwrap();
    assert!(hits.is_empty());

    let hits = index.query_hybrid(by_vector(embed("x"), 5)).unwrap();
    assert!(hits.is_empty());

    // Clear survives reopen.
    let index = index.reopened();
    let hits = index.query_hybrid(by_vector(embed("x"), 5)).unwrap();
    assert!(hits.is_empty());
}

#[test]
fn batch_upsert_indexes_all_docs() {
    let mut index = Hybrid::open(384);

    let docs: Vec<IndexDoc> = (0..50)
        .map(|i| doc(&format!("d{i}"), &format!("documento número {i} sobre pagos")))
        .collect();
    index.upsert_batch(&docs).unwrap();

    let hits = index.query_hybrid(by_text("pagos", 50)).unwrap();
    assert_eq!(hits.len(), 50);
}

#[test]
fn text_only_docs_coexist_with_vector_queries() {
    let mut index = Hybrid::open(384);

    index.upsert(&doc("text-only", "solo texto sin vector")).unwrap();
    index.upsert(&doc("with-vec", "documento con vector").with_vector(embed("pago"))).unwrap();

    // Vector query only sees the vectorized doc.
    let hits = index.query_hybrid(by_vector(embed("pago"), 10)).unwrap();
    assert_eq!(hits.len(), 1);
    assert_eq!(hits[0].id, "with-vec");

    // Text query sees both.
    let hits = index.query_hybrid(by_text("texto vector documento", 10)).unwrap();
    assert_eq!(hits.len(), 2);
}

#[test]
fn vector_only_query_respects_filters() {
    let mut index = Hybrid::open(384);

    index
        .upsert(
            &doc("d1", "pago uno")
                .with_vector(embed("pago"))
                .with_filters(vec![ScalarFilter::eq("type", "tool")]),
        )
        .unwrap();
    index
        .upsert(
            &doc("d2", "pago dos")
                .with_vector(embed("pago fallido"))
                .with_filters(vec![ScalarFilter::eq("type", "skill")]),
        )
        .unwrap();

    let hits = index
        .query_hybrid(
            by_vector(embed("pago"), 10).with_filters(vec![ScalarFilter::eq("type", "skill")]),
        )
        .unwrap();
    assert_eq!(hits.len(), 1);
    assert_eq!(hits[0].id, "d2");
}

#[test]
fn single_source_scores_are_raw() {
    let mut index = Hybrid::open(384);

    index.upsert(&doc("d1", "pago fallido").with_vector(embed("pago"))).unwrap();

    // Text-only: raw BM25, well above the ~0.016 ceiling of RRF scores.
    let hits = index.query_hybrid(by_text("pago fallido", 1)).unwrap();
    assert!(score(&hits[0]) > 0.1, "expected raw BM25, got {}", score(&hits[0]));
    assert_eq!(hits[0].text_score, Some(hits[0].score));

    // Vector-only: cosine similarity of identical vectors is 1.0.
    let hits = index.query_hybrid(by_vector(embed("pago"), 1)).unwrap();
    assert!(score(&hits[0]) > 0.99, "expected cosine 1, got {}", score(&hits[0]));
    assert_eq!(hits[0].vector_score, Some(hits[0].score));
}

#[test]
fn in_ram_index_supports_full_lifecycle() {
    let mut index = Hybrid::open(384);

    index.upsert(&doc("d1", "transacción rechazada").with_vector(embed("transacción"))).unwrap();
    let hits = index.query_hybrid(by_text("transacciones", 5)).unwrap();
    assert_eq!(hits.len(), 1);

    index.delete("d1").unwrap();
    let hits = index.query_hybrid(by_text("transacción", 5)).unwrap();
    assert!(hits.is_empty());
}

/// A database with the engines beside it.
fn database_with(docs: &[IndexDoc]) -> (HiveDB<MockClock>, Hybrid) {
    let mut db = HiveDB::open_temp_with_clock(MockClock::at(0)).unwrap();
    let mut hybrid = Hybrid::open(384);
    for doc in docs {
        db.upsert_doc(doc, &took_over()).unwrap();
        hybrid.upsert(doc).unwrap();
    }
    assert_eq!(db.semantic().generation(), hybrid.index.generation());
    (db, hybrid)
}

#[test]
fn hive_db_hybrid_query_fuses_text_and_vector() {
    let mut db = HiveDB::open_temp_with_clock(MockClock::at(0)).unwrap();
    for (id, text, vector) in [
        ("doc1", "error de compilación en pagos", embed("pago fallido")),
        ("doc2", "documentación de la API de envíos", embed("logística")),
    ] {
        db.index_doc(id, text, vector, &took_over()).unwrap();
    }
    let (_, hybrid) = database_with(&[
        doc("doc1", "error de compilación en pagos").with_vector(embed("pago fallido")),
        doc("doc2", "documentación de la API de envíos").with_vector(embed("logística")),
    ]);
    assert_eq!(db.semantic().vector_stats(), hybrid.index.vector_stats());

    let hits = hybrid
        .query_hybrid(by_text("error pagos", 5).with_vector(embed("transacción rechazada")))
        .unwrap();

    assert!(!hits.is_empty());
    assert_eq!(hits[0].id, "doc1");
}

#[test]
fn hive_db_scalar_filters_pushed_into_index() {
    let mut db = HiveDB::open_temp_with_clock(MockClock::at(0)).unwrap();
    let mut docs = Vec::new();
    for (id, agent) in [("d1", "Backend"), ("d2", "Frontend")] {
        let filters = vec![ScalarFilter::eq("agent", agent)];
        db.index_doc_with(id, "deploy fallido", embed("x"), &filters, &took_over()).unwrap();
        docs.push(doc(id, "deploy fallido").with_vector(embed("x")).with_filters(filters));
    }
    let (_, hybrid) = database_with(&docs);

    let query = by_text("deploy", 10).with_filters(vec![ScalarFilter::eq("agent", "Backend")]);
    assert_eq!(
        db.semantic().plan_query(&query).unwrap(),
        hybrid.index.plan_query(&query).unwrap()
    );
    let hits = hybrid.query_hybrid(query).unwrap();

    assert_eq!(hits.len(), 1);
    assert_eq!(hits[0].id, "d1");
}

#[test]
fn episodic_similarity_retrieves_past_relevant_episodes() {
    let past = |id: &str, description: &str| {
        doc(id, description)
            .with_vector(embed(description))
            .with_filters(vec![ScalarFilter::eq("kind", "episode")])
    };
    let (db, hybrid) = database_with(&[
        past("task-past-1", "null pointer en módulo de pagos"),
        past("task-past-2", "optimización de queries SQL"),
    ]);

    let config = EpisodicConfig { vector: embed("null pointer pagos"), k: 3 };
    let query = episode_query(&config, "NPE en validación de pagos");
    let hits = hybrid.query_hybrid(query).unwrap();
    let threshold = f32::from_bits(best_text_score(&hits)) * 0.4;
    let episodes = relevant_episodes(&hits, threshold.to_bits());

    let ctx = db
        .build_agent_context(
            &AgentContextRequest {
                task_id: "task-current".into(),
                current_phase: "".into(),
                current_objective: "NPE en validación de pagos".into(),
                max_tokens: 8192,
                strategy: ContextStrategy {
                    episodic_similarity: Some(config),
                    ..Default::default()
                },
            },
            episodes,
        )
        .unwrap();

    assert!(ctx.similar_episodes.iter().any(|e| e.task_id == "task-past-1"));
    assert!(!ctx.similar_episodes.iter().any(|e| e.task_id == "task-past-2"));
}

#[test]
fn words_are_folded_and_stemmed() {
    let clause =
        |token: &str, field: TextField| Clause { token: token.to_string(), field };
    assert_eq!(
        bag_of_words("¡Transacciónes!"),
        vec![
            clause("transaccion", TextField::Name),
            clause("transaccion", TextField::Body),
            clause("transaccion", TextField::Tags),
        ]
    );
    assert_eq!(bag_of_words("pagos pago"), word_clauses(&vec!["pag".into(), "pag".into()]));
    assert!(bag_of_words("***").is_empty());
}

#[test]
fn defaults_accept_vectors_of_the_usual_dimension() {
    let options = OpenOptions::default();
    assert_eq!(options.vector.as_ref().unwrap().dimension, 384);
    let db = HiveDB::open_temp_with_clock(MockClock::at(0)).unwrap();
    assert_eq!(db.semantic().vector_dimension(), Some(384));
    let text_only = HiveDB::open_temp_with_clock_and_options(
        MockClock::at(0),
        OpenOptions { vector: None },
    )
    .unwrap();
    assert_eq!(text_only.semantic().vector_dimension(), None);
    assert_eq!(text_only.semantic().vector_stats(), None);
}

#[test]
fn bad_configurations_are_refused() {
    let refused = |dimension: usize, space: &str| {
        let options = OpenOptions { vector: Some(VectorOptions::new(dimension, space)) };
        match HiveDB::open_temp_with_clock_and_options(MockClock::at(0), options) {
            Ok(_) => panic!("must be refused"),
            Err(error) => error.to_string(),
        }
    };
    assert_eq!(
        refused(0, "s"),
        "invalid input: INVALID_VECTOR: dimension must be in 1..=65536, got 0"
    );
    assert_eq!(
        refused(65_537, "s"),
        "invalid input: INVALID_VECTOR: dimension must be in 1..=65536, got 65537"
    );
    assert_eq!(
        refused(8, " \t\u{3000}"),
        "invalid input: VECTOR_SPACE_MISMATCH: space_id must not be empty"
    );
    assert_eq!(MAX_VECTOR_DIMENSION, 65_536);
    assert!(validate_config(&Some(VectorConfig::new(65_536, "\u{200b}"))).is_ok());
}

#[test]
fn vectors_are_checked_coordinate_by_coordinate() {
    assert_eq!(
        validate_vector(&bits(&[1.0]), 2),
        Err(IndexError::DimensionMismatch { expected: 2, got: 1 })
    );
    assert_eq!(
        validate_vector(&bits(&[1.0, f32::NEG_INFINITY]), 2),
        Err(IndexError::InvalidVector("coordinate 1 is not finite".into()))
    );
    assert_eq!(
        validate_vector(&bits(&[0.0, -0.0]), 2),
        Err(IndexError::InvalidVector("vector norm must be greater than zero".into()))
    );
    // Every finite single squares to more than zero in double precision.
    assert_eq!(validate_vector(&vec![1, 0], 2), Ok(()));
}

#[test]
fn the_record_of_a_base_fixes_its_dimension() {
    assert_eq!(
        resolve_vector_dimension(None, 768).unwrap(),
        Some(r#"{"vector_dimension":768}"#.to_string())
    );
    let record = r#"{"vector_dimension":768}"#;
    assert_eq!(resolve_vector_dimension(Some(record), 768).unwrap(), None);
    assert_eq!(
        resolve_vector_dimension(Some(record), 384).unwrap_err().to_string(),
        "invalid input: database was created with vector_dimension=768, cannot reopen with \
         vector_dimension=384"
    );
    assert_eq!(
        resolve_vector_dimension(Some("{}"), 384).unwrap_err().to_string(),
        "invalid input: corrupt meta.json: missing vector_dimension"
    );
    assert!(resolve_vector_dimension(Some("{"), 384)
        .unwrap_err()
        .to_string()
        .starts_with("invalid input: corrupt meta.json: "));
}

#[test]
fn an_engine_that_fails_is_filled_anew() {
    let mut hybrid = Hybrid::open(8);
    let report = EngineReport { update: Err("busy".into()), rebuild: Ok(()) };
    let work = hybrid.index.upsert(&doc("a", "x").with_vector(unit(8, 1)), &report).unwrap();
    assert_eq!(work, Work::Rebuild(vec![Placed { number: 0, vector: unit(8, 1) }]));
    assert!(!hybrid.index.needs_sync());

    let report = EngineReport { update: Err("busy".into()), rebuild: Err("full".into()) };
    let error = hybrid.index.delete("a", &report).unwrap_err();
    assert_eq!(
        error,
        IndexError::IndexUnavailableAfterCommit {
            generation: 2,
            cause: "update failed: busy; rebuild failed: full".into(),
        }
    );
}

#[test]
fn the_graph_reuses_no_number() {
    let mut graph = VectorIndex::new(2);
    assert_eq!(graph.insert("a".into(), &bits(&[1.0, 0.0])), Ok(0));
    assert_eq!(graph.insert("b".into(), &bits(&[0.0, 1.0])), Ok(1));
    assert_eq!(graph.insert("a".into(), &bits(&[1.0, 1.0])), Ok(2));
    assert_eq!(graph.stats(), (2, 1));
    assert!(graph.delete("b"));
    assert!(!graph.delete("b"));
    assert_eq!(graph.stats(), (1, 2));
    let one = 1.0f32.to_bits();
    let found = graph.collect(&vec![(1, one), (0, one), (2, one), (9, one)], 5);
    assert_eq!(found, vec![("a".to_string(), 1, one)]);
    assert_eq!(graph.plan_search(&bits(&[1.0, 0.0]), 1), Ok((4, 50)));
    assert_eq!(graph.plan_search(&bits(&[1.0, 0.0]), 20), Ok((80, 80)));
    assert!(!graph.should_compact());
    graph.clear();
    assert_eq!(graph.stats(), (0, 0));
    assert_eq!(COMPACT_AT, 1_024);
}

#[test]
fn documents_carry_exactly_their_filters() {
    let mut index = TextIndex::new();
    let filters = vec![ScalarFilter::eq("a", "1"), ScalarFilter::eq("b", "2")];
    index.upsert(&doc("x", "").with_filters(filters.clone()));
    index.upsert(&doc("y", "").with_filters(vec![ScalarFilter::eq("a", "1")]));
    assert_eq!(index.ids_by_filters(&filters), vec!["x"]);
    assert_eq!(index.ids_by_filter(&filters[0]), vec!["x", "y"]);
    assert_eq!(index.stored_filter_tokens("y"), Some(vec!["a\u{1f}1".to_string()]));
    assert_eq!(index.stored_filter_tokens("z"), None);
    index.delete_by_filter(&filters[1]);
    assert_eq!(index.ids_by_filter(&filters[0]), vec!["y"]);
    index.delete_doc("y");
    assert!(index.ids_by_filters(&vec![]).is_empty());
}

#[test]
fn scores_are_totally_ordered() {
    let b = |x: f32| x.to_bits();
    assert!(totally_below(b(-0.0), b(0.0)));
    assert!(totally_below(b(1.0), b(f32::NAN)));
    assert!(totally_below(b(-1.0), b(-0.5)));
    assert!(!totally_below(b(0.5), b(0.5)));
}

#[test]
fn errors_have_codes() {
    let text = |error: IndexError| error.to_string();
    assert_eq!(
        text(IndexError::DimensionMismatch { expected: 2, got: 3 }),
        "INVALID_VECTOR: dimension mismatch: expected 2, got 3"
    );
    assert_eq!(text(IndexError::InvalidVector("x".into())), "INVALID_VECTOR: x");
    assert_eq!(
        text(IndexError::VectorIndexDisabled),
        "INVALID_VECTOR: open the database with an explicit vector configuration"
    );
    assert_eq!(text(IndexError::VectorSpaceMismatch("x".into())), "VECTOR_SPACE_MISMATCH: x");
    assert_eq!(
        text(IndexError::IndexUnavailableAfterCommit { generation: 7, cause: "x".into() }),
        "INDEX_DEGRADED: generation 7 was committed but indexes could not be rebuilt: x"
    );
    assert_eq!(text(IndexError::Storage("x".into())), "semantic storage error: x");
}

#[test]
fn deleting_a_missing_id_changes_nothing() {
    let mut hybrid = Hybrid::open(8);
    hybrid.upsert(&doc("a", "ledger").with_vector(unit(8, 1))).unwrap();
    let generation = hybrid.index.generation();

    // Nothing is committed, so an engine that would fail is not asked.
    let report = EngineReport { update: Err("busy".into()), rebuild: Err("full".into()) };
    assert_eq!(hybrid.index.delete("b", &report), Ok(Work::Insert(vec![])));
    assert_eq!(hybrid.index.generation(), generation);
    assert!(hybrid.index.holds("a"));
    assert!(!hybrid.index.holds("b"));
    assert_eq!(hybrid.query_hybrid(by_text("ledger", 5)).unwrap().len(), 1);
}

#[test]
fn similarities_are_reported_between_zero_and_one() {
    let ranking = |scores: &[f32]| -> Vec<(String, usize, u32)> {
        scores.iter().enumerate().map(|(i, x)| (format!("d{i}"), i + 1, x.to_bits())).collect()
    };
    let hits = merge_rankings(None, Some(ranking(&[1.0000001, 0.5, -0.25])), &vec![], 10);
    let scores: Vec<f32> = hits.iter().map(|hit| f32::from_bits(hit.score)).collect();
    assert_eq!(scores, vec![1.0, 0.5, 0.0]);
    for hit in &hits {
        assert_eq!(hit.vector_score, Some(hit.score));
        assert_eq!(hit.text_score, None);
    }

    // Opposite vectors are as unlike as documents get.
    let mut hybrid = Hybrid::open(8);
    let opposite: Vec<u32> = floats(&unit(8, 1)).iter().map(|x| (-x).to_bits()).collect();
    hybrid.upsert(&doc("a", "x").with_vector(opposite)).unwrap();
    let hits = hybrid.query_hybrid(by_vector(unit(8, 1), 5)).unwrap();
    assert_eq!(f32::from_bits(hits[0].score), 0.0);
}
