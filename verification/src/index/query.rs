//! Hybrid queries: what to ask the full-text engine and the neighbour graph for, and
//! how their answers become hits.

use crate::bits::{clamp_to_unit, into_unit, single_below, SINGLE_ONE};
use crate::index::error::{IndexError, IndexErrorModel};
use crate::index::hnsw::{first_of, ranked, search_width, validate_vector, vector_error};
use crate::index::rrf::{
    all_ids, in_order, law_fusion_keeps_every_document, law_the_best_come_first, rrf, rrf_terms,
    same_elements, scored, sort_scored, term_ids, terms_of, Criterion,
};
use crate::index::semantic::{SemanticIndex, SemanticModel};
use crate::index::text::{carriers, filter_tokens, tokens_of};
use crate::index::types::{FieldBoosts, Hit, HitModel, HybridQuery, QueryModel};
use crate::lists::{lemma_occurrences_absent, lemma_occurrences_once, occurrences};
use crate::sorted::rows_of;
use crate::text::text_same;
use vstd::prelude::*;

verus! {

/// A ranking: identifier, rank from one, score.
pub type RankingModel = Seq<(Seq<char>, usize, u32)>;

/// How the vector side of a query is answered.
#[derive(Debug, PartialEq)]
pub enum VectorPlan {
    /// The query has no vector.
    Absent,
    /// By the graph: how many neighbours to ask for, and how widely to look.
    Nearest { want: usize, ef: usize },
    /// By comparing with each of these.
    Exact(Vec<(String, Vec<u32>)>),
}

#[verifier::ext_equal]
pub enum VectorPlanModel {
    Absent,
    Nearest { want: int, ef: int },
    Exact(Seq<(Seq<char>, Seq<u32>)>),
}

impl DeepView for VectorPlan {
    type V = VectorPlanModel;

    open spec fn deep_view(&self) -> VectorPlanModel {
        match self {
            VectorPlan::Absent => VectorPlanModel::Absent,
            VectorPlan::Nearest { want, ef } => VectorPlanModel::Nearest {
                want: *want as int,
                ef: *ef as int,
            },
            VectorPlan::Exact(candidates) => VectorPlanModel::Exact(candidates.deep_view()),
        }
    }
}

/// What to ask for.
#[derive(Debug, PartialEq)]
pub struct QueryPlan {
    /// The tokens that a document must carry.
    pub filter_tokens: Vec<String>,
    /// The boosts of the text fields.
    pub boosts: FieldBoosts,
    pub vector: VectorPlan,
}

#[verifier::ext_equal]
pub struct PlanModel {
    pub filter_tokens: Seq<Seq<char>>,
    pub boosts: FieldBoosts,
    pub vector: VectorPlanModel,
}

impl DeepView for QueryPlan {
    type V = PlanModel;

    open spec fn deep_view(&self) -> PlanModel {
        PlanModel {
            filter_tokens: self.filter_tokens.deep_view(),
            boosts: self.boosts,
            vector: self.vector.deep_view(),
        }
    }
}

/// Why a query is refused.
pub open spec fn query_error(model: SemanticModel, query: QueryModel) -> Option<IndexErrorModel> {
    if query.k == 0 {
        Some(IndexErrorModel::InvalidVector("k must be greater than zero"@))
    } else {
        match query.vector {
            Some(vector) => match model.config {
                Some(config) => vector_error(vector, config.dimension),
                None => Some(IndexErrorModel::VectorIndexDisabled),
            },
            None => None,
        }
    }
}

/// The vectors of the documents among the given ones that have one.
pub open spec fn vectors_among(model: SemanticModel, ids: Seq<Seq<char>>) -> Seq<
    (Seq<char>, Seq<u32>),
>
    decreases ids.len(),
{
    if ids.len() == 0 {
        Seq::empty()
    } else {
        let before = vectors_among(model, ids.drop_last());
        let id = ids.last();
        if model.docs.contains_key(id) && model.docs[id].vector is Some {
            before.push((id, model.docs[id].vector->0))
        } else {
            before
        }
    }
}

/// How a query is answered.
pub open spec fn plan_of(model: SemanticModel, query: QueryModel) -> PlanModel {
    let tokens = tokens_of(query.filters);
    PlanModel {
        filter_tokens: tokens,
        boosts: match query.boosts {
            Some(boosts) => boosts,
            None => FieldBoosts::usual(),
        },
        vector: match query.vector {
            Some(vector) => if query.filters.len() == 0 {
                let width = search_width(query.k, (model.graph->0).deleted.len());
                VectorPlanModel::Nearest { want: width.0, ef: width.1 }
            } else {
                VectorPlanModel::Exact(
                    vectors_among(
                        model,
                        carriers(rows_of::<String, Seq<Seq<char>>>(model.tokens), tokens),
                    ),
                )
            },
            None => VectorPlanModel::Absent,
        },
    }
}

impl SemanticIndex {
    /// What to ask the engine and the graph for. With filters, vectors are compared
    /// exactly, and only those of documents that carry all filters: approximate
    /// neighbours could all be documents that the filters exclude.
    pub fn plan_query(&self, query: &HybridQuery) -> (r: Result<QueryPlan, IndexError>)
        requires
            self.deep_view().is_valid(),
        ensures
            match r {
                Ok(plan) => query_error(self.deep_view(), query.deep_view()) is None
                    && plan.deep_view() == plan_of(self.deep_view(), query.deep_view()),
                Err(error) => query_error(self.deep_view(), query.deep_view()) == Some(
                    error.deep_view(),
                ),
            },
    {
        let ghost model = self.deep_view();
        if query.k == 0 {
            return Err(IndexError::InvalidVector("k must be greater than zero".to_owned()));
        }
        let vector = match &query.vector {
            Some(vector) => {
                assert(vector.deep_view() =~= vector@);
                match self.vector_dimension() {
                    Some(dimension) => {
                        validate_vector(vector, dimension)?;
                    },
                    None => {
                        return Err(IndexError::VectorIndexDisabled);
                    },
                }
                if query.filters.len() == 0 {
                    assert(query.filters.deep_view().len() == 0);
                    match self.plan_nearest(vector, query.k) {
                        Some((want, ef)) => VectorPlan::Nearest { want, ef },
                        None => {
                            assert(false);
                            VectorPlan::Absent
                        },
                    }
                } else {
                    assert(query.filters.deep_view().len() > 0);
                    VectorPlan::Exact(self.candidates(&query.filters))
                }
            },
            None => VectorPlan::Absent,
        };
        let boosts = match query.boosts {
            Some(boosts) => boosts,
            None => FieldBoosts::default(),
        };
        Ok(QueryPlan { filter_tokens: filter_tokens(&query.filters), boosts, vector })
    }
}

/// The ranking by similarity: the most similar first, the smaller identifier first
/// among equals, at most `k`. Similarities go with the candidates one by one.
pub fn rank_by_similarity(
    candidates: &Vec<(String, Vec<u32>)>,
    similarities: &Vec<u32>,
    k: usize,
) -> (r: Vec<(String, usize, u32)>)
    requires
        similarities@.len() == candidates@.len(),
    ensures
        exists|order: Seq<(Seq<char>, u32)>| #[trigger]
            in_order(Criterion::ScoreThenId, order) && same_elements(
                order,
                scored(candidate_ids(candidates.deep_view()), similarities@),
            ) && r.deep_view() == ranked(first_of(order, k)),
{
    let ghost all = scored(candidate_ids(candidates.deep_view()), similarities@);
    let mut pairs: Vec<(String, u32)> = Vec::new();
    let mut i: usize = 0;
    assert(pairs.deep_view() =~= all.take(0));
    while i < candidates.len()
        invariant
            i <= candidates.len(),
            similarities@.len() == candidates@.len(),
            all == scored(candidate_ids(candidates.deep_view()), similarities@),
            pairs.deep_view() == all.take(i as int),
        decreases candidates.len() - i,
    {
        let ghost was = pairs.deep_view();
        pairs.push((candidates[i].0.clone(), similarities[i]));
        proof {
            assert(candidates.deep_view()[i as int] == candidates@[i as int].deep_view());
            assert(pairs.deep_view() =~= was.push(all[i as int]));
            assert(all.take(i + 1) =~= was.push(all[i as int]));
        }
        i += 1;
    }
    assert(all.take(i as int) =~= all);
    let order = sort_scored(Criterion::ScoreThenId, pairs);
    let ghost sorted = order.deep_view();
    let ghost goal = ranked(first_of(sorted, k));
    let mut out: Vec<(String, usize, u32)> = Vec::new();
    let mut j: usize = 0;
    assert(out.deep_view() =~= goal.take(0));
    while j < order.len() && j < k
        invariant
            j <= order.len(),
            j <= k,
            sorted == order.deep_view(),
            goal == ranked(first_of(sorted, k)),
            out.deep_view() == goal.take(j as int),
        decreases order.len() - j,
    {
        let ghost was = out.deep_view();
        assert(sorted[j as int] == order@[j as int].deep_view());
        out.push((order[j].0.clone(), j + 1, order[j].1));
        assert(out.deep_view() =~= was.push(goal[j as int]));
        assert(goal.take(j + 1) =~= was.push(goal[j as int]));
        j += 1;
    }
    assert(goal.take(j as int) =~= goal);
    assert(in_order(Criterion::ScoreThenId, sorted) && same_elements(sorted, all));
    out
}

/// The identifiers of candidates.
pub open spec fn candidate_ids(candidates: Seq<(Seq<char>, Seq<u32>)>) -> Seq<Seq<char>> {
    Seq::new(candidates.len(), |i: int| candidates[i].0)
}

/// The identifiers and ranks of two rankings, one after the other.
pub open spec fn entries_of(text: RankingModel, vector: RankingModel) -> Seq<(Seq<char>, usize)> {
    let all = text + vector;
    Seq::new(all.len(), |i: int| (all[i].0, all[i].1))
}

/// What the fused scores of two rankings are made of.
pub fn fusion_terms(
    text: &Vec<(String, usize, u32)>,
    vector: &Vec<(String, usize, u32)>,
) -> (r: Vec<(String, Vec<usize>)>)
    ensures
        r.deep_view() == terms_of(entries_of(text.deep_view(), vector.deep_view())),
{
    let ghost both = text.deep_view() + vector.deep_view();
    let ghost all = entries_of(text.deep_view(), vector.deep_view());
    let mut entries: Vec<(String, usize)> = Vec::new();
    let mut i: usize = 0;
    assert(entries.deep_view() =~= all.take(0));
    while i < text.len()
        invariant
            i <= text.len(),
            both == text.deep_view() + vector.deep_view(),
            all == entries_of(text.deep_view(), vector.deep_view()),
            entries.deep_view() == all.take(i as int),
        decreases text.len() - i,
    {
        let ghost was = entries.deep_view();
        entries.push((text[i].0.clone(), text[i].1));
        proof {
            assert(both[i as int] == text@[i as int].deep_view());
            assert(entries.deep_view() =~= was.push(all[i as int]));
            assert(all.take(i + 1) =~= was.push(all[i as int]));
        }
        i += 1;
    }
    let mut j: usize = 0;
    while j < vector.len()
        invariant
            j <= vector.len(),
            both == text.deep_view() + vector.deep_view(),
            all == entries_of(text.deep_view(), vector.deep_view()),
            entries.deep_view() == all.take(text@.len() + j),
        decreases vector.len() - j,
    {
        let ghost was = entries.deep_view();
        entries.push((vector[j].0.clone(), vector[j].1));
        proof {
            let n = text@.len() + j;
            assert(both[n] == vector@[j as int].deep_view());
            assert(entries.deep_view() =~= was.push(all[n]));
            assert(all.take(n + 1) =~= was.push(all[n]));
        }
        j += 1;
    }
    assert(all.take(text@.len() + j) =~= all);
    rrf_terms(&entries)
}

/// The score that a ranking gives an identifier; the last one where there are
/// several.
pub open spec fn score_in(ranking: RankingModel, id: Seq<char>) -> Option<u32>
    decreases ranking.len(),
{
    if ranking.len() == 0 {
        None
    } else if ranking.last().0 == id {
        Some(ranking.last().2)
    } else {
        score_in(ranking.drop_last(), id)
    }
}

fn find_score(ranking: &Vec<(String, usize, u32)>, id: &str) -> (r: Option<u32>)
    ensures
        r == score_in(ranking.deep_view(), id@),
{
    let ghost all = ranking.deep_view();
    let mut n: usize = ranking.len();
    assert(all.take(n as int) =~= all);
    while n > 0
        invariant
            n <= ranking.len(),
            all == ranking.deep_view(),
            score_in(all, id@) == score_in(all.take(n as int), id@),
        decreases n,
    {
        proof {
            assert(all.take(n as int).drop_last() =~= all.take(n - 1));
            assert(all.take(n as int).last() == ranking@[n - 1].deep_view());
        }
        if text_same(ranking[n - 1].0.as_str(), id) {
            return Some(ranking[n - 1].2);
        }
        n -= 1;
    }
    None
}

/// The hits of a query with text only: raw scores.
pub open spec fn text_hits(text: RankingModel) -> Seq<HitModel> {
    Seq::new(
        text.len(),
        |i: int|
            HitModel {
                id: text[i].0,
                score: text[i].2,
                text_score: Some(text[i].2),
                vector_score: None,
            },
    )
}

/// The hits of a query with a vector only: similarities between zero and one.
pub open spec fn vector_hits(vector: RankingModel) -> Seq<HitModel> {
    Seq::new(
        vector.len(),
        |i: int|
            HitModel {
                id: vector[i].0,
                score: into_unit(vector[i].2),
                text_score: None,
                vector_score: Some(into_unit(vector[i].2)),
            },
    )
}

/// The similarity that a ranking gives an identifier, between zero and one.
pub open spec fn similarity_in(ranking: RankingModel, id: Seq<char>) -> Option<u32> {
    match score_in(ranking, id) {
        Some(bits) => Some(into_unit(bits)),
        None => None,
    }
}

/// The hits of a query with both: fused scores, and those of each ranking beside them.
pub open spec fn fused_hits(
    fused: Seq<(Seq<char>, u32)>,
    text: RankingModel,
    vector: RankingModel,
) -> Seq<HitModel> {
    Seq::new(
        fused.len(),
        |i: int|
            HitModel {
                id: fused[i].0,
                score: fused[i].1,
                text_score: score_in(text, fused[i].0),
                vector_score: similarity_in(vector, fused[i].0),
            },
    )
}

/// `fused` is what the fused scores make of two rankings.
pub open spec fn is_fusion(
    fused: Seq<(Seq<char>, u32)>,
    text: RankingModel,
    vector: RankingModel,
    scores: Seq<u32>,
) -> bool {
    in_order(Criterion::Score, fused) && same_elements(
        fused,
        scored(term_ids(terms_of(entries_of(text, vector))), scores),
    )
}

/// Turns the rankings of a query into hits. One ranking alone keeps its scores; two are
/// fused, with a score for each of their terms, and at most `k` are kept. The scores of
/// the vector ranking are similarities, and are reported between zero and one.
pub fn merge_rankings(
    text: Option<Vec<(String, usize, u32)>>,
    vector: Option<Vec<(String, usize, u32)>>,
    scores: &Vec<u32>,
    k: usize,
) -> (r: Vec<Hit>)
    requires
        text is Some && vector is Some ==> scores@.len() == terms_of(
            entries_of(text->0.deep_view(), vector->0.deep_view()),
        ).len(),
    ensures
        match (text, vector) {
            (Some(text), None) => r.deep_view() == text_hits(text.deep_view()),
            (None, Some(vector)) => r.deep_view() == vector_hits(vector.deep_view()),
            (Some(text), Some(vector)) => exists|fused: Seq<(Seq<char>, u32)>| #[trigger]
                is_fusion(fused, text.deep_view(), vector.deep_view(), scores@) && r.deep_view()
                    == fused_hits(first_of(fused, k), text.deep_view(), vector.deep_view()),
            (None, None) => r@.len() == 0,
        },
        text is None ==> forall|i: int|
            0 <= i < r@.len() ==> (#[trigger] r@[i]).score <= SINGLE_ONE && r@[i].vector_score
                == Some(r@[i].score) && r@[i].text_score is None,
{
    match (text, vector) {
        (Some(text), None) => {
            let ghost all = text_hits(text.deep_view());
            let mut hits: Vec<Hit> = Vec::new();
            let mut i: usize = 0;
            assert(hits.deep_view() =~= all.take(0));
            while i < text.len()
                invariant
                    i <= text.len(),
                    all == text_hits(text.deep_view()),
                    hits.deep_view() == all.take(i as int),
                decreases text.len() - i,
            {
                let ghost was = hits.deep_view();
                assert(text.deep_view()[i as int] == text@[i as int].deep_view());
                hits.push(
                    Hit {
                        id: text[i].0.clone(),
                        score: text[i].2,
                        text_score: Some(text[i].2),
                        vector_score: None,
                    },
                );
                assert(hits.deep_view() =~= was.push(all[i as int]));
                assert(all.take(i + 1) =~= was.push(all[i as int]));
                i += 1;
            }
            assert(all.take(i as int) =~= all);
            hits
        },
        (None, Some(vector)) => {
            let ghost all = vector_hits(vector.deep_view());
            let mut hits: Vec<Hit> = Vec::new();
            let mut i: usize = 0;
            assert(hits.deep_view() =~= all.take(0));
            while i < vector.len()
                invariant
                    i <= vector.len(),
                    all == vector_hits(vector.deep_view()),
                    hits.deep_view() == all.take(i as int),
                    forall|j: int|
                        0 <= j < hits@.len() ==> (#[trigger] hits@[j]).score <= SINGLE_ONE
                            && hits@[j].vector_score == Some(hits@[j].score)
                            && hits@[j].text_score is None,
                decreases vector.len() - i,
            {
                let ghost was = hits.deep_view();
                assert(vector.deep_view()[i as int] == vector@[i as int].deep_view());
                let similarity: u32 = clamp_to_unit(vector[i].2);
                hits.push(
                    Hit {
                        id: vector[i].0.clone(),
                        score: similarity,
                        text_score: None,
                        vector_score: Some(similarity),
                    },
                );
                assert(hits.deep_view() =~= was.push(all[i as int]));
                assert(all.take(i + 1) =~= was.push(all[i as int]));
                i += 1;
            }
            assert(all.take(i as int) =~= all);
            hits
        },
        (Some(text), Some(vector)) => {
            let ghost left = text.deep_view();
            let ghost right = vector.deep_view();
            let terms = fusion_terms(&text, &vector);
            assert(terms.deep_view().len() == terms@.len());
            let fused = rrf(&terms, scores);
            let ghost order = fused.deep_view();
            let ghost all = fused_hits(first_of(order, k), left, right);
            let mut hits: Vec<Hit> = Vec::new();
            let mut i: usize = 0;
            assert(hits.deep_view() =~= all.take(0));
            while i < fused.len() && i < k
                invariant
                    i <= fused.len(),
                    i <= k,
                    left == text.deep_view(),
                    right == vector.deep_view(),
                    order == fused.deep_view(),
                    all == fused_hits(first_of(order, k), left, right),
                    hits.deep_view() == all.take(i as int),
                decreases fused.len() - i,
            {
                let ghost was = hits.deep_view();
                assert(order[i as int] == fused@[i as int].deep_view());
                let id = fused[i].0.clone();
                let text_score = find_score(&text, id.as_str());
                let vector_score = match find_score(&vector, id.as_str()) {
                    Some(bits) => Some(clamp_to_unit(bits)),
                    None => None,
                };
                hits.push(Hit { id, score: fused[i].1, text_score, vector_score });
                assert(hits.deep_view() =~= was.push(all[i as int]));
                assert(all.take(i + 1) =~= was.push(all[i as int]));
                i += 1;
            }
            assert(all.take(i as int) =~= all);
            assert(is_fusion(order, left, right, scores@));
            hits
        },
        (None, None) => Vec::new(),
    }
}

/// With filters, the vector side looks at the documents that carry all of them, and
/// at no other.
pub proof fn law_filters_bind_vectors(model: SemanticModel, ids: Seq<Seq<char>>, id: Seq<char>)
    ensures
        candidate_ids(vectors_among(model, ids)).contains(id) <==> ids.contains(id)
            && model.docs.contains_key(id) && model.docs[id].vector is Some,
    decreases ids.len(),
{
    if ids.len() > 0 {
        let rest = ids.drop_last();
        let before = candidate_ids(vectors_among(model, rest));
        let all = candidate_ids(vectors_among(model, ids));
        law_filters_bind_vectors(model, rest, id);
        let kept = model.docs.contains_key(ids.last()) && model.docs[ids.last()].vector is Some;
        assert(all =~= if kept {
            before.push(ids.last())
        } else {
            before
        });
        if all.contains(id) {
            let k = choose|k: int| 0 <= k < all.len() && all[k] == id;
            if k < before.len() {
                assert(before[k] == id);
                assert(before.contains(id));
                let i = choose|i: int| 0 <= i < rest.len() && rest[i] == id;
                assert(ids[i] == id);
            } else {
                assert(ids[ids.len() - 1] == id);
            }
        }
        if ids.contains(id) && model.docs.contains_key(id) && model.docs[id].vector is Some {
            let i = choose|i: int| 0 <= i < ids.len() && ids[i] == id;
            if i < rest.len() {
                assert(rest[i] == id);
                assert(before.contains(id));
                let k = choose|k: int| 0 <= k < before.len() && before[k] == id;
                assert(all[k] == id);
            } else {
                assert(all[before.len() as int] == id);
            }
        }
    }
}

/// A query is accepted exactly if it asks for at least one hit and its vector, where it has
/// one, is acceptable to the index.
pub proof fn law_queries_are_acceptable(model: SemanticModel, query: QueryModel)
    ensures
        query_error(model, query) is None <==> {
            &&& query.k > 0
            &&& query.vector matches Some(vector) ==> {
                &&& model.config is Some
                &&& vector_error(vector, model.config->0.dimension) is None
            }
        },
{
}

/// A query without a vector asks the graph for nothing. One with a vector and no filters
/// asks it for neighbours; one with filters compares with the vectors of exactly the
/// documents that carry all of them.
pub proof fn law_filtered_queries_compare_exactly(
    model: SemanticModel,
    query: QueryModel,
    id: Seq<char>,
    vector: Seq<u32>,
)
    ensures
        ({
            let plan = plan_of(model, query);
            &&& plan.filter_tokens.len() == query.filters.len()
            &&& query.boosts matches Some(boosts) ==> plan.boosts == boosts
            &&& query.boosts is None ==> plan.boosts == FieldBoosts::usual()
            &&& plan.vector is Absent <==> query.vector is None
            &&& plan.vector is Nearest <==> query.vector is Some && query.filters.len() == 0
            &&& plan.vector matches VectorPlanModel::Exact(candidates) ==> {
                let found = carriers(
                    rows_of::<String, Seq<Seq<char>>>(model.tokens),
                    plan.filter_tokens,
                );
                candidates.contains((id, vector)) <==> found.contains(id) && model.docs.contains_key(
                    id,
                ) && model.docs[id].vector == Some(vector)
            }
        }),
{
    let found = carriers(
        rows_of::<String, Seq<Seq<char>>>(model.tokens),
        tokens_of(query.filters),
    );
    lemma_vectors_among(model, found, id, vector);
}

proof fn lemma_vectors_among(
    model: SemanticModel,
    ids: Seq<Seq<char>>,
    id: Seq<char>,
    vector: Seq<u32>,
)
    ensures
        vectors_among(model, ids).contains((id, vector)) <==> ids.contains(id)
            && model.docs.contains_key(id) && model.docs[id].vector == Some(vector),
    decreases ids.len(),
{
    if ids.len() > 0 {
        let rest = ids.drop_last();
        let before = vectors_among(model, rest);
        let all = vectors_among(model, ids);
        lemma_vectors_among(model, rest, id, vector);
        assert(ids[ids.len() - 1] == ids.last());
        if all.contains((id, vector)) {
            let k = choose|k: int| 0 <= k < all.len() && all[k] == (id, vector);
            if k < before.len() {
                assert(before[k] == (id, vector));
                let j = choose|j: int| 0 <= j < rest.len() && rest[j] == id;
                assert(ids[j] == id);
            }
        }
        if ids.contains(id) && model.docs.contains_key(id) && model.docs[id].vector == Some(
            vector,
        ) {
            if id == ids.last() {
                assert(all[before.len() as int] == (id, vector));
            } else {
                let j = choose|j: int| 0 <= j < ids.len() && ids[j] == id;
                assert(rest[j] == id);
                let k = choose|k: int| 0 <= k < before.len() && before[k] == (id, vector);
                assert(all[k] == (id, vector));
            }
        }
    }
}

/// A ranking gives an identifier the score of its last entry for it, and none where it has
/// no entry.
pub proof fn law_scores_are_those_of_the_ranking(ranking: RankingModel, id: Seq<char>, i: int)
    ensures
        score_in(ranking, id) is Some <==> exists|k: int|
            0 <= k < ranking.len() && (#[trigger] ranking[k]).0 == id,
        0 <= i < ranking.len() && ranking[i].0 == id && (forall|j: int|
            i < j < ranking.len() ==> (#[trigger] ranking[j]).0 != id) ==> score_in(ranking, id)
            == Some(ranking[i].2),
    decreases ranking.len(),
{
    if ranking.len() > 0 {
        let rest = ranking.drop_last();
        law_scores_are_those_of_the_ranking(rest, id, i);
        assert(ranking[ranking.len() - 1] == ranking.last());
        if exists|k: int| 0 <= k < ranking.len() && (#[trigger] ranking[k]).0 == id {
            let k = choose|k: int| 0 <= k < ranking.len() && (#[trigger] ranking[k]).0 == id;
            if k < rest.len() {
                assert(rest[k].0 == id);
            }
        }
        if score_in(rest, id) is Some {
            let k = choose|k: int| 0 <= k < rest.len() && (#[trigger] rest[k]).0 == id;
            assert(ranking[k].0 == id);
        }
        if 0 <= i < rest.len() && ranking[i].0 == id && (forall|j: int|
            i < j < ranking.len() ==> (#[trigger] ranking[j]).0 != id) {
            assert(rest[i] == ranking[i]);
            assert(ranking.last().0 != id);
            assert forall|j: int| i < j < rest.len() implies (#[trigger] rest[j]).0 != id by {
                assert(rest[j] == ranking[j]);
            }
        }
    }
}

/// The hits of one ranking are its entries, in its order: those of the text with the score
/// of the text alone, those of the vector with their similarity alone, brought between zero
/// and one.
pub proof fn law_single_rankings_become_hits(ranking: RankingModel, i: int)
    requires
        0 <= i < ranking.len(),
    ensures
        text_hits(ranking).len() == ranking.len(),
        text_hits(ranking)[i].id == ranking[i].0,
        text_hits(ranking)[i].score == ranking[i].2,
        text_hits(ranking)[i].text_score == Some(ranking[i].2),
        text_hits(ranking)[i].vector_score is None,
        vector_hits(ranking).len() == ranking.len(),
        vector_hits(ranking)[i].id == ranking[i].0,
        vector_hits(ranking)[i].text_score is None,
        vector_hits(ranking)[i].vector_score == Some(vector_hits(ranking)[i].score),
        vector_hits(ranking)[i].score <= SINGLE_ONE,
        ranking[i].2 <= SINGLE_ONE ==> vector_hits(ranking)[i].score == ranking[i].2,
{
}

/// Hits that two rankings make come from one of them at least; each has the text's score
/// exactly if the text found it, and a similarity exactly if the vector did. At most `k` are
/// kept, no document comes twice, and none has a higher fused score than one before it.
pub proof fn law_fused_hits_come_from_the_rankings(
    fused: Seq<(Seq<char>, u32)>,
    text: RankingModel,
    vector: RankingModel,
    scores: Seq<u32>,
    k: usize,
    i: int,
)
    requires
        is_fusion(fused, text, vector, scores),
        scores.len() == terms_of(entries_of(text, vector)).len(),
        0 <= i < fused_hits(first_of(fused, k), text, vector).len(),
    ensures
        ({
            let hits = fused_hits(first_of(fused, k), text, vector);
            let hit = hits[i];
            &&& hits.len() <= k
            &&& hit.text_score is Some <==> exists|a: int|
                0 <= a < text.len() && (#[trigger] text[a]).0 == hit.id
            &&& hit.vector_score is Some <==> exists|a: int|
                0 <= a < vector.len() && (#[trigger] vector[a]).0 == hit.id
            &&& hit.text_score is Some || hit.vector_score is Some
            &&& forall|j: int| i < j < hits.len() ==> (#[trigger] hits[j]).id != hit.id
            &&& forall|j: int|
                i < j < hits.len() ==> !single_below(hit.score, (#[trigger] hits[j]).score)
        }),
{
    let entries = entries_of(text, vector);
    let terms = terms_of(entries);
    let all = scored(term_ids(terms), scores);
    let shown = first_of(fused, k);
    let hits = fused_hits(shown, text, vector);
    let hit = hits[i];
    law_fusion_keeps_every_document(entries);
    law_scores_are_those_of_the_ranking(text, hit.id, 0);
    law_scores_are_those_of_the_ranking(vector, hit.id, 0);
    assert(fused[i] == (hit.id, hit.score));
    lemma_occurrences_absent(fused, fused[i]);
    assert(fused.contains(fused[i]));
    assert(occurrences(fused, fused[i]) == occurrences(all, fused[i]));
    lemma_occurrences_absent(all, fused[i]);
    let t = choose|t: int| 0 <= t < all.len() && all[t] == fused[i];
    assert(term_ids(terms)[t] == hit.id);
    assert(term_ids(terms).contains(hit.id));
    let e = choose|e: int| 0 <= e < all_ids(entries).len() && all_ids(entries)[e] == hit.id;
    if e < text.len() {
        assert(text[e].0 == hit.id);
    } else {
        assert(vector[e - text.len()].0 == hit.id);
    }
    assert forall|j: int| i < j < hits.len() implies (#[trigger] hits[j]).id != hit.id by {
        if hits[j].id == hit.id {
            lemma_fused_once(fused, all, i, j);
        }
    }
    assert forall|j: int| i < j < hits.len() implies !single_below(
        hit.score,
        (#[trigger] hits[j]).score,
    ) by {
        law_the_best_come_first(fused, i, j);
    }
}

proof fn lemma_fused_once(
    fused: Seq<(Seq<char>, u32)>,
    all: Seq<(Seq<char>, u32)>,
    i: int,
    j: int,
)
    requires
        same_elements(fused, all),
        forall|a: int, b: int| 0 <= a < b < all.len() ==> (#[trigger] all[a]).0 != (
        #[trigger] all[b]).0,
        0 <= i < j < fused.len(),
    ensures
        fused[i].0 != fused[j].0,
{
    let x = fused[i];
    let y = fused[j];
    lemma_occurrences_absent(fused, x);
    lemma_occurrences_absent(fused, y);
    assert(fused.contains(x) && fused.contains(y));
    assert(occurrences(fused, x) == occurrences(all, x));
    assert(occurrences(fused, y) == occurrences(all, y));
    lemma_occurrences_absent(all, x);
    lemma_occurrences_absent(all, y);
    let a = choose|a: int| 0 <= a < all.len() && all[a] == x;
    let b = choose|b: int| 0 <= b < all.len() && all[b] == y;
    if x.0 == y.0 {
        assert(a == b);
        assert(all.no_duplicates()) by {
            assert forall|c: int, d: int| 0 <= c < all.len() && 0 <= d < all.len() && c
                != d implies all[c] != all[d] by {
                if c < d {
                    assert(all[c].0 != all[d].0);
                } else {
                    assert(all[d].0 != all[c].0);
                }
            }
        }
        lemma_occurrences_once(all, x);
        lemma_twice(fused, i, j);
    }
}

proof fn lemma_twice(items: Seq<(Seq<char>, u32)>, i: int, j: int)
    requires
        0 <= i < j < items.len(),
        items[i] == items[j],
    ensures
        occurrences(items, items[i]) >= 2,
    decreases items.len(),
{
    let rest = items.drop_last();
    if j < rest.len() {
        lemma_twice(rest, i, j);
        assert(rest[i] == items[i]);
    } else {
        assert(rest[i] == items[i]);
        assert(rest.contains(items[i]));
        lemma_occurrences_absent(rest, items[i]);
    }
}

/// A fused hit has the score that was computed for its own ranks.
pub proof fn law_fused_scores_are_their_own(
    fused: Seq<(Seq<char>, u32)>,
    text: RankingModel,
    vector: RankingModel,
    scores: Seq<u32>,
    k: usize,
    i: int,
)
    requires
        is_fusion(fused, text, vector, scores),
        scores.len() == terms_of(entries_of(text, vector)).len(),
        0 <= i < fused_hits(first_of(fused, k), text, vector).len(),
    ensures
        exists|t: int|
            0 <= t < scores.len() && (#[trigger] terms_of(entries_of(text, vector))[t]).0
                == fused_hits(first_of(fused, k), text, vector)[i].id && scores[t] == fused_hits(
                first_of(fused, k),
                text,
                vector,
            )[i].score,
{
    let terms = terms_of(entries_of(text, vector));
    let all = scored(term_ids(terms), scores);
    lemma_occurrences_absent(fused, fused[i]);
    assert(fused.contains(fused[i]));
    assert(occurrences(fused, fused[i]) == occurrences(all, fused[i]));
    lemma_occurrences_absent(all, fused[i]);
    let t = choose|t: int| 0 <= t < all.len() && all[t] == fused[i];
    assert(terms[t].0 == fused[i].0);
}

} // verus!
