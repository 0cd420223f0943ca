//! The bookkeeping of the vector index.
//!
//! The neighbour graph knows vectors by internal numbers; it cannot forget one. A
//! vector that is replaced or deleted leaves a tombstone, and results are freed of
//! tombstones here. The graph can always be rebuilt from the stored vectors.

use crate::bits::{is_finite, is_zero, single_finite, single_magnitude};
use crate::index::error::{IndexError, IndexErrorModel};
use crate::sorted::SortedMap;
use crate::text::{decimal, join3, usize_text};
use std::collections::HashSet;
use vstd::prelude::*;

verus! {

broadcast use vstd::std_specs::hash::group_hash_axioms;

pub const MAX_VECTOR_DIMENSION: usize = 65_536;

/// How many tombstones there must be before the graph is compacted.
pub const COMPACT_AT: usize = 1_024;

/// Why a vector is refused. A vector has length zero exactly if all its coordinates
/// are zero: the square of any other coordinate is not zero in double precision.
pub open spec fn vector_error(vector: Seq<u32>, expected: usize) -> Option<IndexErrorModel> {
    if vector.len() != expected {
        Some(IndexErrorModel::DimensionMismatch { expected, got: vector.len() as usize })
    } else {
        match first_unbounded(vector, vector.len()) {
            Some(index) => Some(
                IndexErrorModel::InvalidVector(
                    "coordinate "@ + decimal(index) + " is not finite"@,
                ),
            ),
            None => if forall|i: int|
                0 <= i < vector.len() ==> single_magnitude(#[trigger] vector[i]) == 0 {
                Some(IndexErrorModel::InvalidVector("vector norm must be greater than zero"@))
            } else {
                None
            },
        }
    }
}

/// The first of the first `n` coordinates that is not a finite number.
pub open spec fn first_unbounded(vector: Seq<u32>, n: nat) -> Option<nat>
    decreases n,
{
    if n == 0 {
        None
    } else {
        match first_unbounded(vector, (n - 1) as nat) {
            Some(index) => Some(index),
            None => if single_finite(vector[n - 1]) {
                None
            } else {
                Some((n - 1) as nat)
            },
        }
    }
}

proof fn lemma_first_unbounded(vector: Seq<u32>, n: nat, m: nat)
    requires
        n <= m,
        first_unbounded(vector, n) is Some,
    ensures
        first_unbounded(vector, m) == first_unbounded(vector, n),
    decreases m,
{
    if n < m {
        lemma_first_unbounded(vector, n, (m - 1) as nat);
    }
}

/// Checks a vector: it has the expected dimension, all coordinates are finite and
/// one of them is not zero.
pub fn validate_vector(vector: &Vec<u32>, expected_dimension: usize) -> (r: Result<
    (),
    IndexError,
>)
    ensures
        match r {
            Ok(_) => vector_error(vector@, expected_dimension) is None,
            Err(error) => vector_error(vector@, expected_dimension) == Some(error.deep_view()),
        },
{
    if vector.len() != expected_dimension {
        return Err(
            IndexError::DimensionMismatch { expected: expected_dimension, got: vector.len() },
        );
    }
    let mut zero: bool = true;
    let mut i: usize = 0;
    while i < vector.len()
        invariant
            i <= vector.len(),
            vector.len() == expected_dimension,
            first_unbounded(vector@, i as nat) is None,
            zero == forall|j: int|
                0 <= j < i ==> single_magnitude(#[trigger] vector@[j]) == 0,
        decreases vector.len() - i,
    {
        assert((i + 1 - 1) as nat == i as nat);
        if !is_finite(vector[i]) {
            proof {
                lemma_first_unbounded(vector@, (i + 1) as nat, vector@.len());
            }
            return Err(
                IndexError::InvalidVector(
                    join3("coordinate ", usize_text(i).as_str(), " is not finite"),
                ),
            );
        }
        if !is_zero(vector[i]) {
            assert(single_magnitude(vector@[i as int]) != 0);
            zero = false;
        }
        i += 1;
    }
    if zero {
        return Err(
            IndexError::InvalidVector("vector norm must be greater than zero".to_owned()),
        );
    }
    Ok(())
}

/// A vector for the graph, under its internal number.
#[derive(Debug, PartialEq)]
pub struct Placed {
    pub number: usize,
    pub vector: Vec<u32>,
}

/// The vectors that have been given to the graph.
pub struct VectorIndex {
    /// The document of every internal number.
    ids: Vec<String>,
    /// The internal number of every live document.
    latest: SortedMap<String, usize>,
    /// The internal numbers of tombstones.
    deleted: HashSet<usize>,
    dimension: usize,
}

#[verifier::ext_equal]
pub struct GraphModel {
    pub ids: Seq<Seq<char>>,
    pub latest: Map<Seq<char>, usize>,
    pub deleted: Set<usize>,
    pub dimension: usize,
}

impl DeepView for VectorIndex {
    type V = GraphModel;

    closed spec fn deep_view(&self) -> GraphModel {
        GraphModel {
            ids: self.ids.deep_view(),
            latest: self.latest.deep_view(),
            deleted: self.deleted@,
            dimension: self.dimension,
        }
    }
}

impl GraphModel {
    /// A graph without vectors.
    pub open spec fn blank(dimension: usize) -> GraphModel {
        GraphModel {
            ids: Seq::empty(),
            latest: Map::empty(),
            deleted: Set::empty(),
            dimension,
        }
    }

    /// The internal number stands for a live document.
    pub open spec fn is_live(self, number: int) -> bool {
        0 <= number < self.ids.len() && !self.deleted.contains(number as usize)
    }

    /// Every internal number is either the latest of its document or a tombstone.
    pub open spec fn is_valid(self) -> bool {
        &&& forall|id: Seq<char>| #[trigger]
            self.latest.contains_key(id) ==> self.is_live(self.latest[id] as int)
                && self.ids[self.latest[id] as int] == id
        &&& forall|number: int| #[trigger]
            self.is_live(number) ==> self.latest.contains_key(self.ids[number])
                && self.latest[self.ids[number]] == number
        &&& forall|number: usize| #[trigger]
            self.deleted.contains(number) ==> number < self.ids.len()
    }

    /// The graph once a document has a new vector.
    pub open spec fn inserted(self, id: Seq<char>) -> GraphModel {
        GraphModel {
            ids: self.ids.push(id),
            latest: self.latest.insert(id, self.ids.len() as usize),
            deleted: if self.latest.contains_key(id) {
                self.deleted.insert(self.latest[id])
            } else {
                self.deleted
            },
            dimension: self.dimension,
        }
    }

    /// The graph once a document has no vector.
    pub open spec fn removed(self, id: Seq<char>) -> GraphModel {
        if self.latest.contains_key(id) {
            GraphModel {
                latest: self.latest.remove(id),
                deleted: self.deleted.insert(self.latest[id]),
                ..self
            }
        } else {
            self
        }
    }

    /// The graph that holds exactly these documents, in this order.
    pub open spec fn rebuilt(dimension: usize, ids: Seq<Seq<char>>) -> GraphModel
        decreases ids.len(),
    {
        if ids.len() == 0 {
            GraphModel::blank(dimension)
        } else {
            GraphModel::rebuilt(dimension, ids.drop_last()).inserted(ids.last())
        }
    }

    /// There are many tombstones, and at least one for three live vectors.
    pub open spec fn wants_compaction(self) -> bool {
        self.deleted.len() >= COMPACT_AT && self.deleted.len() * 4 >= self.ids.len()
    }

    /// The live ones among the first `n` neighbours that the graph found.
    pub open spec fn live_among(self, found: Seq<(usize, u32)>, n: nat) -> Seq<(Seq<char>, u32)>
        decreases n,
    {
        if n == 0 {
            Seq::empty()
        } else {
            let before = self.live_among(found, (n - 1) as nat);
            if self.is_live(found[n - 1].0 as int) {
                before.push((self.ids[found[n - 1].0 as int], found[n - 1].1))
            } else {
                before
            }
        }
    }
}

/// A ranking: identifiers with their scores, ranked from one.
pub open spec fn ranked(scored: Seq<(Seq<char>, u32)>) -> Seq<(Seq<char>, usize, u32)> {
    Seq::new(scored.len(), |i: int| (scored[i].0, (i + 1) as usize, scored[i].1))
}

/// The first `k` of a sequence.
pub open spec fn first_of<A>(items: Seq<A>, k: usize) -> Seq<A> {
    if items.len() <= k {
        items
    } else {
        items.take(k as int)
    }
}

/// How many neighbours to ask the graph for, and how widely it shall look: four times
/// as many as wanted, or the tombstones on top where those are more.
pub open spec fn search_width(k: usize, tombstones: nat) -> (int, int) {
    let fourfold = if k * 4 > usize::MAX {
        usize::MAX as int
    } else {
        k * 4
    };
    let on_top = if k + tombstones > usize::MAX {
        usize::MAX as int
    } else {
        k + tombstones
    };
    let want = if fourfold > on_top {
        fourfold
    } else {
        on_top
    };
    (
        want,
        if want > 50 {
            want
        } else {
            50
        },
    )
}

impl VectorIndex {
    pub fn new(dimension: usize) -> (r: Self)
        ensures
            r.deep_view() == GraphModel::blank(dimension),
            r.deep_view().is_valid(),
    {
        let ids: Vec<String> = Vec::new();
        assert(ids.deep_view() =~= Seq::empty());
        VectorIndex { ids, latest: SortedMap::new(), deleted: HashSet::new(), dimension }
    }

    /// Gives a document a new vector, under the internal number that is returned.
    pub fn insert(&mut self, id: String, vector: &Vec<u32>) -> (r: Result<usize, IndexError>)
        requires
            old(self).deep_view().is_valid(),
        ensures
            final(self).deep_view().is_valid(),
            match r {
                Ok(number) => {
                    &&& vector_error(vector@, old(self).deep_view().dimension) is None
                    &&& number == old(self).deep_view().ids.len()
                    &&& final(self).deep_view() == old(self).deep_view().inserted(id@)
                },
                Err(error) => {
                    &&& vector_error(vector@, old(self).deep_view().dimension) == Some(
                        error.deep_view(),
                    )
                    &&& final(self).deep_view() == old(self).deep_view()
                },
            },
    {
        validate_vector(vector, self.dimension)?;
        Ok(self.place(id))
    }

    fn place(&mut self, id: String) -> (r: usize)
        requires
            old(self).deep_view().is_valid(),
        ensures
            final(self).deep_view().is_valid(),
            r == old(self).deep_view().ids.len(),
            final(self).deep_view() == old(self).deep_view().inserted(id@),
    {
        let ghost before = self.deep_view();
        let number: usize = self.ids.len();
        let last: Option<usize> = match self.latest.get(&id) {
            Some(number) => Some(*number),
            None => None,
        };
        if let Some(replaced) = last {
            self.deleted.insert(replaced);
        }
        self.latest.insert(id.clone(), number);
        self.ids.push(id);
        proof {
            let after = self.deep_view();
            assert(after.ids =~= before.ids.push(id@));
            assert(after =~= before.inserted(id@));
            lemma_inserted_valid(before, id@);
        }
        number
    }

    /// Takes a document's vector away; says whether it had one.
    pub fn delete(&mut self, id: &str) -> (r: bool)
        requires
            old(self).deep_view().is_valid(),
        ensures
            final(self).deep_view().is_valid(),
            r == old(self).deep_view().latest.contains_key(id@),
            final(self).deep_view() == old(self).deep_view().removed(id@),
    {
        let ghost before = self.deep_view();
        match self.latest.remove(&id.to_owned()) {
            Some(number) => {
                self.deleted.insert(number);
                proof {
                    assert(self.deep_view() =~= before.removed(id@));
                    lemma_removed_valid(before, id@);
                }
                true
            },
            None => {
                assert(self.deep_view() =~= before);
                false
            },
        }
    }

    /// Forgets all vectors.
    pub fn clear(&mut self)
        ensures
            final(self).deep_view() == GraphModel::blank(old(self).deep_view().dimension),
            final(self).deep_view().is_valid(),
    {
        *self = VectorIndex::new(self.dimension);
    }

    /// What to ask the graph for: how many neighbours, and how widely to look.
    pub fn plan_search(&self, vector: &Vec<u32>, k: usize) -> (r: Result<(usize, usize), IndexError>)
        ensures
            match r {
                Ok((want, ef)) => {
                    &&& vector_error(vector@, self.deep_view().dimension) is None
                    &&& k > 0
                    &&& (want as int, ef as int) == search_width(k, self.deep_view().deleted.len())
                },
                Err(error) => match vector_error(vector@, self.deep_view().dimension) {
                    Some(cause) => error.deep_view() == cause,
                    None => k == 0 && error.deep_view() == IndexErrorModel::InvalidVector(
                        "k must be greater than zero"@,
                    ),
                },
            },
    {
        validate_vector(vector, self.dimension)?;
        if k == 0 {
            return Err(IndexError::InvalidVector("k must be greater than zero".to_owned()));
        }
        let tombstones: usize = self.deleted.len();
        let fourfold: usize = if k > usize::MAX / 4 {
            usize::MAX
        } else {
            k * 4
        };
        let on_top: usize = if tombstones > usize::MAX - k {
            usize::MAX
        } else {
            k + tombstones
        };
        let want: usize = if fourfold > on_top {
            fourfold
        } else {
            on_top
        };
        let ef: usize = if want > 50 {
            want
        } else {
            50
        };
        Ok((want, ef))
    }

    /// The ranking that the graph's neighbours make, nearest first: tombstones are left
    /// out, and at most `k` are kept. Neighbours come with their similarity.
    pub fn collect(&self, neighbors: &Vec<(usize, u32)>, k: usize) -> (r: Vec<(String, usize, u32)>)
        requires
            k > 0,
        ensures
            r.deep_view() == ranked(
                first_of(
                    self.deep_view().live_among(neighbors@, neighbors@.len()),
                    k,
                ),
            ),
    {
        let ghost model = self.deep_view();
        let ghost all = model.live_among(neighbors@, neighbors@.len());
        let mut results: Vec<(String, usize, u32)> = Vec::new();
        let mut i: usize = 0;
        assert(results.deep_view() =~= ranked(model.live_among(neighbors@, 0)));
        while i < neighbors.len()
            invariant
                i <= neighbors.len(),
                model == self.deep_view(),
                all == model.live_among(neighbors@, neighbors@.len()),
                results@.len() < k,
                results.deep_view() == ranked(model.live_among(neighbors@, i as nat)),
            decreases neighbors.len() - i,
        {
            let ghost was = results.deep_view();
            let ghost before = model.live_among(neighbors@, i as nat);
            let number: usize = neighbors[i].0;
            let buried: bool = self.deleted.contains(&number);
            assert((i + 1 - 1) as nat == i as nat);
            if !buried && number < self.ids.len() {
                let rank: usize = results.len() + 1;
                results.push((self.ids[number].clone(), rank, neighbors[i].1));
                proof {
                    assert(model.ids[number as int] == self.ids@[number as int]@);
                    assert(results.deep_view() =~= was.push(
                        (model.ids[number as int], rank, neighbors@[i as int].1),
                    ));
                    assert(results.deep_view() =~= ranked(
                        model.live_among(neighbors@, (i + 1) as nat),
                    ));
                }
                if results.len() == k {
                    proof {
                        lemma_live_prefix(model, neighbors@, (i + 1) as nat, neighbors@.len());
                        assert(first_of(all, k) =~= model.live_among(neighbors@, (i + 1) as nat));
                    }
                    return results;
                }
            }
            i += 1;
        }
        assert(first_of(all, k) == all);
        results
    }

    /// Whether there are so many tombstones that the graph should be rebuilt.
    pub fn should_compact(&self) -> (r: bool)
        ensures
            r == self.deep_view().wants_compaction(),
    {
        let tombstones: usize = self.deleted.len();
        let total: usize = self.ids.len();
        tombstones >= COMPACT_AT && (tombstones > usize::MAX / 4 || tombstones * 4 >= total)
    }

    /// The number of live vectors and of tombstones.
    pub fn stats(&self) -> (r: (usize, usize))
        ensures
            r.0 == self.deep_view().latest.len(),
            r.1 == self.deep_view().deleted.len(),
    {
        let live: usize = self.latest.len();
        let dead: usize = self.deleted.len();
        proof {
            crate::sorted::lemma_map_len::<String, usize>(self.latest.pairs());
        }
        (live, dead)
    }
}

proof fn lemma_inserted_valid(graph: GraphModel, id: Seq<char>)
    requires
        graph.is_valid(),
        graph.ids.len() <= usize::MAX,
    ensures
        graph.inserted(id).is_valid(),
{
    let after = graph.inserted(id);
    let n = graph.ids.len() as int;
    assert(after.ids[n] == id);
    assert(!graph.deleted.contains(n as usize));
    assert(after.is_live(n)) by {
        if graph.latest.contains_key(id) {
            assert(graph.is_live(graph.latest[id] as int));
        }
    }
    assert forall|other: Seq<char>| #[trigger] after.latest.contains_key(
        other,
    ) implies after.is_live(after.latest[other] as int) && after.ids[after.latest[other] as int]
        == other by {
        if other != id {
            assert(graph.latest.contains_key(other));
            let number = graph.latest[other] as int;
            assert(graph.is_live(number));
            if graph.latest.contains_key(id) {
                assert(graph.ids[graph.latest[id] as int] == id);
            }
        }
    }
    assert forall|number: int| #[trigger] after.is_live(number) implies after.latest.contains_key(
        after.ids[number],
    ) && after.latest[after.ids[number]] == number by {
        if number != n {
            assert(graph.is_live(number));
        }
    }
}

proof fn lemma_removed_valid(graph: GraphModel, id: Seq<char>)
    requires
        graph.is_valid(),
        graph.latest.contains_key(id),
    ensures
        graph.removed(id).is_valid(),
{
    let after = graph.removed(id);
    let gone = graph.latest[id] as int;
    assert(graph.is_live(gone) && graph.ids[gone] == id);
    assert forall|other: Seq<char>| #[trigger] after.latest.contains_key(
        other,
    ) implies after.is_live(after.latest[other] as int) && after.ids[after.latest[other] as int]
        == other by {
        assert(graph.latest.contains_key(other));
        assert(graph.is_live(graph.latest[other] as int));
    }
    assert forall|number: int| #[trigger] after.is_live(number) implies after.latest.contains_key(
        after.ids[number],
    ) && after.latest[after.ids[number]] == number by {
        assert(graph.is_live(number));
    }
}

proof fn lemma_live_prefix(graph: GraphModel, found: Seq<(usize, u32)>, n: nat, m: nat)
    requires
        n <= m,
    ensures
        graph.live_among(found, n).is_prefix_of(graph.live_among(found, m)),
    decreases m,
{
    if n < m {
        lemma_live_prefix(graph, found, n, (m - 1) as nat);
    }
}

/// A vector is acceptable exactly if it has the right number of coordinates, all of them
/// finite, and one that is not zero.
pub proof fn law_vectors_are_acceptable(vector: Seq<u32>, expected: usize)
    ensures
        vector_error(vector, expected) is None <==> {
            &&& vector.len() == expected
            &&& forall|i: int|
                0 <= i < vector.len() ==> single_magnitude(#[trigger] vector[i]) < 0x7f80_0000
            &&& exists|i: int|
                0 <= i < vector.len() && single_magnitude(#[trigger] vector[i]) != 0
        },
        vector_error(vector, expected) matches Some(IndexErrorModel::DimensionMismatch {
            expected: wanted,
            got,
        }) ==> wanted == expected && vector.len() != expected,
{
    lemma_unbounded_place(vector, vector.len());
}

proof fn lemma_unbounded_place(vector: Seq<u32>, n: nat)
    requires
        n <= vector.len(),
    ensures
        match first_unbounded(vector, n) {
            Some(index) => index < n && single_magnitude(vector[index as int]) >= 0x7f80_0000
                && forall|i: int|
                0 <= i < index ==> single_magnitude(#[trigger] vector[i]) < 0x7f80_0000,
            None => forall|i: int|
                0 <= i < n ==> single_magnitude(#[trigger] vector[i]) < 0x7f80_0000,
        },
    decreases n,
{
    if n > 0 {
        lemma_unbounded_place(vector, (n - 1) as nat);
    }
}

/// A new vector gets a new number; the number that its document had becomes a tombstone,
/// and every other document keeps its own.
pub proof fn law_inserting_replaces(graph: GraphModel, id: Seq<char>, other: Seq<char>)
    requires
        graph.is_valid(),
        graph.ids.len() < usize::MAX,
        other != id,
    ensures
        graph.inserted(id).is_valid(),
        graph.inserted(id).ids == graph.ids.push(id),
        graph.inserted(id).latest.contains_key(id),
        graph.inserted(id).latest[id] == graph.ids.len(),
        !graph.deleted.contains(graph.ids.len() as usize),
        graph.latest.contains_key(id) ==> graph.inserted(id).deleted.contains(graph.latest[id]),
        forall|number: usize| #[trigger]
            graph.deleted.contains(number) ==> graph.inserted(id).deleted.contains(number),
        graph.inserted(id).latest.contains_key(other) == graph.latest.contains_key(other),
        graph.latest.contains_key(other) ==> graph.inserted(id).latest[other]
            == graph.latest[other],
        graph.inserted(id).dimension == graph.dimension,
{
    let after = graph.inserted(id);
    let n = graph.ids.len() as int;
    assert(!graph.deleted.contains(n as usize));
    assert forall|name: Seq<char>| #[trigger] after.latest.contains_key(name) implies after.is_live(
        after.latest[name] as int,
    ) && after.ids[after.latest[name] as int] == name by {
        if name != id {
            assert(graph.latest.contains_key(name));
            assert(graph.is_live(graph.latest[name] as int));
            if graph.latest.contains_key(id) && graph.latest[id] == graph.latest[name] {
                assert(graph.ids[graph.latest[id] as int] == id);
            }
        }
    }
    assert forall|number: int| #[trigger] after.is_live(number) implies after.latest.contains_key(
        after.ids[number],
    ) && after.latest[after.ids[number]] == number by {
        if number < n {
            assert(graph.is_live(number));
            if graph.ids[number] == id {
                assert(graph.latest[id] == number);
            }
        }
    }
    assert forall|number: usize| #[trigger] after.deleted.contains(number) implies number
        < after.ids.len() by {
        if graph.latest.contains_key(id) && number == graph.latest[id] {
            assert(graph.is_live(graph.latest[id] as int));
        }
    }
}

/// A document that is removed is found no more, its number becomes a tombstone, and every
/// other document keeps its own.
pub proof fn law_removing_buries(graph: GraphModel, id: Seq<char>, other: Seq<char>)
    requires
        graph.is_valid(),
        other != id,
    ensures
        !graph.removed(id).latest.contains_key(id),
        graph.removed(id).ids == graph.ids,
        graph.latest.contains_key(id) ==> graph.removed(id).deleted == graph.deleted.insert(
            graph.latest[id],
        ),
        !graph.latest.contains_key(id) ==> graph.removed(id) == graph,
        graph.removed(id).latest.contains_key(other) == graph.latest.contains_key(other),
        graph.latest.contains_key(other) ==> graph.removed(id).latest[other]
            == graph.latest[other],
{
}

/// Of the neighbours that the graph finds, those that stand for a document are kept, each
/// under its document's name and with its similarity, in the order in which they were
/// found; tombstones are left out.
pub proof fn law_tombstones_are_left_out(graph: GraphModel, found: Seq<(usize, u32)>)
    ensures
        ({
            let kept = found.filter(
                |neighbor: (usize, u32)|
                    neighbor.0 < graph.ids.len() && !graph.deleted.contains(neighbor.0),
            );
            let live = graph.live_among(found, found.len());
            &&& live.len() == kept.len()
            &&& forall|k: int|
                0 <= k < kept.len() ==> (#[trigger] live[k]).0 == graph.ids[kept[k].0 as int]
                    && live[k].1 == kept[k].1
        }),
{
    lemma_live_kept(graph, found, found.len());
    assert(found.take(found.len() as int) =~= found);
}

proof fn lemma_live_kept(graph: GraphModel, found: Seq<(usize, u32)>, n: nat)
    requires
        n <= found.len(),
    ensures
        ({
            let kept = found.take(n as int).filter(
                |neighbor: (usize, u32)|
                    neighbor.0 < graph.ids.len() && !graph.deleted.contains(neighbor.0),
            );
            let live = graph.live_among(found, n);
            &&& live.len() == kept.len()
            &&& forall|k: int|
                0 <= k < kept.len() ==> (#[trigger] live[k]).0 == graph.ids[kept[k].0 as int]
                    && live[k].1 == kept[k].1
        }),
    decreases n,
{
    let keep = |neighbor: (usize, u32)|
        neighbor.0 < graph.ids.len() && !graph.deleted.contains(neighbor.0);
    reveal(Seq::filter);
    if n > 0 {
        lemma_live_kept(graph, found, (n - 1) as nat);
        let part = found.take(n - 1);
        assert(found.take(n as int) =~= part.push(found[n - 1]));
        crate::lists::lemma_filter_push(part, found[n - 1], keep);
    }
}

/// A ranking ranks from one on, in the order of its items, and keeps at most `k` of them.
pub proof fn law_rankings_count_from_one(items: Seq<(Seq<char>, u32)>, k: usize, i: int)
    requires
        items.len() <= usize::MAX,
    ensures
        ranked(first_of(items, k)).len() == vstd::math::min(items.len() as int, k as int),
        0 <= i < ranked(first_of(items, k)).len() ==> ranked(first_of(items, k))[i] == (
            items[i].0,
            (i + 1) as usize,
            items[i].1,
        ),
{
}

/// The graph is asked for at least four times as many neighbours as wanted, and for the
/// tombstones on top, as far as numbers go, and looks at least fifty wide.
pub proof fn law_searches_look_past_tombstones(k: usize, tombstones: nat)
    ensures
        ({
            let (want, ef) = search_width(k, tombstones);
            let bound = usize::MAX as int;
            &&& want == vstd::math::min(vstd::math::max(4 * k, k + tombstones), bound)
            &&& ef == vstd::math::max(want, 50)
        }),
{
}

/// A graph is compacted exactly if it has at least 1024 tombstones and these are at least a
/// quarter of its numbers.
pub proof fn law_many_tombstones_are_compacted(graph: GraphModel)
    ensures
        graph.wants_compaction() <==> graph.deleted.len() >= 1024 && 4 * graph.deleted.len()
            >= graph.ids.len(),
{
}

} // verus!
