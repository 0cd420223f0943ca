//! Fusion of rankings.

use crate::bits::{is_below, single_below, single_magnitude, SINGLE_SIGN};
use crate::lists::{
    first_seen, lemma_first_seen, lemma_occurrences_add, lemma_occurrences_push, occurrences,
};
use crate::sorted::Replica;
use crate::text::{text_less, text_lt, text_lt_irreflexive, text_lt_transitive, text_same};
use vstd::prelude::*;

verus! {

/// A number's place in the total order of all bit patterns, in which the negative
/// zero comes before the positive one and what is no number has a place too.
pub open spec fn total_rank(bits: u32) -> int {
    if bits >= SINGLE_SIGN {
        -single_magnitude(bits) - 1
    } else {
        single_magnitude(bits)
    }
}

/// Whether `a` comes before `b` in the total order of all bit patterns.
pub fn totally_below(a: u32, b: u32) -> (r: bool)
    ensures
        r == (total_rank(a) < total_rank(b)),
{
    if a >= SINGLE_SIGN {
        if b >= SINGLE_SIGN {
            b < a
        } else {
            true
        }
    } else {
        b < SINGLE_SIGN && a < b
    }
}

/// How scored items are ordered.
#[derive(Clone, Copy, Debug, PartialEq, Eq, Structural)]
pub enum Criterion {
    /// By score, highest first.
    Score,
    /// By score in the total order, highest first, then by identifier.
    ScoreThenId,
}

/// `a` must come before `b`.
pub open spec fn beats(by: Criterion, a: (Seq<char>, u32), b: (Seq<char>, u32)) -> bool {
    match by {
        Criterion::Score => single_below(b.1, a.1),
        Criterion::ScoreThenId => total_rank(b.1) < total_rank(a.1) || (total_rank(b.1)
            == total_rank(a.1) && text_lt(a.0, b.0)),
    }
}

/// Nothing comes after something that it must come before.
pub open spec fn in_order(by: Criterion, items: Seq<(Seq<char>, u32)>) -> bool {
    forall|i: int, j: int|
        0 <= i < j < items.len() ==> !beats(by, #[trigger] items[j], #[trigger] items[i])
}

/// Two sequences have the same elements, each as often.
pub open spec fn same_elements<A>(a: Seq<A>, b: Seq<A>) -> bool {
    forall|x: A| #[trigger] occurrences(a, x) == occurrences(b, x)
}

fn is_beating(by: Criterion, a: &(String, u32), b: &(String, u32)) -> (r: bool)
    ensures
        r == beats(by, a.deep_view(), b.deep_view()),
{
    match by {
        Criterion::Score => is_below(b.1, a.1),
        Criterion::ScoreThenId => totally_below(b.1, a.1) || (!totally_below(a.1, b.1)
            && text_less(a.0.as_str(), b.0.as_str())),
    }
}

proof fn lemma_beats(
    by: Criterion,
    a: (Seq<char>, u32),
    b: (Seq<char>, u32),
    c: (Seq<char>, u32),
)
    requires
        beats(by, a, b),
    ensures
        !beats(by, b, a),
        beats(by, b, c) ==> beats(by, a, c),
{
    if by == Criterion::ScoreThenId {
        if text_lt(a.0, b.0) && text_lt(b.0, a.0) {
            text_lt_transitive(a.0, b.0, a.0);
            text_lt_irreflexive(a.0);
        }
        if text_lt(a.0, b.0) && text_lt(b.0, c.0) {
            text_lt_transitive(a.0, b.0, c.0);
        }
    }
}

/// Puts scored items in order.
pub fn sort_scored(by: Criterion, items: Vec<(String, u32)>) -> (r: Vec<(String, u32)>)
    ensures
        in_order(by, r.deep_view()),
        same_elements(r.deep_view(), items.deep_view()),
        r@.len() == items@.len(),
{
    let ghost all = items.deep_view();
    let mut out: Vec<(String, u32)> = Vec::new();
    let mut i: usize = 0;
    assert(all.take(0) =~= Seq::empty());
    assert(out.deep_view() =~= Seq::empty());
    while i < items.len()
        invariant
            i <= items.len(),
            all == items.deep_view(),
            out@.len() == i,
            in_order(by, out.deep_view()),
            same_elements(out.deep_view(), all.take(i as int)),
        decreases items.len() - i,
    {
        let ghost before = out.deep_view();
        let item = items[i].replica();
        let ghost x = item.deep_view();
        let mut at: usize = 0;
        while at < out.len() && !is_beating(by, &item, &out[at])
            invariant
                at <= out@.len(),
                before == out.deep_view(),
                x == item.deep_view(),
                forall|j: int| 0 <= j < at ==> !beats(by, x, #[trigger] before[j]),
            decreases out@.len() - at,
        {
            assert(before[at as int] == out@[at as int].deep_view());
            at += 1;
        }
        proof {
            if at < before.len() {
                assert(before[at as int] == out@[at as int].deep_view());
            }
        }
        out.insert(at, item);
        proof {
            let after = before.insert(at as int, x);
            assert(out.deep_view() =~= after);
            assert forall|j: int, k: int| 0 <= j < k < after.len() implies !beats(
                by,
                #[trigger] after[k],
                #[trigger] after[j],
            ) by {
                if j == at {
                    assert(after[k] == before[k - 1]);
                    lemma_beats(by, x, before[at as int], before[at as int]);
                    if beats(by, before[k - 1], x) {
                        lemma_beats(by, before[k - 1], x, before[at as int]);
                    }
                } else if k == at {
                    assert(after[j] == before[j]);
                } else {
                    let j0 = if j < at {
                        j
                    } else {
                        j - 1
                    };
                    let k0 = if k < at {
                        k
                    } else {
                        k - 1
                    };
                    assert(after[j] == before[j0] && after[k] == before[k0]);
                }
            }
            assert(all.take(i + 1) =~= all.take(i as int).push(x));
            assert forall|y: (Seq<char>, u32)| #[trigger]
                occurrences(after, y) == occurrences(all.take(i + 1), y) by {
                let left = before.take(at as int);
                let right = before.skip(at as int);
                assert(after =~= left.push(x) + right);
                assert(before =~= left + right);
                lemma_occurrences_add(left.push(x), right, y);
                lemma_occurrences_add(left, right, y);
                lemma_occurrences_push(left, x, y);
                lemma_occurrences_push(all.take(i as int), x, y);
                assert(occurrences(before, y) == occurrences(all.take(i as int), y));
            }
        }
        i += 1;
    }
    assert(all.take(i as int) =~= all);
    out
}

/// The identifiers of several rankings, one ranking after the other.
pub open spec fn all_ids(entries: Seq<(Seq<char>, usize)>) -> Seq<Seq<char>> {
    Seq::new(entries.len(), |i: int| entries[i].0)
}

/// The ranks that an identifier has.
pub open spec fn ranks_of(entries: Seq<(Seq<char>, usize)>, id: Seq<char>) -> Seq<usize>
    decreases entries.len(),
{
    if entries.len() == 0 {
        Seq::empty()
    } else {
        let before = ranks_of(entries.drop_last(), id);
        if entries.last().0 == id {
            before.push(entries.last().1)
        } else {
            before
        }
    }
}

/// What each identifier's fused score is made of: its rank in every ranking that has
/// it. Identifiers come in the order in which they first occur.
pub open spec fn terms_of(entries: Seq<(Seq<char>, usize)>) -> Seq<(Seq<char>, Seq<usize>)> {
    let ids = first_seen(all_ids(entries));
    Seq::new(ids.len(), |i: int| (ids[i], ranks_of(entries, ids[i])))
}

fn find_term(terms: &Vec<(String, Vec<usize>)>, id: &str) -> (r: Option<usize>)
    ensures
        match r {
            Some(i) => i < terms@.len() && terms.deep_view()[i as int].0 == id@,
            None => forall|i: int|
                0 <= i < terms.deep_view().len() ==> (#[trigger] terms.deep_view()[i]).0 != id@,
        },
{
    let mut i: usize = 0;
    while i < terms.len()
        invariant
            i <= terms.len(),
            forall|j: int| 0 <= j < i ==> (#[trigger] terms.deep_view()[j]).0 != id@,
        decreases terms.len() - i,
    {
        assert(terms.deep_view()[i as int] == terms@[i as int].deep_view());
        if text_same(terms[i].0.as_str(), id) {
            return Some(i);
        }
        i += 1;
    }
    None
}

/// What each identifier's fused score is made of: its rank in every ranking that has
/// it. The entries of all rankings are given one ranking after the other.
pub fn rrf_terms(entries: &Vec<(String, usize)>) -> (r: Vec<(String, Vec<usize>)>)
    ensures
        r.deep_view() == terms_of(entries.deep_view()),
{
    let ghost all = entries.deep_view();
    let mut terms: Vec<(String, Vec<usize>)> = Vec::new();
    let mut i: usize = 0;
    proof {
        assert(all.take(0) =~= Seq::empty());
        assert(all_ids(all.take(0)) =~= Seq::empty());
        assert(terms.deep_view() =~= terms_of(all.take(0)));
    }
    while i < entries.len()
        invariant
            i <= entries.len(),
            all == entries.deep_view(),
            terms.deep_view() == terms_of(all.take(i as int)),
        decreases entries.len() - i,
    {
        let ghost seen = all.take(i as int);
        let ghost next = all.take(i + 1);
        let ghost was = terms.deep_view();
        let rank: usize = entries[i].1;
        let ghost id = entries@[i as int].0@;
        proof {
            assert(all[i as int] == entries@[i as int].deep_view());
            assert(next.drop_last() =~= seen);
            assert(next.last() == (id, rank));
            assert(all_ids(next).drop_last() =~= all_ids(seen));
            assert(all_ids(next).last() == id);
            lemma_first_seen(all_ids(seen));
            assert forall|other: Seq<char>| other != id implies #[trigger] ranks_of(next, other)
                == ranks_of(seen, other) by {}
        }
        match find_term(&terms, entries[i].0.as_str()) {
            Some(at) => {
                let mut ranks: Vec<usize> = Vec::new();
                let ghost old_ranks = terms@[at as int].1@;
                std::mem::swap(&mut ranks, &mut terms[at].1);
                ranks.push(rank);
                let name = terms[at].0.clone();
                terms.set(at, (name, ranks));
                proof {
                    assert(was[at as int].0 == id);
                    assert(first_seen(all_ids(seen))[at as int] == id);
                    assert(first_seen(all_ids(seen)).contains(id));
                    assert(first_seen(all_ids(next)) == first_seen(all_ids(seen)));
                    assert(terms.deep_view() =~= terms_of(next)) by {
                        let now = terms.deep_view();
                        let want = terms_of(next);
                        assert(now.len() == want.len());
                        assert forall|j: int| 0 <= j < now.len() implies now[j] == want[j] by {
                            if j == at {
                                assert(now[j].1 =~= want[j].1);
                            } else {
                                assert(now[j] == was[j]);
                                assert(was[j].0 != id);
                            }
                        }
                    }
                }
            },
            None => {
                let mut ranks: Vec<usize> = Vec::new();
                ranks.push(rank);
                terms.push((entries[i].0.clone(), ranks));
                proof {
                    assert(ranks_of(seen, id) =~= Seq::empty()) by {
                        lemma_no_ranks(seen, id, first_seen(all_ids(seen)), was);
                    }
                    assert(!all_ids(seen).contains(id)) by {
                        if all_ids(seen).contains(id) {
                            assert(first_seen(all_ids(seen)).contains(id));
                            let j = choose|j: int|
                                0 <= j < first_seen(all_ids(seen)).len() && first_seen(
                                    all_ids(seen),
                                )[j] == id;
                            assert(was[j].0 == id);
                        }
                    }
                    let now = terms.deep_view();
                    let want = terms_of(next);
                    assert(first_seen(all_ids(next)) == first_seen(all_ids(seen)).push(id));
                    assert(now =~= want) by {
                        assert(now.len() == want.len());
                        assert forall|j: int| 0 <= j < now.len() implies now[j] == want[j] by {
                            if j < was.len() {
                                assert(now[j] == was[j]);
                                assert(was[j].0 != id);
                            } else {
                                assert(now[j].1 =~= want[j].1);
                            }
                        }
                    }
                }
            },
        }
        i += 1;
    }
    assert(all.take(i as int) =~= all);
    terms
}

proof fn lemma_no_ranks(
    entries: Seq<(Seq<char>, usize)>,
    id: Seq<char>,
    ids: Seq<Seq<char>>,
    terms: Seq<(Seq<char>, Seq<usize>)>,
)
    requires
        ids == first_seen(all_ids(entries)),
        terms == terms_of(entries),
        forall|i: int| 0 <= i < terms.len() ==> (#[trigger] terms[i]).0 != id,
    ensures
        ranks_of(entries, id).len() == 0,
{
    lemma_first_seen(all_ids(entries));
    if all_ids(entries).contains(id) {
        assert(ids.contains(id));
        let j = choose|j: int| 0 <= j < ids.len() && ids[j] == id;
        assert(terms[j].0 == id);
    }
    lemma_absent_ranks(entries, id);
}

proof fn lemma_absent_ranks(entries: Seq<(Seq<char>, usize)>, id: Seq<char>)
    requires
        !all_ids(entries).contains(id),
    ensures
        ranks_of(entries, id).len() == 0,
    decreases entries.len(),
{
    if entries.len() > 0 {
        let rest = entries.drop_last();
        if all_ids(rest).contains(id) {
            let i = choose|i: int| 0 <= i < all_ids(rest).len() && all_ids(rest)[i] == id;
            assert(all_ids(entries)[i] == id);
        }
        assert(all_ids(entries)[entries.len() - 1] == entries.last().0);
        lemma_absent_ranks(rest, id);
    }
}

/// Identifiers with the scores given for them, one by one.
pub open spec fn scored(ids: Seq<Seq<char>>, scores: Seq<u32>) -> Seq<(Seq<char>, u32)> {
    Seq::new(ids.len(), |i: int| (ids[i], scores[i]))
}

/// Identifiers in the order of their fused scores, highest first. The score of each
/// identifier, `1 / (k + rank)` summed over its ranks, goes with its term.
pub fn rrf(terms: &Vec<(String, Vec<usize>)>, scores: &Vec<u32>) -> (r: Vec<(String, u32)>)
    requires
        scores@.len() == terms@.len(),
    ensures
        in_order(Criterion::Score, r.deep_view()),
        same_elements(r.deep_view(), scored(term_ids(terms.deep_view()), scores@)),
        r@.len() == terms@.len(),
{
    let ghost all = scored(term_ids(terms.deep_view()), scores@);
    let mut pairs: Vec<(String, u32)> = Vec::new();
    let mut i: usize = 0;
    assert(pairs.deep_view() =~= all.take(0));
    while i < terms.len()
        invariant
            i <= terms.len(),
            scores@.len() == terms@.len(),
            all == scored(term_ids(terms.deep_view()), scores@),
            pairs.deep_view() == all.take(i as int),
        decreases terms.len() - i,
    {
        let ghost was = pairs.deep_view();
        pairs.push((terms[i].0.clone(), scores[i]));
        proof {
            assert(terms.deep_view()[i as int] == terms@[i as int].deep_view());
            assert(pairs.deep_view() =~= was.push(all[i as int]));
            assert(all.take(i + 1) =~= was.push(all[i as int]));
        }
        i += 1;
    }
    assert(all.take(i as int) =~= all);
    sort_scored(Criterion::Score, pairs)
}

/// The identifiers of terms.
pub open spec fn term_ids(terms: Seq<(Seq<char>, Seq<usize>)>) -> Seq<Seq<char>> {
    Seq::new(terms.len(), |i: int| terms[i].0)
}

/// Every document of some ranking is fused, and each once.
pub proof fn law_fusion_keeps_every_document(entries: Seq<(Seq<char>, usize)>)
    ensures
        term_ids(terms_of(entries)).no_duplicates(),
        forall|id: Seq<char>| #[trigger]
            term_ids(terms_of(entries)).contains(id) <==> all_ids(entries).contains(id),
{
    lemma_first_seen(all_ids(entries));
    assert(term_ids(terms_of(entries)) =~= first_seen(all_ids(entries)));
}

/// What a document's fused score is made of are its ranks in all the rankings that have it,
/// in their order.
pub proof fn law_terms_hold_every_rank(entries: Seq<(Seq<char>, usize)>, i: int)
    requires
        0 <= i < terms_of(entries).len(),
    ensures
        ({
            let term = terms_of(entries)[i];
            let id = term.0;
            let own = entries.filter(|entry: (Seq<char>, usize)| entry.0 == id);
            &&& own.len() > 0
            &&& term.1.len() == own.len()
            &&& forall|k: int| 0 <= k < own.len() ==> #[trigger] term.1[k] == own[k].1
        }),
{
    let ids = first_seen(all_ids(entries));
    let id = ids[i];
    lemma_first_seen(all_ids(entries));
    lemma_ranks_kept(entries, id);
    assert(ids.contains(id));
    let k = choose|k: int| 0 <= k < all_ids(entries).len() && all_ids(entries)[k] == id;
    let keep = |entry: (Seq<char>, usize)| entry.0 == id;
    crate::lists::lemma_filter_has(entries, keep);
    assert(entries.contains(entries[k]));
    assert(entries.filter(keep).contains(entries[k]));
}

proof fn lemma_ranks_kept(entries: Seq<(Seq<char>, usize)>, id: Seq<char>)
    ensures
        ({
            let own = entries.filter(|entry: (Seq<char>, usize)| entry.0 == id);
            &&& ranks_of(entries, id).len() == own.len()
            &&& forall|k: int|
                0 <= k < own.len() ==> #[trigger] ranks_of(entries, id)[k] == own[k].1
        }),
    decreases entries.len(),
{
    let keep = |entry: (Seq<char>, usize)| entry.0 == id;
    reveal(Seq::filter);
    if entries.len() > 0 {
        lemma_ranks_kept(entries.drop_last(), id);
        assert(entries =~= entries.drop_last().push(entries.last()));
        crate::lists::lemma_filter_push(entries.drop_last(), entries.last(), keep);
    }
}

/// In a fused ranking no score is above an earlier one; in a ranking by similarity none is
/// either, and equals come in the order of their identifiers.
pub proof fn law_the_best_come_first(items: Seq<(Seq<char>, u32)>, i: int, j: int)
    requires
        0 <= i < j < items.len(),
    ensures
        in_order(Criterion::Score, items) ==> !single_below(items[i].1, items[j].1),
        in_order(Criterion::ScoreThenId, items) && items[i].1 < SINGLE_SIGN && items[j].1
            < SINGLE_SIGN ==> items[i].1 >= items[j].1,
        in_order(Criterion::ScoreThenId, items) && items[i].1 == items[j].1 ==> !text_lt(
            items[j].0,
            items[i].0,
        ),
        in_order(Criterion::ScoreThenId, items) ==> !single_below(items[i].1, items[j].1),
{
    assert(in_order(Criterion::Score, items) ==> !beats(Criterion::Score, items[j], items[i]));
    assert(in_order(Criterion::ScoreThenId, items) ==> !beats(
        Criterion::ScoreThenId,
        items[j],
        items[i],
    ));
}

} // verus!
