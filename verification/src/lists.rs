//! Counting and de-duplicating in sequences.

use vstd::prelude::*;

verus! {

/// How often `x` occurs in `s`.
pub open spec fn occurrences<A>(s: Seq<A>, x: A) -> nat
    decreases s.len(),
{
    if s.len() == 0 {
        0
    } else {
        occurrences(s.drop_last(), x) + (if s.last() == x {
            1nat
        } else {
            0nat
        })
    }
}

/// The different elements of `s`, each where it first occurs.
pub open spec fn first_seen<A>(s: Seq<A>) -> Seq<A>
    decreases s.len(),
{
    if s.len() == 0 {
        Seq::empty()
    } else {
        let before = first_seen(s.drop_last());
        if before.contains(s.last()) {
            before
        } else {
            before.push(s.last())
        }
    }
}

pub proof fn lemma_first_seen<A>(s: Seq<A>)
    ensures
        first_seen(s).no_duplicates(),
        forall|x: A| #[trigger] first_seen(s).contains(x) <==> s.contains(x),
    decreases s.len(),
{
    if s.len() > 0 {
        lemma_first_seen(s.drop_last());
        let before = first_seen(s.drop_last());
        let after = first_seen(s);
        assert(s =~= s.drop_last().push(s.last()));
        assert forall|x: A| #[trigger] after.contains(x) <==> s.contains(x) by {
            if after.contains(x) {
                if before.contains(x) {
                    assert(s.drop_last().contains(x));
                    let i = choose|i: int| 0 <= i < s.len() - 1 && s.drop_last()[i] == x;
                    assert(s[i] == x);
                } else {
                    assert(x == s.last());
                    assert(s[s.len() - 1] == x);
                }
            }
            if s.contains(x) {
                let i = choose|i: int| 0 <= i < s.len() && s[i] == x;
                if i < s.len() - 1 {
                    assert(s.drop_last()[i] == x);
                    assert(before.contains(x));
                    let j = choose|j: int| 0 <= j < before.len() && before[j] == x;
                    assert(after[j] == x);
                } else if !before.contains(x) {
                    assert(after[before.len() as int] == x);
                }
            }
        }
    }
}

pub proof fn lemma_occurrences_absent<A>(s: Seq<A>, x: A)
    ensures
        occurrences(s, x) == 0 <==> !s.contains(x),
        occurrences(s, x) <= s.len(),
    decreases s.len(),
{
    if s.len() > 0 {
        lemma_occurrences_absent(s.drop_last(), x);
        if s.contains(x) {
            let i = choose|i: int| 0 <= i < s.len() && s[i] == x;
            if i < s.len() - 1 {
                assert(s.drop_last()[i] == x);
            }
        }
        if s.drop_last().contains(x) {
            let i = choose|i: int| 0 <= i < s.len() - 1 && s.drop_last()[i] == x;
            assert(s[i] == x);
        }
        assert(s[s.len() - 1] == s.last());
    }
}

/// Filtering keeps exactly the elements that satisfy the condition.
pub proof fn lemma_filter_has<A>(s: Seq<A>, keep: spec_fn(A) -> bool)
    ensures
        forall|x: A| #[trigger] s.filter(keep).contains(x) <==> s.contains(x) && keep(x),
    decreases s.len(),
{
    reveal(Seq::filter);
    let kept = s.filter(keep);
    if s.len() > 0 {
        let rest = s.drop_last();
        let before = rest.filter(keep);
        lemma_filter_has(rest, keep);
        assert forall|x: A| #[trigger] kept.contains(x) <==> s.contains(x) && keep(x) by {
            if kept.contains(x) {
                let i = choose|i: int| 0 <= i < kept.len() && kept[i] == x;
                if i < before.len() {
                    assert(before[i] == x);
                    assert(before.contains(x));
                    let j = choose|j: int| 0 <= j < rest.len() && rest[j] == x;
                    assert(s[j] == x);
                } else {
                    assert(s[s.len() - 1] == x);
                }
            }
            if s.contains(x) && keep(x) {
                let j = choose|j: int| 0 <= j < s.len() && s[j] == x;
                if j < rest.len() {
                    assert(rest[j] == x);
                    assert(before.contains(x));
                    let i = choose|i: int| 0 <= i < before.len() && before[i] == x;
                    assert(kept[i] == x);
                } else {
                    assert(kept[before.len() as int] == x);
                }
            }
        }
    }
}

/// Filtering one more element.
pub proof fn lemma_filter_push<A>(s: Seq<A>, x: A, keep: spec_fn(A) -> bool)
    ensures
        s.push(x).filter(keep) == (if keep(x) {
            s.filter(keep).push(x)
        } else {
            s.filter(keep)
        }),
{
    reveal(Seq::filter);
    assert(s.push(x).drop_last() =~= s);
}

/// Filtering twice is filtering by both.
pub proof fn lemma_filter_twice<A>(
    s: Seq<A>,
    first: spec_fn(A) -> bool,
    second: spec_fn(A) -> bool,
    both: spec_fn(A) -> bool,
)
    requires
        forall|x: A| #[trigger] both(x) == (first(x) && second(x)),
    ensures
        s.filter(first).filter(second) == s.filter(both),
    decreases s.len(),
{
    reveal(Seq::filter);
    if s.len() > 0 {
        let rest = s.drop_last();
        lemma_filter_twice(rest, first, second, both);
        lemma_filter_push(rest.filter(first), s.last(), second);
        assert(both(s.last()) == (first(s.last()) && second(s.last())));
    }
}

pub proof fn lemma_occurrences_push<A>(s: Seq<A>, x: A, y: A)
    ensures
        occurrences(s.push(x), y) == occurrences(s, y) + (if x == y {
            1nat
        } else {
            0nat
        }),
{
    assert(s.push(x).drop_last() =~= s);
}

pub proof fn lemma_occurrences_add<A>(s: Seq<A>, t: Seq<A>, x: A)
    ensures
        occurrences(s + t, x) == occurrences(s, x) + occurrences(t, x),
    decreases t.len(),
{
    if t.len() == 0 {
        assert(s + t =~= s);
    } else {
        assert((s + t).drop_last() =~= s + t.drop_last());
        lemma_occurrences_add(s, t.drop_last(), x);
    }
}

pub proof fn lemma_occurrences_reverse<A>(s: Seq<A>, x: A)
    ensures
        occurrences(s.reverse(), x) == occurrences(s, x),
    decreases s.len(),
{
    if s.len() > 0 {
        assert(s.reverse() =~= seq![s.last()] + s.drop_last().reverse());
        lemma_occurrences_add(seq![s.last()], s.drop_last().reverse(), x);
        lemma_occurrences_reverse(s.drop_last(), x);
        assert(seq![s.last()].drop_last() =~= Seq::<A>::empty());
        assert(occurrences(seq![s.last()], x) == occurrences(Seq::<A>::empty(), x) + (if s.last()
            == x {
            1nat
        } else {
            0nat
        }));
    }
}

/// Without duplicates, an element occurs at most once.
pub proof fn lemma_occurrences_once<A>(s: Seq<A>, x: A)
    requires
        s.no_duplicates(),
    ensures
        occurrences(s, x) == (if s.contains(x) {
            1nat
        } else {
            0nat
        }),
    decreases s.len(),
{
    lemma_occurrences_absent(s, x);
    if s.len() > 0 {
        let rest = s.drop_last();
        lemma_occurrences_once(rest, x);
        if s.last() == x && rest.contains(x) {
            let i = choose|i: int| 0 <= i < rest.len() && rest[i] == x;
            assert(s[i] == s[s.len() - 1]);
        }
    }
}

/// How often an element occurs is how many places hold it.
pub proof fn law_occurrences_are_counted<A>(s: Seq<A>, x: A)
    ensures
        occurrences(s, x) == s.filter(|y: A| y == x).len(),
    decreases s.len(),
{
    let keep = |y: A| y == x;
    reveal(Seq::filter);
    if s.len() > 0 {
        law_occurrences_are_counted(s.drop_last(), x);
        assert(s =~= s.drop_last().push(s.last()));
        lemma_filter_push(s.drop_last(), s.last(), keep);
    }
}

/// The different elements come in the order in which they first occur: what a sequence
/// begins with comes first, and more elements only add to the end.
pub proof fn law_first_seen_keeps_the_order<A>(s: Seq<A>, x: A)
    ensures
        first_seen(s).is_prefix_of(first_seen(s.push(x))),
        s.contains(x) ==> first_seen(s.push(x)) == first_seen(s),
        !s.contains(x) ==> first_seen(s.push(x)) == first_seen(s).push(x),
{
    lemma_first_seen(s);
    assert(s.push(x).drop_last() =~= s);
    assert(first_seen(s).contains(x) <==> s.contains(x));
}

/// A filter keeps what holds between earlier and later elements.
pub proof fn lemma_filter_order<A>(
    s: Seq<A>,
    keep: spec_fn(A) -> bool,
    comes: spec_fn(A, A) -> bool,
)
    requires
        forall|i: int, j: int| 0 <= i < j < s.len() ==> comes(#[trigger] s[i], #[trigger] s[j]),
    ensures
        forall|i: int, j: int|
            0 <= i < j < s.filter(keep).len() ==> comes(
                #[trigger] s.filter(keep)[i],
                #[trigger] s.filter(keep)[j],
            ),
    decreases s.len(),
{
    reveal(Seq::filter);
    if s.len() > 0 {
        let rest = s.drop_last();
        assert forall|i: int, j: int| 0 <= i < j < rest.len() implies comes(
            #[trigger] rest[i],
            #[trigger] rest[j],
        ) by {
            assert(rest[i] == s[i] && rest[j] == s[j]);
        }
        lemma_filter_order(rest, keep, comes);
        lemma_filter_has(rest, keep);
        assert(s =~= rest.push(s.last()));
        lemma_filter_push(rest, s.last(), keep);
        let before = rest.filter(keep);
        let all = s.filter(keep);
        assert forall|i: int, j: int| 0 <= i < j < all.len() implies comes(
            #[trigger] all[i],
            #[trigger] all[j],
        ) by {
            assert(before[i] == all[i]);
            if j < before.len() {
                assert(before[j] == all[j]);
            } else {
                assert(before.contains(before[i]));
                let k = choose|k: int| 0 <= k < rest.len() && rest[k] == before[i];
                assert(comes(s[k], s[s.len() - 1]));
            }
        }
    }
}

} // verus!
