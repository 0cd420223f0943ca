//! Maps kept in key order.

use crate::text::{text_less, text_lt, text_lt_irreflexive, text_lt_total, text_lt_transitive};
use vstd::prelude::*;

verus! {

/// A value that can be copied without changing what it stands for.
pub trait Replica: DeepView + Sized {
    fn replica(&self) -> (r: Self)
        ensures
            r.deep_view() == self.deep_view(),
    ;
}

/// How two keys stand to each other.
pub enum Order {
    Less,
    Equal,
    Greater,
}

/// A key with a strict total order on what it stands for.
pub trait SortKey: Replica {
    /// `a` comes strictly before `b`.
    spec fn before(a: Self::V, b: Self::V) -> bool;

    proof fn before_irreflexive(a: Self::V)
        ensures
            !Self::before(a, a),
    ;

    proof fn before_transitive(a: Self::V, b: Self::V, c: Self::V)
        requires
            Self::before(a, b),
            Self::before(b, c),
        ensures
            Self::before(a, c),
    ;

    proof fn before_total(a: Self::V, b: Self::V)
        ensures
            Self::before(a, b) || a == b || Self::before(b, a),
    ;

    fn order(&self, other: &Self) -> (o: Order)
        ensures
            match o {
                Order::Less => Self::before(self.deep_view(), other.deep_view()),
                Order::Equal => self.deep_view() == other.deep_view(),
                Order::Greater => Self::before(other.deep_view(), self.deep_view()),
            },
    ;
}

impl Replica for u64 {
    fn replica(&self) -> (r: Self) {
        *self
    }
}

impl SortKey for u64 {
    open spec fn before(a: u64, b: u64) -> bool {
        a < b
    }

    proof fn before_irreflexive(a: u64) {
    }

    proof fn before_transitive(a: u64, b: u64, c: u64) {
    }

    proof fn before_total(a: u64, b: u64) {
    }

    fn order(&self, other: &Self) -> (o: Order) {
        if *self < *other {
            Order::Less
        } else if *self == *other {
            Order::Equal
        } else {
            Order::Greater
        }
    }
}

impl Replica for usize {
    fn replica(&self) -> (r: Self) {
        *self
    }
}

impl Replica for bool {
    fn replica(&self) -> (r: Self) {
        *self
    }
}

impl Replica for () {
    fn replica(&self) -> (r: Self) {
    }
}

impl Replica for String {
    fn replica(&self) -> (r: Self) {
        self.clone()
    }
}

impl SortKey for String {
    open spec fn before(a: Seq<char>, b: Seq<char>) -> bool {
        text_lt(a, b)
    }

    proof fn before_irreflexive(a: Seq<char>) {
        text_lt_irreflexive(a);
    }

    proof fn before_transitive(a: Seq<char>, b: Seq<char>, c: Seq<char>) {
        text_lt_transitive(a, b, c);
    }

    proof fn before_total(a: Seq<char>, b: Seq<char>) {
        text_lt_total(a, b);
    }

    fn order(&self, other: &Self) -> (o: Order) {
        proof {
            text_lt_total(self@, other@);
        }
        if text_less(self.as_str(), other.as_str()) {
            Order::Less
        } else if *self == *other {
            Order::Equal
        } else {
            Order::Greater
        }
    }
}

impl<A: Replica, B: Replica> Replica for (A, B) {
    fn replica(&self) -> (r: Self) {
        (self.0.replica(), self.1.replica())
    }
}

impl<A: SortKey, B: SortKey> SortKey for (A, B) {
    open spec fn before(a: (A::V, B::V), b: (A::V, B::V)) -> bool {
        A::before(a.0, b.0) || (a.0 == b.0 && B::before(a.1, b.1))
    }

    proof fn before_irreflexive(a: (A::V, B::V)) {
        A::before_irreflexive(a.0);
        B::before_irreflexive(a.1);
    }

    proof fn before_transitive(a: (A::V, B::V), b: (A::V, B::V), c: (A::V, B::V)) {
        if A::before(a.0, b.0) && A::before(b.0, c.0) {
            A::before_transitive(a.0, b.0, c.0);
        }
        if B::before(a.1, b.1) && B::before(b.1, c.1) {
            B::before_transitive(a.1, b.1, c.1);
        }
    }

    proof fn before_total(a: (A::V, B::V), b: (A::V, B::V)) {
        A::before_total(a.0, b.0);
        B::before_total(a.1, b.1);
    }

    fn order(&self, other: &Self) -> (o: Order) {
        match self.0.order(&other.0) {
            Order::Less => Order::Less,
            Order::Greater => Order::Greater,
            Order::Equal => self.1.order(&other.1),
        }
    }
}

/// The pairs come in strictly ascending key order.
pub open spec fn ascending<K: SortKey, W>(pairs: Seq<(K::V, W)>) -> bool {
    forall|i: int, j: int|
        0 <= i < j < pairs.len() ==> K::before(#[trigger] pairs[i].0, #[trigger] pairs[j].0)
}

pub proof fn lemma_ascending_at<K: SortKey, W>(pairs: Seq<(K::V, W)>, i: int, j: int)
    requires
        ascending::<K, W>(pairs),
        0 <= i < j < pairs.len(),
    ensures
        K::before(pairs[i].0, pairs[j].0),
{
}

/// The map that a sequence of pairs stands for; a later pair wins.
pub open spec fn map_of<L, W>(pairs: Seq<(L, W)>) -> Map<L, W>
    decreases pairs.len(),
{
    if pairs.len() == 0 {
        Map::empty()
    } else {
        map_of(pairs.drop_last()).insert(pairs.last().0, pairs.last().1)
    }
}

pub proof fn lemma_map_of_domain<L, W>(pairs: Seq<(L, W)>, key: L)
    ensures
        map_of(pairs).contains_key(key) <==> exists|i: int|
            0 <= i < pairs.len() && (#[trigger] pairs[i]).0 == key,
    decreases pairs.len(),
{
    if pairs.len() > 0 {
        let rest = pairs.drop_last();
        lemma_map_of_domain(rest, key);
        if exists|i: int| 0 <= i < pairs.len() && (#[trigger] pairs[i]).0 == key {
            let i = choose|i: int| 0 <= i < pairs.len() && (#[trigger] pairs[i]).0 == key;
            if i < rest.len() {
                assert(rest[i].0 == key);
            }
        }
        if map_of(rest).contains_key(key) {
            let i = choose|i: int| 0 <= i < rest.len() && (#[trigger] rest[i]).0 == key;
            assert(pairs[i].0 == key);
        }
        if pairs.last().0 == key {
            assert(pairs[pairs.len() - 1].0 == key);
        }
    }
}

/// A sequence of pairs stands for a finite map.
pub proof fn lemma_map_of_finite<L, W>(pairs: Seq<(L, W)>)
    ensures
        map_of(pairs).dom().finite(),
    decreases pairs.len(),
{
    if pairs.len() > 0 {
        lemma_map_of_finite(pairs.drop_last());
    }
}

pub proof fn lemma_map_of_pair<L, W>(pairs: Seq<(L, W)>, key: L)
    requires
        map_of(pairs).contains_key(key),
    ensures
        exists|i: int| 0 <= i < pairs.len() && #[trigger] pairs[i] == (key, map_of(pairs)[key]),
    decreases pairs.len(),
{
    if pairs.last().0 == key {
        assert(pairs[pairs.len() - 1] == (key, map_of(pairs)[key]));
    } else {
        lemma_map_of_pair(pairs.drop_last(), key);
        let i = choose|i: int|
            0 <= i < pairs.len() - 1 && #[trigger] pairs.drop_last()[i] == (
                key,
                map_of(pairs)[key],
            );
        assert(pairs[i] == pairs.drop_last()[i]);
    }
}

pub proof fn lemma_map_of_value<K: SortKey, W>(pairs: Seq<(K::V, W)>, i: int)
    requires
        ascending::<K, W>(pairs),
        0 <= i < pairs.len(),
    ensures
        map_of(pairs).contains_key(pairs[i].0),
        map_of(pairs)[pairs[i].0] == pairs[i].1,
    decreases pairs.len(),
{
    lemma_map_of_domain(pairs, pairs[i].0);
    let rest = pairs.drop_last();
    if i < rest.len() {
        assert(ascending::<K, W>(rest));
        lemma_map_of_value::<K, W>(rest, i);
        K::before_irreflexive(pairs[i].0);
        assert(K::before(pairs[i].0, pairs[pairs.len() - 1].0));
    }
}

/// Two ascending sequences of pairs that stand for the same map are equal.
pub proof fn lemma_ascending_unique<K: SortKey, W>(a: Seq<(K::V, W)>, b: Seq<(K::V, W)>)
    requires
        ascending::<K, W>(a),
        ascending::<K, W>(b),
        map_of(a) == map_of(b),
    ensures
        a == b,
    decreases a.len(),
{
    if a.len() == 0 {
        if b.len() > 0 {
            lemma_map_of_value::<K, W>(b, 0);
        }
        assert(a =~= b);
    } else {
        lemma_map_of_value::<K, W>(a, a.len() - 1);
        lemma_map_of_domain(b, a.last().0);
        let j = choose|j: int| 0 <= j < b.len() && (#[trigger] b[j]).0 == a.last().0;
        lemma_map_of_value::<K, W>(b, b.len() - 1);
        lemma_map_of_domain(a, b.last().0);
        let i = choose|i: int| 0 <= i < a.len() && (#[trigger] a[i]).0 == b.last().0;
        if j < b.len() - 1 {
            assert(K::before(b[j].0, b[b.len() - 1].0));
            if i < a.len() - 1 {
                assert(K::before(a[i].0, a[a.len() - 1].0));
                K::before_transitive(a[i].0, a.last().0, b.last().0);
                K::before_irreflexive(b.last().0);
            }
            K::before_irreflexive(a.last().0);
        }
        assert(b.last().0 == a.last().0);
        lemma_map_of_value::<K, W>(b, j);
        assert(a.last() == b.last());
        let ra = a.drop_last();
        let rb = b.drop_last();
        assert forall|k: K::V| map_of(ra).contains_key(k) implies k != a.last().0 by {
            lemma_map_of_domain(ra, k);
            let x = choose|x: int| 0 <= x < ra.len() && (#[trigger] ra[x]).0 == k;
            assert(K::before(a[x].0, a[a.len() - 1].0));
            K::before_irreflexive(k);
        }
        assert forall|k: K::V| map_of(rb).contains_key(k) implies k != b.last().0 by {
            lemma_map_of_domain(rb, k);
            let x = choose|x: int| 0 <= x < rb.len() && (#[trigger] rb[x]).0 == k;
            assert(K::before(b[x].0, b[b.len() - 1].0));
            K::before_irreflexive(k);
        }
        assert(map_of(ra) =~= map_of(a).remove(a.last().0));
        assert(map_of(rb) =~= map_of(b).remove(b.last().0));
        assert(ascending::<K, W>(ra));
        assert(ascending::<K, W>(rb));
        lemma_ascending_unique::<K, W>(ra, rb);
        assert(a =~= ra.push(a.last()));
        assert(b =~= rb.push(b.last()));
    }
}

/// The entries of a map in ascending key order.
pub open spec fn rows_of<K: SortKey, W>(map: Map<K::V, W>) -> Seq<(K::V, W)> {
    choose|rows: Seq<(K::V, W)>| #[trigger] ascending::<K, W>(rows) && map_of(rows) == map
}

/// The ascending entries of a map are determined by the map.
pub proof fn lemma_rows_of<K: SortKey, W>(rows: Seq<(K::V, W)>)
    requires
        ascending::<K, W>(rows),
    ensures
        rows_of::<K, W>(map_of(rows)) == rows,
{
    let chosen = rows_of::<K, W>(map_of(rows));
    assert(ascending::<K, W>(chosen) && map_of(chosen) == map_of(rows));
    lemma_ascending_unique::<K, W>(chosen, rows);
}

/// A map has as many entries as its ascending sequence of pairs.
pub proof fn lemma_map_len<K: SortKey, W>(pairs: Seq<(K::V, W)>)
    requires
        ascending::<K, W>(pairs),
    ensures
        map_of(pairs).dom().finite(),
        map_of(pairs).len() == pairs.len(),
    decreases pairs.len(),
{
    if pairs.len() == 0 {
        assert(map_of(pairs).dom() =~= Set::empty());
    } else {
        let rest = pairs.drop_last();
        let key = pairs.last().0;
        assert(ascending::<K, W>(rest));
        lemma_map_len::<K, W>(rest);
        lemma_map_of_domain(rest, key);
        if map_of(rest).contains_key(key) {
            let i = choose|i: int| 0 <= i < rest.len() && (#[trigger] rest[i]).0 == key;
            lemma_ascending_at::<K, W>(pairs, i, pairs.len() - 1);
            K::before_irreflexive(key);
        }
        assert(map_of(pairs).dom() =~= map_of(rest).dom().insert(key));
    }
}

/// An ascending sequence of pairs has room for another key.
proof fn lemma_row_inserted<K: SortKey, W>(rows: Seq<(K::V, W)>, key: K::V, value: W) -> (r: Seq<
    (K::V, W),
>)
    requires
        ascending::<K, W>(rows),
        !map_of(rows).contains_key(key),
    ensures
        ascending::<K, W>(r),
        map_of(r) == map_of(rows).insert(key, value),
    decreases rows.len(),
{
    if rows.len() == 0 {
        let r = seq![(key, value)];
        assert(r.drop_last() =~= rows);
        r
    } else {
        let last = rows.last();
        let rest = rows.drop_last();
        lemma_map_of_domain(rows, key);
        assert(rows[rows.len() - 1].0 == last.0);
        K::before_total(last.0, key);
        if K::before(last.0, key) {
            let r = rows.push((key, value));
            assert(r.drop_last() =~= rows);
            assert forall|i: int, j: int| 0 <= i < j < r.len() implies K::before(
                #[trigger] r[i].0,
                #[trigger] r[j].0,
            ) by {
                if j == rows.len() && i < rows.len() - 1 {
                    lemma_ascending_at::<K, W>(rows, i, rows.len() - 1);
                    K::before_transitive(rows[i].0, last.0, key);
                }
            }
            r
        } else {
            lemma_map_of_domain(rest, key);
            let inner = lemma_row_inserted::<K, W>(rest, key, value);
            let r = inner.push(last);
            assert(r.drop_last() =~= inner);
            assert forall|i: int, j: int| 0 <= i < j < r.len() implies K::before(
                #[trigger] r[i].0,
                #[trigger] r[j].0,
            ) by {
                if j == inner.len() {
                    lemma_map_of_value::<K, W>(inner, i);
                    if inner[i].0 != key {
                        lemma_map_of_domain(rest, inner[i].0);
                        let x = choose|x: int|
                            0 <= x < rest.len() && (#[trigger] rest[x]).0 == inner[i].0;
                        lemma_ascending_at::<K, W>(rows, x, rows.len() - 1);
                    }
                }
            }
            assert(map_of(r) =~= map_of(rows).insert(key, value));
            r
        }
    }
}

/// Every finite map has its entries in ascending key order.
pub proof fn lemma_finite_rows<K: SortKey, W>(map: Map<K::V, W>)
    requires
        map.dom().finite(),
    ensures
        ascending::<K, W>(rows_of::<K, W>(map)),
        map_of(rows_of::<K, W>(map)) == map,
    decreases map.dom().len(),
{
    if map.dom().len() == 0 {
        let rows = Seq::<(K::V, W)>::empty();
        assert(ascending::<K, W>(rows));
        assert(map_of(rows) =~= map);
    } else {
        let key = map.dom().choose();
        let rest = map.remove(key);
        lemma_finite_rows::<K, W>(rest);
        let rows = lemma_row_inserted::<K, W>(rows_of::<K, W>(rest), key, map[key]);
        assert(rest.insert(key, map[key]) =~= map);
        assert(ascending::<K, W>(rows) && map_of(rows) == map);
    }
}

/// A map whose entries are kept in ascending key order.
#[derive(Debug, PartialEq)]
pub struct SortedMap<K: SortKey, T: DeepView> {
    entries: Vec<(K, T)>,
}

impl<K: SortKey, T: DeepView> DeepView for SortedMap<K, T> {
    type V = Map<K::V, T::V>;

    open spec fn deep_view(&self) -> Map<K::V, T::V> {
        map_of(self.pairs())
    }
}

/// Number of leading entries whose key comes before `key`.
fn lower_bound<K: SortKey, T: DeepView>(entries: &Vec<(K, T)>, key: &K) -> (at: usize)
    requires
        ascending::<K, T::V>(entries.deep_view()),
    ensures
        at <= entries.len(),
        forall|i: int|
            0 <= i < at ==> K::before((#[trigger] entries.deep_view()[i]).0, key.deep_view()),
        forall|i: int|
            at <= i < entries.len() ==> !K::before(
                (#[trigger] entries.deep_view()[i]).0,
                key.deep_view(),
            ),
{
    let ghost pairs = entries.deep_view();
    let mut lo: usize = 0;
    let mut hi: usize = entries.len();
    while lo < hi
        invariant
            lo <= hi <= entries.len(),
            pairs == entries.deep_view(),
            ascending::<K, T::V>(pairs),
            forall|i: int| 0 <= i < lo ==> K::before((#[trigger] pairs[i]).0, key.deep_view()),
            forall|i: int|
                hi <= i < pairs.len() ==> !K::before((#[trigger] pairs[i]).0, key.deep_view()),
        decreases hi - lo,
    {
        let mid: usize = lo + (hi - lo) / 2;
        let o = entries[mid].0.order(key);
        assert(pairs[mid as int].0 == entries[mid as int].0.deep_view());
        match o {
            Order::Less => {
                assert forall|i: int| 0 <= i < mid + 1 implies K::before(
                    (#[trigger] pairs[i]).0,
                    key.deep_view(),
                ) by {
                    if i < mid {
                        K::before_transitive(pairs[i].0, pairs[mid as int].0, key.deep_view());
                    }
                }
                lo = mid + 1;
            },
            _ => {
                assert forall|i: int| mid <= i < pairs.len() implies !K::before(
                    (#[trigger] pairs[i]).0,
                    key.deep_view(),
                ) by {
                    if K::before(pairs[i].0, key.deep_view()) {
                        if i > mid {
                            K::before_transitive(
                                pairs[mid as int].0,
                                pairs[i].0,
                                key.deep_view(),
                            );
                        }
                        if K::before(key.deep_view(), pairs[mid as int].0) {
                            K::before_transitive(
                                key.deep_view(),
                                pairs[mid as int].0,
                                key.deep_view(),
                            );
                        }
                        K::before_irreflexive(key.deep_view());
                    }
                }
                hi = mid;
            },
        }
    }
    lo
}

impl<K: SortKey, T: DeepView> SortedMap<K, T> {
    /// The entries in ascending key order.
    pub closed spec fn pairs(&self) -> Seq<(K::V, T::V)> {
        self.entries.deep_view()
    }

    #[verifier::type_invariant]
    spec fn in_order(self) -> bool {
        ascending::<K, T::V>(self.entries.deep_view())
    }

    /// Every value of the map is what some stored value stands for.
    pub proof fn lemma_value_is_view(&self, key: K::V)
        requires
            self.deep_view().contains_key(key),
        ensures
            exists|value: T| self.deep_view()[key] == #[trigger] value.deep_view(),
    {
        lemma_map_of_pair(self.pairs(), key);
        let i = choose|i: int|
            0 <= i < self.pairs().len() && #[trigger] self.pairs()[i] == (
                key,
                self.deep_view()[key],
            );
        let value = self.entries@[i].1;
        assert(value.deep_view() == self.pairs()[i].1);
    }

    pub fn new() -> (r: Self)
        ensures
            r.deep_view() == Map::<K::V, T::V>::empty(),
            r.pairs() == Seq::<(K::V, T::V)>::empty(),
    {
        let entries: Vec<(K, T)> = Vec::new();
        assert(entries.deep_view() =~= Seq::empty());
        SortedMap { entries }
    }

    /// Number of entries. The entries come in strictly ascending key order.
    pub fn len(&self) -> (n: usize)
        ensures
            n == self.pairs().len(),
            ascending::<K, T::V>(self.pairs()),
            self.pairs() == rows_of::<K, T::V>(self.deep_view()),
    {
        proof {
            use_type_invariant(self);
            lemma_rows_of::<K, T::V>(self.pairs());
        }
        self.entries.len()
    }

    /// The key of the `i`-th entry.
    pub fn key_at(&self, i: usize) -> (k: &K)
        requires
            i < self.pairs().len(),
        ensures
            k.deep_view() == self.pairs()[i as int].0,
            self.deep_view().contains_key(k.deep_view()),
    {
        proof {
            use_type_invariant(self);
            lemma_map_of_value::<K, T::V>(self.pairs(), i as int);
        }
        &self.entries[i].0
    }

    /// The value of the `i`-th entry.
    pub fn value_at(&self, i: usize) -> (v: &T)
        requires
            i < self.pairs().len(),
        ensures
            v.deep_view() == self.pairs()[i as int].1,
            self.deep_view().contains_key(self.pairs()[i as int].0),
            self.deep_view()[self.pairs()[i as int].0] == v.deep_view(),
    {
        proof {
            use_type_invariant(self);
            lemma_map_of_value::<K, T::V>(self.pairs(), i as int);
        }
        &self.entries[i].1
    }

    /// Position of the first entry whose key does not come before `key`.
    pub fn first_from(&self, key: &K) -> (at: usize)
        ensures
            at <= self.pairs().len(),
            forall|i: int|
                0 <= i < at ==> K::before((#[trigger] self.pairs()[i]).0, key.deep_view()),
            forall|i: int|
                at <= i < self.pairs().len() ==> !K::before(
                    (#[trigger] self.pairs()[i]).0,
                    key.deep_view(),
                ),
            ascending::<K, T::V>(self.pairs()),
            self.pairs() == rows_of::<K, T::V>(self.deep_view()),
    {
        proof {
            use_type_invariant(self);
            lemma_rows_of::<K, T::V>(self.pairs());
        }
        lower_bound(&self.entries, key)
    }

    /// Position of the entry under `key`, if there is one.
    fn find(&self, key: &K) -> (at: Option<usize>)
        ensures
            match at {
                Some(i) => i < self.pairs().len() && self.pairs()[i as int].0 == key.deep_view()
                    && self.deep_view().contains_key(key.deep_view())
                    && self.deep_view()[key.deep_view()] == self.pairs()[i as int].1,
                None => !self.deep_view().contains_key(key.deep_view()),
            },
    {
        proof {
            use_type_invariant(self);
        }
        let at: usize = lower_bound(&self.entries, key);
        let ghost pairs = self.pairs();
        proof {
            lemma_map_of_domain(pairs, key.deep_view());
        }
        if at < self.entries.len() {
            let o = self.entries[at].0.order(key);
            assert(pairs[at as int].0 == self.entries[at as int].0.deep_view());
            if let Order::Equal = o {
                proof {
                    lemma_map_of_value::<K, T::V>(pairs, at as int);
                }
                return Some(at);
            }
        }
        proof {
            assert forall|i: int| 0 <= i < pairs.len() implies (#[trigger] pairs[i]).0
                != key.deep_view() by {
                K::before_irreflexive(key.deep_view());
                if i > at {
                    assert(K::before(pairs[at as int].0, pairs[i].0));
                }
            }
        }
        None
    }

    /// The value under `key`, if there is one.
    pub fn get(&self, key: &K) -> (r: Option<&T>)
        ensures
            match r {
                Some(v) => self.deep_view().contains_key(key.deep_view())
                    && self.deep_view()[key.deep_view()] == v.deep_view(),
                None => !self.deep_view().contains_key(key.deep_view()),
            },
    {
        match self.find(key) {
            Some(i) => Some(&self.entries[i].1),
            None => None,
        }
    }

    /// Whether there is an entry under `key`.
    pub fn contains_key(&self, key: &K) -> (r: bool)
        ensures
            r == self.deep_view().contains_key(key.deep_view()),
    {
        self.find(key).is_some()
    }

    /// Puts `value` under `key`, replacing what was there.
    pub fn insert(&mut self, key: K, value: T)
        ensures
            final(self).deep_view() == old(self).deep_view().insert(
                key.deep_view(),
                value.deep_view(),
            ),
    {
        proof {
            use_type_invariant(&*self);
        }
        let ghost before = self.pairs();
        let ghost k = key.deep_view();
        let ghost v = value.deep_view();
        let mut entries: Vec<(K, T)> = Vec::new();
        assert(entries.deep_view() =~= Seq::<(K::V, T::V)>::empty());
        std::mem::swap(&mut entries, &mut self.entries);
        let at: usize = lower_bound(&entries, &key);
        let mut present: bool = false;
        if at < entries.len() {
            let o = entries[at].0.order(&key);
            assert(before[at as int].0 == entries[at as int].0.deep_view());
            if let Order::Equal = o {
                present = true;
            }
        }
        if present {
            entries[at] = (key, value);
            proof {
                let after = entries.deep_view();
                assert(after =~= before.update(at as int, (k, v)));
                assert(ascending::<K, T::V>(after));
                lemma_updated_map::<K, T::V>(before, at as int, k, v);
            }
        } else {
            entries.insert(at, (key, value));
            proof {
                let after = entries.deep_view();
                assert(after =~= before.insert(at as int, (k, v)));
                lemma_inserted_map::<K, T::V>(before, at as int, k, v);
            }
        }
        self.entries = entries;
    }

    /// Puts `value` in the place of the `i`-th entry's value.
    pub fn replace_at(&mut self, i: usize, value: T)
        requires
            i < old(self).pairs().len(),
        ensures
            final(self).pairs() == old(self).pairs().update(
                i as int,
                (old(self).pairs()[i as int].0, value.deep_view()),
            ),
            final(self).deep_view() == old(self).deep_view().insert(
                old(self).pairs()[i as int].0,
                value.deep_view(),
            ),
    {
        proof {
            use_type_invariant(&*self);
        }
        let ghost before = self.pairs();
        let ghost k = before[i as int].0;
        let ghost v = value.deep_view();
        let mut entries: Vec<(K, T)> = Vec::new();
        assert(entries.deep_view() =~= Seq::<(K::V, T::V)>::empty());
        std::mem::swap(&mut entries, &mut self.entries);
        entries[i].1 = value;
        proof {
            assert(entries.deep_view() =~= before.update(i as int, (k, v)));
            lemma_updated_map::<K, T::V>(before, i as int, k, v);
        }
        self.entries = entries;
    }

    /// Takes out the entry under `key`, if there is one.
    pub fn remove(&mut self, key: &K) -> (r: Option<T>)
        ensures
            final(self).deep_view() == old(self).deep_view().remove(key.deep_view()),
            match r {
                Some(v) => old(self).deep_view().contains_key(key.deep_view())
                    && old(self).deep_view()[key.deep_view()] == v.deep_view(),
                None => !old(self).deep_view().contains_key(key.deep_view()),
            },
    {
        proof {
            use_type_invariant(&*self);
        }
        match self.find(key) {
            None => {
                assert(self.deep_view() =~= self.deep_view().remove(key.deep_view()));
                None
            },
            Some(at) => {
                let ghost before = self.pairs();
                let mut entries: Vec<(K, T)> = Vec::new();
                assert(entries.deep_view() =~= Seq::<(K::V, T::V)>::empty());
                std::mem::swap(&mut entries, &mut self.entries);
                let taken = entries.remove(at);
                proof {
                    let after = entries.deep_view();
                    assert(after =~= before.remove(at as int));
                    lemma_removed_map::<K, T::V>(before, at as int);
                    assert(before[at as int].1 == taken.1.deep_view());
                }
                self.entries = entries;
                Some(taken.1)
            },
        }
    }
}

impl<K: SortKey, T: Replica> Replica for SortedMap<K, T> {
    fn replica(&self) -> (r: Self) {
        proof {
            use_type_invariant(self);
        }
        let mut entries: Vec<(K, T)> = Vec::new();
        let mut i: usize = 0;
        while i < self.entries.len()
            invariant
                i <= self.entries.len(),
                entries.deep_view() == self.entries.deep_view().take(i as int),
            decreases self.entries.len() - i,
        {
            let copy = (self.entries[i].0.replica(), self.entries[i].1.replica());
            let ghost done = entries.deep_view();
            entries.push(copy);
            assert(entries.deep_view() =~= done.push(self.entries.deep_view()[i as int]));
            assert(self.entries.deep_view().take(i + 1) =~= done.push(
                self.entries.deep_view()[i as int],
            ));
            i += 1;
        }
        assert(entries.deep_view() =~= self.entries.deep_view());
        SortedMap { entries }
    }
}

proof fn lemma_updated_map<K: SortKey, W>(pairs: Seq<(K::V, W)>, at: int, key: K::V, value: W)
    requires
        ascending::<K, W>(pairs),
        0 <= at < pairs.len(),
        pairs[at].0 == key,
    ensures
        ascending::<K, W>(pairs.update(at, (key, value))),
        map_of(pairs.update(at, (key, value))) == map_of(pairs).insert(key, value),
{
    let after = pairs.update(at, (key, value));
    assert forall|i: int, j: int| 0 <= i < j < after.len() implies K::before(
        #[trigger] after[i].0,
        #[trigger] after[j].0,
    ) by {
        assert(K::before(pairs[i].0, pairs[j].0));
    }
    let l = map_of(after);
    let r = map_of(pairs).insert(key, value);
    assert forall|k: K::V| l.contains_key(k) <==> r.contains_key(k) by {
        lemma_map_of_domain(after, k);
        lemma_map_of_domain(pairs, k);
        assert(after[at].0 == key);
        if exists|i: int| 0 <= i < after.len() && (#[trigger] after[i]).0 == k {
            let i = choose|i: int| 0 <= i < after.len() && (#[trigger] after[i]).0 == k;
            assert(pairs[i].0 == k);
        }
        if exists|i: int| 0 <= i < pairs.len() && (#[trigger] pairs[i]).0 == k {
            let i = choose|i: int| 0 <= i < pairs.len() && (#[trigger] pairs[i]).0 == k;
            assert(after[i].0 == k);
        }
    }
    assert forall|k: K::V| l.contains_key(k) implies l[k] == r[k] by {
        lemma_map_of_domain(after, k);
        let i = choose|i: int| 0 <= i < after.len() && (#[trigger] after[i]).0 == k;
        lemma_map_of_value::<K, W>(after, i);
        lemma_map_of_value::<K, W>(pairs, i);
        if i < at {
            assert(K::before(pairs[i].0, pairs[at].0));
        } else if i > at {
            assert(K::before(pairs[at].0, pairs[i].0));
        }
        K::before_irreflexive(key);
    }
    assert(l =~= r);
}

proof fn lemma_inserted_map<K: SortKey, W>(pairs: Seq<(K::V, W)>, at: int, key: K::V, value: W)
    requires
        ascending::<K, W>(pairs),
        0 <= at <= pairs.len(),
        forall|i: int| 0 <= i < at ==> K::before((#[trigger] pairs[i]).0, key),
        forall|i: int| at <= i < pairs.len() ==> !K::before((#[trigger] pairs[i]).0, key),
        at < pairs.len() ==> pairs[at].0 != key,
    ensures
        ascending::<K, W>(pairs.insert(at, (key, value))),
        map_of(pairs.insert(at, (key, value))) == map_of(pairs).insert(key, value),
{
    let after = pairs.insert(at, (key, value));
    assert forall|i: int| at <= i < pairs.len() implies K::before(key, (#[trigger] pairs[i]).0) by {
        K::before_total(key, pairs[at].0);
        if i > at {
            assert(K::before(pairs[at].0, pairs[i].0));
            K::before_transitive(key, pairs[at].0, pairs[i].0);
        }
    }
    assert forall|i: int, j: int| 0 <= i < j < after.len() implies K::before(
        #[trigger] after[i].0,
        #[trigger] after[j].0,
    ) by {
        let pi = if i < at { i } else { i - 1 };
        let pj = if j < at { j } else { j - 1 };
        if i != at {
            assert(after[i] == pairs[pi]);
        }
        if j != at {
            assert(after[j] == pairs[pj]);
        }
        if i != at && j != at {
            assert(K::before(pairs[pi].0, pairs[pj].0));
        }
    }
    let l = map_of(after);
    let r = map_of(pairs).insert(key, value);
    assert(after[at] == (key, value));
    assert forall|k: K::V| l.contains_key(k) <==> r.contains_key(k) by {
        lemma_map_of_domain(after, k);
        lemma_map_of_domain(pairs, k);
        if exists|i: int| 0 <= i < after.len() && (#[trigger] after[i]).0 == k {
            let i = choose|i: int| 0 <= i < after.len() && (#[trigger] after[i]).0 == k;
            if i < at {
                assert(pairs[i].0 == k);
            } else if i > at {
                assert(pairs[i - 1].0 == k);
            }
        }
        if exists|i: int| 0 <= i < pairs.len() && (#[trigger] pairs[i]).0 == k {
            let i = choose|i: int| 0 <= i < pairs.len() && (#[trigger] pairs[i]).0 == k;
            if i < at {
                assert(after[i].0 == k);
            } else {
                assert(after[i + 1].0 == k);
            }
        }
    }
    assert forall|k: K::V| l.contains_key(k) implies l[k] == r[k] by {
        lemma_map_of_domain(after, k);
        let i = choose|i: int| 0 <= i < after.len() && (#[trigger] after[i]).0 == k;
        lemma_map_of_value::<K, W>(after, i);
        if i < at {
            lemma_map_of_value::<K, W>(pairs, i);
            assert(K::before(pairs[i].0, key));
        } else if i > at {
            lemma_map_of_value::<K, W>(pairs, i - 1);
            assert(K::before(key, pairs[i - 1].0));
        }
        K::before_irreflexive(key);
    }
    assert(l =~= r);
}

proof fn lemma_removed_map<K: SortKey, W>(pairs: Seq<(K::V, W)>, at: int)
    requires
        ascending::<K, W>(pairs),
        0 <= at < pairs.len(),
    ensures
        ascending::<K, W>(pairs.remove(at)),
        map_of(pairs.remove(at)) == map_of(pairs).remove(pairs[at].0),
{
    let after = pairs.remove(at);
    let key = pairs[at].0;
    assert forall|i: int, j: int| 0 <= i < j < after.len() implies K::before(
        #[trigger] after[i].0,
        #[trigger] after[j].0,
    ) by {
        let pi = if i < at { i } else { i + 1 };
        let pj = if j < at { j } else { j + 1 };
        assert(after[i] == pairs[pi]);
        assert(after[j] == pairs[pj]);
        assert(K::before(pairs[pi].0, pairs[pj].0));
    }
    let l = map_of(after);
    let r = map_of(pairs).remove(key);
    assert forall|k: K::V| l.contains_key(k) <==> r.contains_key(k) by {
        lemma_map_of_domain(after, k);
        lemma_map_of_domain(pairs, k);
        if exists|i: int| 0 <= i < after.len() && (#[trigger] after[i]).0 == k {
            let i = choose|i: int| 0 <= i < after.len() && (#[trigger] after[i]).0 == k;
            let pi = if i < at { i } else { i + 1 };
            assert(pairs[pi].0 == k);
            K::before_irreflexive(k);
            if pi < at {
                assert(K::before(pairs[pi].0, pairs[at].0));
            } else {
                assert(K::before(pairs[at].0, pairs[pi].0));
            }
        }
        if k != key && exists|i: int| 0 <= i < pairs.len() && (#[trigger] pairs[i]).0 == k {
            let i = choose|i: int| 0 <= i < pairs.len() && (#[trigger] pairs[i]).0 == k;
            if i < at {
                assert(after[i].0 == k);
            } else {
                assert(after[i - 1].0 == k);
            }
        }
    }
    assert forall|k: K::V| l.contains_key(k) implies l[k] == r[k] by {
        lemma_map_of_domain(after, k);
        let i = choose|i: int| 0 <= i < after.len() && (#[trigger] after[i]).0 == k;
        lemma_map_of_value::<K, W>(after, i);
        let pi = if i < at { i } else { i + 1 };
        lemma_map_of_value::<K, W>(pairs, pi);
    }
    assert(l =~= r);
}

/// Keys are ordered as their parts are: numbers by size, texts as in a dictionary, and pairs
/// by their first part, by the second where the first are equal.
pub proof fn law_keys_are_ordered_by_their_parts(
    a: u64,
    b: u64,
    s: Seq<char>,
    t: Seq<char>,
    u: Seq<char>,
    v: Seq<char>,
)
    ensures
        <u64 as SortKey>::before(a, b) <==> a < b,
        <String as SortKey>::before(s, t) <==> text_lt(s, t),
        <(String, String) as SortKey>::before((s, u), (t, v)) <==> text_lt(s, t) || (s == t
            && text_lt(u, v)),
{
}

/// The entries of a finite map in order hold each of its keys once, with its value, and come
/// in ascending order.
pub proof fn law_rows_are_the_entries<K: SortKey, W>(map: Map<K::V, W>, key: K::V)
    requires
        map.dom().finite(),
    ensures
        ({
            let rows = rows_of::<K, W>(map);
            &&& forall|i: int, j: int|
                0 <= i < j < rows.len() ==> K::before(#[trigger] rows[i].0, #[trigger] rows[j].0)
            &&& map.contains_key(key) <==> exists|i: int|
                0 <= i < rows.len() && (#[trigger] rows[i]).0 == key
            &&& forall|i: int|
                0 <= i < rows.len() ==> map.contains_key((#[trigger] rows[i]).0)
                    && map[rows[i].0] == rows[i].1
        }),
{
    let rows = rows_of::<K, W>(map);
    lemma_finite_rows::<K, W>(map);
    lemma_map_of_domain(rows, key);
    assert forall|i: int| 0 <= i < rows.len() implies map.contains_key((#[trigger] rows[i]).0)
        && map[rows[i].0] == rows[i].1 by {
        lemma_map_of_value::<K, W>(rows, i);
    }
}

} // verus!
