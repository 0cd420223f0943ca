//! Who has been granted what by whom.

use crate::event::{AgentId, Event, EventKind, EventModel, KindModel, Scope, ScopeModel};
use crate::projection::{fold, Projection, ProjectionScope};
use crate::sorted::{
    ascending, lemma_map_of_domain, lemma_map_of_value, Replica, SortKey, SortedMap,
};
use crate::text::text_same;
use vstd::prelude::*;

verus! {

/// One grant of consent.
#[derive(Debug, PartialEq)]
struct Grant {
    from: AgentId,
    to: AgentId,
    scope: Scope,
    expires: Option<u64>,
    revoked: bool,
}

#[verifier::ext_equal]
pub struct GrantModel {
    pub from: Seq<char>,
    pub to: Seq<char>,
    pub scope: ScopeModel,
    pub expires: Option<u64>,
    pub revoked: bool,
}

impl DeepView for Grant {
    type V = GrantModel;

    closed spec fn deep_view(&self) -> GrantModel {
        GrantModel {
            from: self.from.deep_view(),
            to: self.to.deep_view(),
            scope: self.scope.deep_view(),
            expires: self.expires,
            revoked: self.revoked,
        }
    }
}

impl Replica for Grant {
    fn replica(&self) -> (r: Self) {
        Grant {
            from: self.from.replica(),
            to: self.to.replica(),
            scope: self.scope.replica(),
            expires: self.expires,
            revoked: self.revoked,
        }
    }
}

impl Clone for Grant {
    fn clone(&self) -> (r: Self)
        ensures
            r.deep_view() == self.deep_view(),
    {
        self.replica()
    }
}

/// Grants by the sequence number of the event that made them.
pub type GrantsModel = Map<u64, GrantModel>;

/// State of the consent graph projection.
///
/// Keeps a map of grants indexed by the sequence number of the `ConsentGranted`
/// event that created them. Revocation takes a grant out of force; that its receiver
/// once received it is remembered.
#[derive(Debug, PartialEq)]
pub struct ConsentGraphState {
    grants: SortedMap<u64, Grant>,
}

impl DeepView for ConsentGraphState {
    type V = GrantsModel;

    closed spec fn deep_view(&self) -> GrantsModel {
        self.grants.deep_view()
    }
}

impl Replica for ConsentGraphState {
    fn replica(&self) -> (r: Self) {
        ConsentGraphState { grants: self.grants.replica() }
    }
}

impl Clone for ConsentGraphState {
    fn clone(&self) -> (r: Self)
        ensures
            r.deep_view() == self.deep_view(),
    {
        self.replica()
    }
}

impl Default for ConsentGraphState {
    fn default() -> (r: Self)
        ensures
            r.deep_view() == ConsentGraph::initial(),
    {
        ConsentGraph::empty_state()
    }
}

/// A question to the consent graph: a scope at a point in time.
#[verifier::ext_equal]
pub struct Request {
    pub scope: ScopeModel,
    pub now: u64,
}

/// A grant has run out at the given time.
pub open spec fn has_expired(expires: Option<u64>, now: u64) -> bool {
    match expires {
        Some(e) => now >= e,
        None => false,
    }
}

impl GrantModel {
    /// The grant is to `agent` for the scope asked about, in force or not.
    pub open spec fn covers(self, agent: Seq<char>, scope: ScopeModel) -> bool {
        self.to == agent && self.scope == scope
    }

    /// The grant is to `agent` for the scope asked about, and has neither expired nor
    /// been revoked.
    pub open spec fn is_active(self, agent: Seq<char>, ask: Request) -> bool {
        self.covers(agent, ask.scope) && !has_expired(self.expires, ask.now) && !self.revoked
    }
}

/// The grants once one of them was revoked.
pub open spec fn revoked(grants: GrantsModel, seq: u64) -> GrantsModel {
    if grants.contains_key(seq) {
        grants.insert(seq, GrantModel { revoked: true, ..grants[seq] })
    } else {
        grants
    }
}

/// An agent that has never received a grant for the scope: it grants in its own
/// right.
pub open spec fn is_root(grants: GrantsModel, agent: Seq<char>, scope: ScopeModel) -> bool {
    forall|seq: u64|
        #[trigger] grants.contains_key(seq) ==> !grants[seq].covers(agent, scope)
}

/// `agent` holds an active grant from `grantor`.
pub open spec fn holds_from(
    grants: GrantsModel,
    agent: Seq<char>,
    grantor: Seq<char>,
    ask: Request,
) -> bool {
    exists|seq: u64| #[trigger]
        grants.contains_key(seq) && grants[seq].is_active(agent, ask) && grants[seq].from
            == grantor
}

/// `agent` holds an active grant from a root.
pub open spec fn holds_from_root(grants: GrantsModel, agent: Seq<char>, ask: Request) -> bool {
    exists|grantor: Seq<char>| #[trigger]
        holds_from(grants, agent, grantor, ask) && is_root(grants, grantor, ask.scope)
}

/// A delegation chain: each agent holds an active grant from the next, the last
/// one from a root, and none of them is to be avoided.
pub open spec fn is_chain(
    grants: GrantsModel,
    chain: Seq<Seq<char>>,
    avoid: Set<Seq<char>>,
    ask: Request,
) -> bool {
    &&& chain.len() > 0
    &&& forall|i: int| 0 <= i < chain.len() ==> !avoid.contains(#[trigger] chain[i])
    &&& forall|i: int, j: int|
        0 <= i && j == i + 1 && j < chain.len() ==> holds_from(
            grants,
            #[trigger] chain[i],
            #[trigger] chain[j],
            ask,
        )
    &&& holds_from_root(grants, chain.last(), ask)
}

/// A delegation chain that starts at `agent` leads to a root without touching
/// the agents to be avoided.
pub open spec fn is_backed(
    grants: GrantsModel,
    agent: Seq<char>,
    avoid: Set<Seq<char>>,
    ask: Request,
) -> bool {
    exists|chain: Seq<Seq<char>>| #[trigger]
        is_chain(grants, chain, avoid, ask) && chain[0] == agent
}

/// The grant `seq` authorizes `agent`: it is an active grant whose grantor is a
/// root, or is itself authorized through a chain that does not pass through the
/// agents to be avoided.
pub open spec fn authorizes(
    grants: GrantsModel,
    seq: u64,
    agent: Seq<char>,
    avoid: Set<Seq<char>>,
    ask: Request,
) -> bool {
    &&& grants.contains_key(seq)
    &&& grants[seq].is_active(agent, ask)
    &&& is_root(grants, grants[seq].from, ask.scope) || is_backed(grants, grants[seq].from, avoid, ask)
}

/// `found` is the earliest grant that authorizes `agent`, or nothing where none
/// does.
pub open spec fn is_first_authorizing(
    grants: GrantsModel,
    found: Option<u64>,
    agent: Seq<char>,
    avoid: Set<Seq<char>>,
    ask: Request,
) -> bool {
    match found {
        Some(seq) => authorizes(grants, seq, agent, avoid, ask) && forall|other: u64|
            other < seq ==> !#[trigger] authorizes(grants, other, agent, avoid, ask),
        None => forall|other: u64| !#[trigger] authorizes(grants, other, agent, avoid, ask),
    }
}

/// Every active grant to an agent of `seen`, but for those of `start`, comes
/// from an agent of `seen` that is no root.
spec fn is_closed(
    grants: GrantsModel,
    seen: Set<Seq<char>>,
    start: Set<Seq<char>>,
    ask: Request,
) -> bool {
    forall|agent: Seq<char>, grantor: Seq<char>| #[trigger]
        holds_from(grants, agent, grantor, ask) && seen.contains(agent) && !start.contains(agent)
            ==> seen.contains(grantor) && !is_root(grants, grantor, ask.scope)
}

proof fn lemma_closed_has_no_backing(
    grants: GrantsModel,
    seen: Set<Seq<char>>,
    start: Set<Seq<char>>,
    agent: Seq<char>,
    ask: Request,
)
    requires
        is_closed(grants, seen, start, ask),
        seen.contains(agent),
    ensures
        !is_backed(grants, agent, start, ask),
{
    if is_backed(grants, agent, start, ask) {
        let chain = choose|chain: Seq<Seq<char>>| #[trigger]
            is_chain(grants, chain, start, ask) && chain[0] == agent;
        lemma_chain_stays(grants, seen, start, chain, chain.len() - 1, ask);
        let last = chain.last();
        assert(last == chain[chain.len() - 1]);
        let root = choose|grantor: Seq<char>| #[trigger]
            holds_from(grants, last, grantor, ask) && is_root(grants, grantor, ask.scope);
        assert(holds_from(grants, last, root, ask));
    }
}

proof fn lemma_chain_stays(
    grants: GrantsModel,
    seen: Set<Seq<char>>,
    start: Set<Seq<char>>,
    chain: Seq<Seq<char>>,
    i: int,
    ask: Request,
)
    requires
        is_closed(grants, seen, start, ask),
        is_chain(grants, chain, start, ask),
        seen.contains(chain[0]),
        0 <= i < chain.len(),
    ensures
        seen.contains(chain[i]),
    decreases i,
{
    if i > 0 {
        lemma_chain_stays(grants, seen, start, chain, i - 1, ask);
        assert(holds_from(grants, chain[i - 1], chain[i], ask));
    }
}

proof fn lemma_backing_extends(
    grants: GrantsModel,
    seq: u64,
    agent: Seq<char>,
    avoid: Set<Seq<char>>,
    wider: Set<Seq<char>>,
    ask: Request,
)
    requires
        authorizes(grants, seq, agent, wider, ask),
        avoid.subset_of(wider),
        !avoid.contains(agent),
    ensures
        is_backed(grants, agent, avoid, ask),
{
    let grantor = grants[seq].from;
    assert(grants.contains_key(seq));
    assert(holds_from(grants, agent, grantor, ask));
    if is_root(grants, grantor, ask.scope) {
        let chain = seq![agent];
        assert(holds_from_root(grants, chain.last(), ask));
        assert(is_chain(grants, chain, avoid, ask));
        assert(chain[0] == agent);
    } else {
        let rest = choose|chain: Seq<Seq<char>>| #[trigger]
            is_chain(grants, chain, wider, ask) && chain[0] == grantor;
        let chain = seq![agent] + rest;
        assert forall|i: int| 0 <= i < chain.len() implies !avoid.contains(#[trigger] chain[i]) by {
            if i > 0 {
                assert(chain[i] == rest[i - 1]);
            }
        }
        assert forall|i: int, j: int|
            0 <= i && j == i + 1 && j < chain.len() implies holds_from(
            grants,
            #[trigger] chain[i],
            #[trigger] chain[j],
            ask,
        ) by {
            assert(chain[j] == rest[j - 1]);
            if i > 0 {
                assert(chain[i] == rest[i - 1]);
                assert(holds_from(grants, rest[i - 1], rest[j - 1], ask));
            }
        }
        assert(chain.last() == rest.last());
        assert(is_chain(grants, chain, avoid, ask));
        assert(chain[0] == agent);
    }
}

/// Whether a grant has run out.
pub fn is_expired(expires: Option<u64>, now_ms: u64) -> (r: bool)
    ensures
        r == has_expired(expires, now_ms),
{
    match expires {
        Some(e) => now_ms >= e,
        None => false,
    }
}

impl ConsentGraphState {
    /// Find the sequence number of an active grant that authorizes `to` to
    /// perform `action` on `resource` at the given timestamp.
    ///
    /// Returns `None` if no matching grant is in force. Delegation chains are
    /// followed transitively: a grant `A → B` and another grant `B → C` authorize
    /// `C` as long as every link in the chain is valid for the same scope and has
    /// neither expired nor been revoked.
    ///
    /// The returned sequence number is always the **direct** grant closest to
    /// the requesting agent (`to`).
    pub fn find_active_grant(
        &self,
        to: &AgentId,
        action: &str,
        resource: &str,
        now_ms: u64,
    ) -> (r: Option<u64>)
        ensures
            is_first_authorizing(
                self.deep_view(),
                r,
                to.deep_view(),
                set![to.deep_view()],
                Request { scope: ScopeModel { action: action@, resource: resource@ }, now: now_ms },
            ),
    {
        let mut visited: SortedMap<String, ()> = SortedMap::new();
        let n: usize = self.grants.len();
        let ghost pairs = self.grants.pairs();
        let ghost grantors = Seq::new(pairs.len(), |i: int| pairs[i].1.from);
        let ghost universe = grantors.to_set().insert(to.deep_view());
        proof {
            vstd::seq_lib::seq_to_set_is_finite(grantors);
            assert forall|seq: u64| #[trigger]
                self.deep_view().contains_key(seq) implies universe.contains(
                self.deep_view()[seq].from,
            ) by {
                lemma_map_of_domain(pairs, seq);
                let i = choose|i: int| 0 <= i < pairs.len() && (#[trigger] pairs[i]).0 == seq;
                lemma_map_of_value::<u64, GrantModel>(pairs, i);
                assert(grantors[i] == pairs[i].1.from);
                assert(grantors.contains(grantors[i]));
            }
            assert(visited.deep_view().dom() =~= Set::empty());
            assert(Set::<Seq<char>>::empty().insert(to.deep_view()) =~= set![to.deep_view()]);
        }
        self.find_active_grant_rec(
            &to.0,
            action,
            resource,
            now_ms,
            &mut visited,
            Ghost(universe),
        )
    }

    fn find_active_grant_rec(
        &self,
        current: &String,
        action: &str,
        resource: &str,
        now_ms: u64,
        visited: &mut SortedMap<String, ()>,
        Ghost(universe): Ghost<Set<Seq<char>>>,
    ) -> (r: Option<u64>)
        requires
            !old(visited).deep_view().contains_key(current@),
            universe.finite(),
            universe.contains(current@),
            forall|seq: u64| #[trigger]
                self.deep_view().contains_key(seq) ==> universe.contains(
                    self.deep_view()[seq].from,
                ),
        ensures
            old(visited).deep_view().dom().subset_of(final(visited).deep_view().dom()),
            ({
                let ask = Request {
                    scope: ScopeModel { action: action@, resource: resource@ },
                    now: now_ms,
                };
                let start = old(visited).deep_view().dom();
                &&& is_first_authorizing(
                    self.deep_view(),
                    r,
                    current@,
                    start.insert(current@),
                    ask,
                )
                &&& r is None ==> final(visited).deep_view().contains_key(current@) && is_closed(
                    self.deep_view(),
                    final(visited).deep_view().dom(),
                    start,
                    ask,
                )
            }),
        decreases universe.difference(old(visited).deep_view().dom()).len(),
    {
        let ghost ask = Request {
            scope: ScopeModel { action: action@, resource: resource@ },
            now: now_ms,
        };
        let ghost grants = self.deep_view();
        let ghost start = visited.deep_view().dom();
        let ghost begun = start.insert(current@);
        visited.insert(current.clone(), ());
        assert(visited.deep_view().dom() =~= begun);
        let n: usize = self.grants.len();
        let ghost pairs = self.grants.pairs();
        let mut i: usize = 0;
        while i < n
            invariant
                i <= n,
                n == pairs.len(),
                pairs == self.grants.pairs(),
                grants == self.deep_view(),
                grants == self.grants.deep_view(),
                ascending::<u64, GrantModel>(pairs),
                ask == (Request {
                    scope: ScopeModel { action: action@, resource: resource@ },
                    now: now_ms,
                }),
                start == old(visited).deep_view().dom(),
                begun == start.insert(current@),
                begun.subset_of(visited.deep_view().dom()),
                is_closed(grants, visited.deep_view().dom(), begun, ask),
                forall|j: int|
                    0 <= j < i ==> !authorizes(
                        grants,
                        (#[trigger] pairs[j]).0,
                        current@,
                        begun,
                        ask,
                    ),
                forall|j: int|
                    0 <= j < i && (#[trigger] pairs[j]).1.is_active(current@, ask)
                        ==> visited.deep_view().contains_key(pairs[j].1.from) && !is_root(
                        grants,
                        pairs[j].1.from,
                        ask.scope,
                    ),
                !start.contains(current@),
                universe.finite(),
                universe.contains(current@),
                forall|seq: u64| #[trigger]
                    grants.contains_key(seq) ==> universe.contains(grants[seq].from),
            decreases n - i,
        {
            let seq: u64 = *self.grants.key_at(i);
            let grant = self.grants.value_at(i);
            assert(grants[pairs[i as int].0] == pairs[i as int].1);
            if grant.to.0 == *current && text_same(grant.scope.action.as_str(), action)
                && text_same(grant.scope.resource.as_str(), resource) && !is_expired(
                grant.expires,
                now_ms,
            ) && !grant.revoked {
                assert(pairs[i as int].1.is_active(current@, ask));
                // A grantor is a root for this scope only if it has never received
                // a grant for the same scope (in force or not). If it has, it must
                // itself be authorized through a chain whose links are all in force.
                if !self.has_incoming(&grant.from.0, action, resource) {
                    assert(is_root(grants, pairs[i as int].1.from, ask.scope));
                    assert(authorizes(grants, seq, current@, begun, ask));
                    proof {
                        self.lemma_none_earlier(pairs, i as int, current@, begun, ask);
                    }
                    return Some(seq);
                }
                let ghost grantor = pairs[i as int].1.from;
                if visited.contains_key(&grant.from.0) {
                    proof {
                        lemma_closed_has_no_backing(
                            grants,
                            visited.deep_view().dom(),
                            begun,
                            grantor,
                            ask,
                        );
                    }
                } else {
                    let ghost seen = visited.deep_view().dom();
                    proof {
                        let left = universe.difference(seen);
                        assert(left.subset_of(universe.difference(start).remove(current@)));
                        vstd::set_lib::lemma_len_subset(
                            left,
                            universe.difference(start).remove(current@),
                        );
                    }
                    let found = self.find_active_grant_rec(
                        &grant.from.0,
                        action,
                        resource,
                        now_ms,
                        visited,
                        Ghost(universe),
                    );
                    if found.is_some() {
                        proof {
                            let inner = found->0;
                            lemma_backing_extends(
                                grants,
                                inner,
                                grantor,
                                begun,
                                seen.insert(grantor),
                                ask,
                            );
                            assert(authorizes(grants, seq, current@, begun, ask));
                            self.lemma_none_earlier(pairs, i as int, current@, begun, ask);
                        }
                        return Some(seq);
                    }
                    proof {
                        let now_seen = visited.deep_view().dom();
                        assert(is_closed(grants, now_seen, begun, ask)) by {
                            assert forall|agent: Seq<char>, from: Seq<char>| #[trigger]
                                holds_from(grants, agent, from, ask) && now_seen.contains(agent)
                                    && !begun.contains(agent) implies now_seen.contains(from)
                                && !is_root(grants, from, ask.scope) by {
                                if seen.contains(agent) {
                                    assert(seen.contains(from));
                                }
                            }
                        }
                        lemma_closed_has_no_backing(grants, now_seen, begun, grantor, ask);
                    }
                }
            }
            i += 1;
        }
        proof {
            self.lemma_none_earlier(pairs, n as int, current@, begun, ask);
            let seen = visited.deep_view().dom();
            assert forall|agent: Seq<char>, from: Seq<char>| #[trigger]
                holds_from(grants, agent, from, ask) && seen.contains(agent) && !start.contains(
                    agent,
                ) implies seen.contains(from) && !is_root(grants, from, ask.scope) by {
                if agent == current@ {
                    let seq = choose|seq: u64| #[trigger]
                        grants.contains_key(seq) && grants[seq].is_active(agent, ask)
                            && grants[seq].from == from;
                    lemma_map_of_domain(pairs, seq);
                    let j = choose|j: int| 0 <= j < pairs.len() && (#[trigger] pairs[j]).0 == seq;
                    lemma_map_of_value::<u64, GrantModel>(pairs, j);
                } else {
                    assert(!begun.contains(agent));
                }
            }
        }
        None
    }

    /// No grant that comes before the `i`-th authorizes the agent.
    proof fn lemma_none_earlier(
        &self,
        pairs: Seq<(u64, GrantModel)>,
        i: int,
        agent: Seq<char>,
        avoid: Set<Seq<char>>,
        ask: Request,
    )
        requires
            pairs == self.grants.pairs(),
            ascending::<u64, GrantModel>(pairs),
            0 <= i <= pairs.len(),
            forall|j: int|
                0 <= j < i ==> !authorizes(
                    self.deep_view(),
                    (#[trigger] pairs[j]).0,
                    agent,
                    avoid,
                    ask,
                ),
        ensures
            forall|other: u64|
                (i < pairs.len() ==> other < pairs[i].0) ==> !#[trigger] authorizes(
                    self.deep_view(),
                    other,
                    agent,
                    avoid,
                    ask,
                ),
    {
        assert forall|other: u64| (i < pairs.len() ==> other < pairs[i].0) implies !#[trigger] authorizes(
            self.deep_view(),
            other,
            agent,
            avoid,
            ask,
        ) by {
            lemma_map_of_domain(pairs, other);
            if self.deep_view().contains_key(other) {
                let j = choose|j: int| 0 <= j < pairs.len() && (#[trigger] pairs[j]).0 == other;
                if j >= i {
                    if j > i {
                        assert(<u64 as SortKey>::before(pairs[i].0, pairs[j].0));
                    }
                }
            }
        }
    }

    /// Whether the agent has ever received a grant for the scope, in force or not.
    fn has_incoming(&self, agent: &String, action: &str, resource: &str) -> (r: bool)
        ensures
            r == !is_root(
                self.deep_view(),
                agent@,
                ScopeModel { action: action@, resource: resource@ },
            ),
    {
        let n: usize = self.grants.len();
        let ghost pairs = self.grants.pairs();
        let ghost scope = ScopeModel { action: action@, resource: resource@ };
        let mut i: usize = 0;
        while i < n
            invariant
                i <= n,
                n == pairs.len(),
                pairs == self.grants.pairs(),
                scope == (ScopeModel { action: action@, resource: resource@ }),
                ascending::<u64, GrantModel>(pairs),
                forall|j: int|
                    0 <= j < i ==> !((#[trigger] pairs[j]).1.to == agent@ && pairs[j].1.scope
                        == scope),
            decreases n - i,
        {
            let grant = self.grants.value_at(i);
            if grant.to.0 == *agent && text_same(grant.scope.action.as_str(), action) && text_same(
                grant.scope.resource.as_str(),
                resource,
            ) {
                assert(self.deep_view().contains_key(pairs[i as int].0));
                assert(grant.scope.deep_view() == scope);
                return true;
            }
            assert(!(grant.deep_view().to == agent@ && grant.deep_view().scope == scope));
            i += 1;
        }
        proof {
            assert forall|seq: u64| #[trigger]
                self.deep_view().contains_key(seq) implies !(self.deep_view()[seq].to == agent@
                && self.deep_view()[seq].scope == scope) by {
                lemma_map_of_domain(pairs, seq);
                let j = choose|j: int| 0 <= j < pairs.len() && (#[trigger] pairs[j]).0 == seq;
                lemma_map_of_value::<u64, GrantModel>(pairs, j);
            }
        }
        false
    }

    /// Returns true if there is at least one active grant for `to` matching
    /// the given action/resource.
    pub fn is_authorized(&self, to: &AgentId, action: &str, resource: &str, now_ms: u64) -> (r:
        bool)
        ensures
            r == exists|seq: u64| #[trigger]
                authorizes(
                    self.deep_view(),
                    seq,
                    to.deep_view(),
                    set![to.deep_view()],
                    Request {
                        scope: ScopeModel { action: action@, resource: resource@ },
                        now: now_ms,
                    },
                ),
    {
        self.find_active_grant(to, action, resource, now_ms).is_some()
    }
}

/// Marker type for the `ConsentGraph` projection.
pub struct ConsentGraph;

impl Projection for ConsentGraph {
    type State = ConsentGraphState;

    open spec fn initial() -> GrantsModel {
        Map::empty()
    }

    open spec fn step(state: GrantsModel, event: EventModel) -> GrantsModel {
        match event.kind {
            KindModel::ConsentGranted { from, to, scope, expires } => state.insert(
                event.seq,
                GrantModel { from, to, scope, expires, revoked: false },
            ),
            KindModel::ConsentRevoked { grant_seq } => revoked(state, grant_seq),
            _ => state,
        }
    }

    open spec fn combined(whole: GrantsModel, part: GrantsModel) -> GrantsModel {
        part
    }

    open spec fn fits(state: GrantsModel) -> bool {
        true
    }

    open spec fn lives_in() -> ProjectionScope {
        ProjectionScope::Global
    }

    open spec fn registered_as() -> Seq<char> {
        "ConsentGraph"@
    }

    proof fn fits_before_step(state: GrantsModel, event: EventModel) {
    }

    proof fn state_fits(state: &ConsentGraphState) {
    }

    proof fn fits_before_combined(whole: GrantsModel, part: GrantsModel) {
    }

    fn name() -> (r: &'static str) {
        "ConsentGraph"
    }

    fn scope() -> (r: ProjectionScope) {
        ProjectionScope::Global
    }

    fn empty_state() -> (r: ConsentGraphState) {
        let state = ConsentGraphState { grants: SortedMap::new() };
        assert(state.deep_view() == state.grants.deep_view());
        assert(Self::initial() == GrantsModel::empty());
        state
    }

    fn apply(state: &mut ConsentGraphState, event: &Event) {
        match &event.kind {
            EventKind::ConsentGranted { from, to, scope, expires } => {
                state.grants.insert(
                    event.seq,
                    Grant {
                        from: from.clone(),
                        to: to.clone(),
                        scope: scope.clone(),
                        expires: *expires,
                        revoked: false,
                    },
                );
            },
            EventKind::ConsentRevoked { grant_seq } => {
                let ghost before = state.grants.deep_view();
                if let Some(grant) = state.grants.remove(grant_seq) {
                    state.grants.insert(*grant_seq, Grant { revoked: true, ..grant });
                }
                assert(state.grants.deep_view() =~= revoked(before, *grant_seq));
            },
            _ => {},
        }
        assert(state.deep_view() == state.grants.deep_view());
    }

    fn merge(whole: &mut ConsentGraphState, part: &ConsentGraphState) {
        *whole = part.replica();
    }
}

/// A revoked grant authorizes nobody.
pub proof fn law_revoked_grants_are_void(
    grants: GrantsModel,
    seq: u64,
    agent: Seq<char>,
    avoid: Set<Seq<char>>,
    ask: Request,
)
    ensures
        !authorizes(revoked(grants, seq), seq, agent, avoid, ask),
{
}

/// Revoking a grant makes nobody a root who was none: whoever received the grant has
/// still received it.
pub proof fn law_revoking_makes_no_roots(
    grants: GrantsModel,
    seq: u64,
    agent: Seq<char>,
    scope: ScopeModel,
)
    ensures
        is_root(revoked(grants, seq), agent, scope) == is_root(grants, agent, scope),
{
    let after = revoked(grants, seq);
    assert forall|link: u64| #[trigger] grants.contains_key(link) implies after.contains_key(link)
        && after[link].covers(agent, scope) == grants[link].covers(agent, scope) by {
    }
    if is_root(after, agent, scope) {
        assert forall|link: u64| #[trigger] grants.contains_key(link) implies !grants[link].covers(
            agent,
            scope,
        ) by {
            assert(after.contains_key(link));
        }
    }
}

/// Every link of a chain must be in force: an agent that has received a grant for the
/// scope, and of whose grants for it none is in force, passes nothing on.
pub proof fn law_chains_need_every_link(
    grants: GrantsModel,
    seq: u64,
    agent: Seq<char>,
    avoid: Set<Seq<char>>,
    ask: Request,
)
    requires
        grants.contains_key(seq),
        !is_root(grants, grants[seq].from, ask.scope),
        forall|link: u64| #[trigger]
            grants.contains_key(link) ==> !grants[link].is_active(grants[seq].from, ask),
    ensures
        !authorizes(grants, seq, agent, avoid, ask),
{
    let middle = grants[seq].from;
    if is_backed(grants, middle, avoid, ask) {
        let chain = choose|chain: Seq<Seq<char>>| #[trigger]
            is_chain(grants, chain, avoid, ask) && chain[0] == middle;
        if chain.len() > 1 {
            assert(holds_from(grants, chain[0], chain[1], ask));
        } else {
            assert(chain.last() == middle);
            let root = choose|grantor: Seq<char>| #[trigger]
                holds_from(grants, middle, grantor, ask) && is_root(grants, grantor, ask.scope);
            assert(holds_from(grants, middle, root, ask));
        }
    }
}

/// An expired grant authorizes nobody.
pub proof fn law_expired_grants_are_void(
    grants: GrantsModel,
    seq: u64,
    agent: Seq<char>,
    avoid: Set<Seq<char>>,
    ask: Request,
)
    requires
        grants.contains_key(seq),
        has_expired(grants[seq].expires, ask.now),
    ensures
        !authorizes(grants, seq, agent, avoid, ask),
{
}

/// An active grant from a root authorizes the agent it is to.
pub proof fn law_roots_authorize(
    grants: GrantsModel,
    seq: u64,
    agent: Seq<char>,
    avoid: Set<Seq<char>>,
    ask: Request,
)
    requires
        grants.contains_key(seq),
        grants[seq].is_active(agent, ask),
        is_root(grants, grants[seq].from, ask.scope),
    ensures
        authorizes(grants, seq, agent, avoid, ask),
{
}

/// Authority is passed on: an active grant from an agent that is itself authorized,
/// without the help of the agent that the grant is to, authorizes that agent.
pub proof fn law_authority_is_passed_on(
    grants: GrantsModel,
    seq: u64,
    link: u64,
    agent: Seq<char>,
    ask: Request,
)
    requires
        grants.contains_key(seq),
        grants[seq].is_active(agent, ask),
        grants[seq].from != agent,
        authorizes(grants, link, grants[seq].from, set![agent, grants[seq].from], ask),
    ensures
        authorizes(grants, seq, agent, set![agent], ask),
{
    lemma_backing_extends(
        grants,
        link,
        grants[seq].from,
        set![agent],
        set![agent, grants[seq].from],
        ask,
    );
}

/// Where no active grant comes from a root, nobody is authorized: agents that grant
/// to each other in a circle gain nothing, and a chain breaks with the link that
/// comes from its root.
pub proof fn law_without_roots_nobody_is_authorized(
    grants: GrantsModel,
    seq: u64,
    agent: Seq<char>,
    avoid: Set<Seq<char>>,
    ask: Request,
)
    requires
        forall|link: u64, to: Seq<char>| #[trigger]
            grants.contains_key(link) && #[trigger] grants[link].is_active(to, ask) ==> !is_root(
                grants,
                grants[link].from,
                ask.scope,
            ),
    ensures
        !authorizes(grants, seq, agent, avoid, ask),
{
    if authorizes(grants, seq, agent, avoid, ask) {
        assert(grants.contains_key(seq) && grants[seq].is_active(agent, ask));
        let chain = choose|chain: Seq<Seq<char>>| #[trigger]
            is_chain(grants, chain, avoid, ask) && chain[0] == grants[seq].from;
        let last = chain.last();
        let root = choose|grantor: Seq<char>| #[trigger]
            holds_from(grants, last, grantor, ask) && is_root(grants, grantor, ask.scope);
        let link = choose|link: u64| #[trigger]
            grants.contains_key(link) && grants[link].is_active(last, ask) && grants[link].from
                == root;
        assert(grants.contains_key(link) && grants[link].is_active(last, ask));
    }
}

/// A grant authorizes only the agent that it is to, and only for the very action and the
/// very resource of its scope, while it is in force.
pub proof fn law_grants_cover_their_scope_only(
    grants: GrantsModel,
    seq: u64,
    agent: Seq<char>,
    avoid: Set<Seq<char>>,
    ask: Request,
)
    requires
        authorizes(grants, seq, agent, avoid, ask),
    ensures
        grants.contains_key(seq),
        grants[seq].to == agent,
        grants[seq].scope.action == ask.scope.action,
        grants[seq].scope.resource == ask.scope.resource,
        !grants[seq].revoked,
        grants[seq].expires matches Some(end) ==> ask.now < end,
{
}

/// A grant is in force for the action and the resource that are asked about.
pub open spec fn is_in_force(grant: GrantModel, ask: Request) -> bool {
    &&& grant.scope.action == ask.scope.action
    &&& grant.scope.resource == ask.scope.resource
    &&& !grant.revoked
    &&& grant.expires matches Some(end) ==> ask.now < end
}

/// The agent was once granted the action on the resource.
pub open spec fn has_received(grants: GrantsModel, agent: Seq<char>, ask: Request) -> bool {
    exists|seq: u64| #[trigger]
        grants.contains_key(seq) && grants[seq].to == agent && grants[seq].scope.action
            == ask.scope.action && grants[seq].scope.resource == ask.scope.resource
}

/// A delegation: grants in force, the first to the agent, each from the agent that the next
/// one is to, the last from an agent that was never granted the scope itself. No grant of
/// it comes from the agent.
pub open spec fn is_delegation(
    grants: GrantsModel,
    links: Seq<u64>,
    agent: Seq<char>,
    ask: Request,
) -> bool {
    &&& links.len() > 0
    &&& forall|i: int|
        0 <= i < links.len() ==> grants.contains_key(#[trigger] links[i]) && is_in_force(
            grants[links[i]],
            ask,
        ) && grants[links[i]].from != agent
    &&& grants[links[0]].to == agent
    &&& forall|i: int, j: int|
        0 <= i && j == i + 1 && j < links.len() ==> grants[#[trigger] links[i]].from
            == grants[#[trigger] links[j]].to
    &&& !has_received(grants, grants[links.last()].from, ask)
}

proof fn lemma_root_received_nothing(grants: GrantsModel, agent: Seq<char>, ask: Request)
    ensures
        is_root(grants, agent, ask.scope) <==> !has_received(grants, agent, ask),
{
    if !is_root(grants, agent, ask.scope) {
        let seq = choose|seq: u64| #[trigger]
            grants.contains_key(seq) && grants[seq].covers(agent, ask.scope);
        assert(grants.contains_key(seq) && grants[seq].to == agent);
    }
    if has_received(grants, agent, ask) {
        let seq = choose|seq: u64| #[trigger]
            grants.contains_key(seq) && grants[seq].to == agent && grants[seq].scope.action
                == ask.scope.action && grants[seq].scope.resource == ask.scope.resource;
        assert(grants[seq].scope =~= ask.scope);
        assert(grants[seq].covers(agent, ask.scope));
    }
}

/// The grant by which one agent holds the scope from another.
spec fn held_by(
    grants: GrantsModel,
    agent: Seq<char>,
    grantor: Seq<char>,
    ask: Request,
) -> u64 {
    choose|seq: u64| #[trigger]
        grants.contains_key(seq) && grants[seq].is_active(agent, ask) && grants[seq].from == grantor
}

/// A grant authorizes an agent exactly if a delegation begins with it.
pub proof fn law_authority_is_a_delegation(
    grants: GrantsModel,
    seq: u64,
    agent: Seq<char>,
    ask: Request,
)
    ensures
        authorizes(grants, seq, agent, set![agent], ask) <==> exists|links: Seq<u64>| #[trigger]
            is_delegation(grants, links, agent, ask) && links[0] == seq,
{
    let avoid = set![agent];
    if authorizes(grants, seq, agent, avoid, ask) {
        let grantor = grants[seq].from;
        lemma_root_received_nothing(grants, grantor, ask);
        if is_root(grants, grantor, ask.scope) {
            assert(grants.contains_key(seq));
            let links = seq![seq];
            assert(links.last() == seq);
            assert(is_delegation(grants, links, agent, ask) && links[0] == seq);
        } else {
            let chain = choose|chain: Seq<Seq<char>>| #[trigger]
                is_chain(grants, chain, avoid, ask) && chain[0] == grantor;
            let root = choose|from: Seq<char>| #[trigger]
                holds_from(grants, chain.last(), from, ask) && is_root(grants, from, ask.scope);
            lemma_root_received_nothing(grants, root, ask);
            let names = chain.push(root);
            let rest = Seq::new(
                chain.len(),
                |i: int| held_by(grants, names[i], names[i + 1], ask),
            );
            let links = seq![seq] + rest;
            assert forall|i: int| 0 <= i < rest.len() implies grants.contains_key(
                #[trigger] rest[i],
            ) && grants[rest[i]].is_active(names[i], ask) && grants[rest[i]].from == names[i
                + 1] by {
                if i + 1 < chain.len() {
                    assert(holds_from(grants, chain[i], chain[i + 1], ask));
                } else {
                    assert(chain[i] == chain.last());
                }
                assert(holds_from(grants, names[i], names[i + 1], ask));
            }
            assert(grants.contains_key(seq));
            assert(root != agent);
            assert forall|i: int| 0 <= i < links.len() implies grants.contains_key(
                #[trigger] links[i],
            ) && is_in_force(grants[links[i]], ask) && grants[links[i]].from != agent by {
                if i == 0 {
                    assert(!avoid.contains(chain[0]));
                } else {
                    assert(links[i] == rest[i - 1]);
                    if i < chain.len() {
                        assert(!avoid.contains(chain[i]));
                    }
                }
            }
            assert forall|i: int, j: int| 0 <= i && j == i + 1 && j < links.len() implies grants[
            #[trigger] links[i]].from == grants[#[trigger] links[j]].to by {
                assert(links[j] == rest[j - 1]);
                if i > 0 {
                    assert(links[i] == rest[i - 1]);
                }
            }
            assert(links.last() == rest[rest.len() - 1]);
            assert(grants[links.last()].from == root);
            assert(is_delegation(grants, links, agent, ask) && links[0] == seq);
        }
    }
    if exists|links: Seq<u64>| #[trigger]
        is_delegation(grants, links, agent, ask) && links[0] == seq {
        let links = choose|links: Seq<u64>| #[trigger]
            is_delegation(grants, links, agent, ask) && links[0] == seq;
        assert forall|i: int| 0 <= i < links.len() implies grants[#[trigger] links[i]].is_active(
            grants[links[i]].to,
            ask,
        ) by {
            assert(grants[links[i]].scope =~= ask.scope);
        }
        let root = grants[links.last()].from;
        lemma_root_received_nothing(grants, root, ask);
        assert(grants.contains_key(links[0]));
        if links.len() == 1 {
            assert(links.last() == seq);
        } else {
            let chain = Seq::new((links.len() - 1) as nat, |i: int| grants[links[i + 1]].to);
            assert forall|i: int| 0 <= i < chain.len() implies !avoid.contains(
                #[trigger] chain[i],
            ) by {
                assert(grants[links[i]].from == grants[links[i + 1]].to);
            }
            assert forall|i: int, j: int|
                0 <= i && j == i + 1 && j < chain.len() implies holds_from(
                grants,
                #[trigger] chain[i],
                #[trigger] chain[j],
                ask,
            ) by {
                assert(grants.contains_key(links[i + 1]));
                assert(grants[links[i + 1]].from == grants[links[j + 1]].to);
            }
            let last = links[links.len() - 1];
            assert(grants.contains_key(last));
            assert(holds_from(grants, chain.last(), root, ask));
            assert(holds_from_root(grants, chain.last(), ask));
            assert(is_chain(grants, chain, avoid, ask));
            assert(grants[links[0]].from == grants[links[1]].to);
            assert(chain[0] == grants[seq].from);
        }
    }
}

/// The grant that is found for an agent is the earliest with which a delegation begins, and
/// none is found only where there is no delegation.
pub proof fn law_the_earliest_grant_is_found(
    grants: GrantsModel,
    found: Option<u64>,
    agent: Seq<char>,
    ask: Request,
)
    requires
        is_first_authorizing(grants, found, agent, set![agent], ask),
    ensures
        found matches Some(seq) ==> exists|links: Seq<u64>| #[trigger]
            is_delegation(grants, links, agent, ask) && links[0] == seq,
        forall|links: Seq<u64>| #[trigger]
            is_delegation(grants, links, agent, ask) ==> found is Some && found->0 <= links[0],
{
    if let Some(seq) = found {
        law_authority_is_a_delegation(grants, seq, agent, ask);
    }
    assert forall|links: Seq<u64>| #[trigger] is_delegation(grants, links, agent, ask) implies
        found is Some && found->0 <= links[0] by {
        law_authority_is_a_delegation(grants, links[0], agent, ask);
        assert(authorizes(grants, links[0], agent, set![agent], ask));
    }
}

/// The event grants what the grant says.
pub open spec fn makes_grant(event: EventModel, grant: GrantModel) -> bool {
    event.kind matches KindModel::ConsentGranted { from, to, scope, expires } && from == grant.from
        && to == grant.to && scope == grant.scope && expires == grant.expires
}

/// An event after a place of the log revokes the grant.
pub open spec fn is_revoked_after(events: Seq<EventModel>, i: int, seq: u64) -> bool {
    exists|j: int|
        i < j < events.len() && (#[trigger] events[j]).kind == (KindModel::ConsentRevoked {
            grant_seq: seq,
        })
}

/// The consent graph holds a grant for every event of the log that granted one, and no
/// other; a grant is revoked exactly if a later event revoked it.
pub proof fn law_grants_replay_the_log(events: Seq<EventModel>)
    requires
        forall|i: int, j: int|
            0 <= i < j < events.len() ==> (#[trigger] events[i]).seq != (#[trigger] events[j]).seq,
    ensures
        ({
            let grants = fold::<ConsentGraph>(events);
            &&& forall|i: int|
                0 <= i < events.len() && (#[trigger] events[i]).kind is ConsentGranted ==> {
                    &&& grants.contains_key(events[i].seq)
                    &&& makes_grant(events[i], grants[events[i].seq])
                    &&& grants[events[i].seq].revoked <==> is_revoked_after(
                        events,
                        i,
                        events[i].seq,
                    )
                }
            &&& forall|seq: u64| #[trigger]
                grants.contains_key(seq) ==> exists|i: int|
                    0 <= i < events.len() && (#[trigger] events[i]).seq == seq
                        && events[i].kind is ConsentGranted
        }),
    decreases events.len(),
{
    if events.len() > 0 {
        let rest = events.drop_last();
        let last = events.last();
        let n = events.len() - 1;
        let before = fold::<ConsentGraph>(rest);
        let grants = fold::<ConsentGraph>(events);
        assert(events[n] == last);
        assert forall|i: int, j: int| 0 <= i < j < rest.len() implies (#[trigger] rest[i]).seq != (
        #[trigger] rest[j]).seq by {
            assert(events[i] == rest[i] && events[j] == rest[j]);
        }
        law_grants_replay_the_log(rest);
        assert(grants == ConsentGraph::step(before, last));
        assert forall|i: int|
            0 <= i < events.len() && (#[trigger] events[i]).kind is ConsentGranted implies {
            &&& grants.contains_key(events[i].seq)
            &&& makes_grant(events[i], grants[events[i].seq])
            &&& grants[events[i].seq].revoked <==> is_revoked_after(events, i, events[i].seq)
        } by {
            let seq = events[i].seq;
            if i < n {
                assert(rest[i] == events[i]);
                assert(before.contains_key(seq));
                assert(seq != last.seq);
                if is_revoked_after(rest, i, seq) {
                    let j = choose|j: int|
                        i < j < rest.len() && (#[trigger] rest[j]).kind == (
                        KindModel::ConsentRevoked { grant_seq: seq });
                    assert(events[j] == rest[j]);
                    assert(is_revoked_after(events, i, seq));
                }
                if is_revoked_after(events, i, seq) && !is_revoked_after(rest, i, seq) {
                    let j = choose|j: int|
                        i < j < events.len() && (#[trigger] events[j]).kind == (
                        KindModel::ConsentRevoked { grant_seq: seq });
                    if j < n {
                        assert(rest[j] == events[j]);
                    }
                }
                if last.kind == (KindModel::ConsentRevoked { grant_seq: seq }) {
                    assert(is_revoked_after(events, i, seq));
                }
            }
        }
        assert forall|seq: u64| #[trigger] grants.contains_key(seq) implies exists|i: int|
            0 <= i < events.len() && (#[trigger] events[i]).seq == seq
                && events[i].kind is ConsentGranted by {
            if before.contains_key(seq) {
                let i = choose|i: int|
                    0 <= i < rest.len() && (#[trigger] rest[i]).seq == seq
                        && rest[i].kind is ConsentGranted;
                assert(events[i] == rest[i]);
            } else {
                assert(events[n].seq == seq && events[n].kind is ConsentGranted);
            }
        }
    }
}

} // verus!
