//! The bounded cache of open shards.
//!
//! An open shard costs a file descriptor and a mapped region, so a base that many
//! agents share keeps only some of them open. The cache decides which shards to
//! close; the caller owns the handles and closes them.

use crate::event::AgentId;
use crate::lists::{lemma_filter_has, lemma_filter_push};
use crate::sorted::Replica;
use crate::text::text_same;
use vstd::prelude::*;

verus! {

/// How many shards stay open at a time.
pub const DEFAULT_MAX_OPEN_SHARDS: usize = 256;

/// The shards that may be closed after one was opened: neither that one nor any
/// that is in use.
pub open spec fn closable(opened: Seq<char>, busy: Seq<Seq<char>>) -> spec_fn(Seq<char>) -> bool {
    |agent: Seq<char>| agent != opened && !busy.contains(agent)
}

/// The others.
pub open spec fn kept(opened: Seq<char>, busy: Seq<Seq<char>>) -> spec_fn(Seq<char>) -> bool {
    |agent: Seq<char>| agent == opened || busy.contains(agent)
}

/// The shards to close when the first `n` of the queue have been looked at.
pub open spec fn closed_of(
    queue: Seq<Seq<char>>,
    opened: Seq<char>,
    busy: Seq<Seq<char>>,
    n: int,
) -> Seq<Seq<char>> {
    queue.take(n).filter(closable(opened, busy))
}

/// The queue is looked at from its front, one shard at a time, for as long as more
/// than `max` are open: exactly the first `n` are looked at.
pub open spec fn looked_at(
    queue: Seq<Seq<char>>,
    opened: Seq<char>,
    busy: Seq<Seq<char>>,
    max: usize,
    n: int,
) -> bool {
    &&& 0 <= n <= queue.len()
    &&& n == queue.len() || queue.len() - closed_of(queue, opened, busy, n).len() <= max
    &&& forall|j: int|
        0 <= j < n ==> queue.len() - (#[trigger] closed_of(queue, opened, busy, j)).len() > max
}

/// The first `n` of the queue have been looked at: of these the closable ones are
/// closed, and the others go to the end of the queue.
pub open spec fn shrinks(
    queue: Seq<Seq<char>>,
    opened: Seq<char>,
    busy: Seq<Seq<char>>,
    max: usize,
    n: int,
    closed: Seq<Seq<char>>,
    after: Seq<Seq<char>>,
) -> bool {
    &&& looked_at(queue, opened, busy, max, n)
    &&& closed == closed_of(queue, opened, busy, n)
    &&& after == queue.skip(n) + queue.take(n).filter(kept(opened, busy))
}

/// The open shards, the one that was opened or looked at last at the end.
pub struct ShardCache {
    order: Vec<AgentId>,
    max_open: usize,
}

impl DeepView for ShardCache {
    type V = Seq<Seq<char>>;

    closed spec fn deep_view(&self) -> Seq<Seq<char>> {
        self.order.deep_view()
    }
}

impl ShardCache {
    /// How many shards may stay open.
    pub closed spec fn limit(&self) -> usize {
        self.max_open
    }

    /// An empty cache.
    pub fn new(max_open: usize) -> (r: Self)
        ensures
            r.deep_view() == Seq::<Seq<char>>::empty(),
            r.limit() == max_open,
    {
        let order: Vec<AgentId> = Vec::new();
        assert(order.deep_view() =~= Seq::empty());
        ShardCache { order, max_open }
    }

    /// The number of open shards.
    pub fn len(&self) -> (r: usize)
        ensures
            r == self.deep_view().len(),
    {
        self.order.len()
    }

    /// Whether the agent's shard is open.
    pub fn contains(&self, agent_id: &AgentId) -> (r: bool)
        ensures
            r == self.deep_view().contains(agent_id.deep_view()),
    {
        lists_agent(&self.order, agent_id)
    }

    /// Records a shard that was just opened and gives the shards to close.
    ///
    /// A shard in use is passed over, not forced: its file could not be opened again
    /// while a handle lives. So the cache may exceed its limit for a while. The shard
    /// that was just opened is never closed here. Every shard is looked at once at
    /// most.
    pub fn remember_open(&mut self, agent_id: &AgentId, busy: &Vec<AgentId>) -> (r: Vec<AgentId>)
        requires
            !old(self).deep_view().contains(agent_id.deep_view()),
        ensures
            final(self).limit() == old(self).limit(),
            exists|n: int| #[trigger]
                shrinks(
                    old(self).deep_view().push(agent_id.deep_view()),
                    agent_id.deep_view(),
                    busy.deep_view(),
                    old(self).limit(),
                    n,
                    r.deep_view(),
                    final(self).deep_view(),
                ),
    {
        let ghost queue = self.deep_view().push(agent_id.deep_view());
        let ghost opened = agent_id.deep_view();
        let ghost used = busy.deep_view();
        let ghost max = self.limit();
        self.order.push(agent_id.replica());
        assert(self.order.deep_view() =~= queue);
        let tries: usize = self.order.len();
        let mut closed: Vec<AgentId> = Vec::new();
        let mut i: usize = 0;
        proof {
            reveal(Seq::filter);
            assert(queue.take(0) =~= Seq::empty());
            assert(queue.skip(0) + queue.take(0).filter(kept(opened, used)) =~= queue);
            assert(closed.deep_view() =~= Seq::empty());
        }
        while self.order.len() > self.max_open && i < tries
            invariant
                i <= tries,
                tries == queue.len(),
                self.max_open == max,
                opened == agent_id.deep_view(),
                used == busy.deep_view(),
                closed.deep_view() == closed_of(queue, opened, used, i as int),
                self.order.deep_view() == queue.skip(i as int) + queue.take(i as int).filter(
                    kept(opened, used),
                ),
                self.order.deep_view().len() + closed.deep_view().len() == queue.len(),
                forall|j: int|
                    0 <= j < i ==> queue.len() - (#[trigger] closed_of(queue, opened, used, j)).len()
                        > max,
            decreases tries - i,
        {
            let ghost before = self.order.deep_view();
            let ghost gone = closed.deep_view();
            assert(before[0] == queue[i as int]);
            assert(queue.len() - closed_of(queue, opened, used, i as int).len() > max);
            let candidate = self.order.remove(0);
            proof {
                assert(candidate.deep_view() == before[0]);
                assert(self.order.deep_view() =~= before.skip(1));
                assert(queue.take(i + 1) =~= queue.take(i as int).push(queue[i as int]));
                lemma_filter_push(queue.take(i as int), queue[i as int], closable(opened, used));
                lemma_filter_push(queue.take(i as int), queue[i as int], kept(opened, used));
                assert(before.skip(1) =~= queue.skip(i + 1) + queue.take(i as int).filter(
                    kept(opened, used),
                ));
            }
            if text_same(candidate.0.as_str(), agent_id.0.as_str()) || lists_agent(
                busy,
                &candidate,
            ) {
                self.order.push(candidate);
                assert(self.order.deep_view() =~= before.skip(1).push(queue[i as int]));
                assert(self.order.deep_view() =~= queue.skip(i + 1) + queue.take(i + 1).filter(
                    kept(opened, used),
                ));
            } else {
                closed.push(candidate);
                assert(closed.deep_view() =~= gone.push(queue[i as int]));
            }
            i += 1;
        }
        assert(shrinks(
            queue,
            opened,
            used,
            old(self).limit(),
            i as int,
            closed.deep_view(),
            self.deep_view(),
        ));
        closed
    }
}

/// Whether an agent is in a list.
fn lists_agent(agents: &Vec<AgentId>, agent_id: &AgentId) -> (r: bool)
    ensures
        r == agents.deep_view().contains(agent_id.deep_view()),
{
    let mut i: usize = 0;
    while i < agents.len()
        invariant
            i <= agents.len(),
            forall|j: int| 0 <= j < i ==> #[trigger] agents.deep_view()[j] != agent_id.deep_view(),
        decreases agents.len() - i,
    {
        assert(agents.deep_view()[i as int] == agents@[i as int].deep_view());
        if text_same(agents[i].0.as_str(), agent_id.0.as_str()) {
            assert(agents.deep_view()[i as int] == agent_id.deep_view());
            return true;
        }
        i += 1;
    }
    false
}

/// After a shard was opened it is open, nothing in use was closed, and the number of
/// open shards is within the limit unless every other open shard is in use.
pub proof fn law_cache_is_bounded(
    queue: Seq<Seq<char>>,
    opened: Seq<char>,
    busy: Seq<Seq<char>>,
    max: usize,
    n: int,
    closed: Seq<Seq<char>>,
    after: Seq<Seq<char>>,
)
    requires
        queue.contains(opened),
        shrinks(queue, opened, busy, max, n, closed, after),
    ensures
        after.contains(opened),
        forall|agent: Seq<char>| #[trigger]
            closed.contains(agent) ==> agent != opened && !busy.contains(agent),
        after.len() <= max || forall|agent: Seq<char>| #[trigger]
            after.contains(agent) ==> agent == opened || busy.contains(agent),
{
    let front = queue.take(n);
    let back = queue.skip(n);
    let stay = front.filter(kept(opened, busy));
    lemma_filter_has(front, kept(opened, busy));
    lemma_filter_has(front, closable(opened, busy));
    lemma_split_len(front, opened, busy);
    let i = choose|i: int| 0 <= i < queue.len() && queue[i] == opened;
    if i < n {
        assert(front[i] == opened);
        assert(front.contains(opened));
        assert(stay.contains(opened));
        let j = choose|j: int| 0 <= j < stay.len() && stay[j] == opened;
        assert(after[back.len() + j] == opened);
    } else {
        assert(after[i - n] == opened);
    }
    if after.len() > max {
        assert(n == queue.len());
        assert(after =~= stay);
    }
}

proof fn lemma_split_len(s: Seq<Seq<char>>, opened: Seq<char>, busy: Seq<Seq<char>>)
    ensures
        s.filter(closable(opened, busy)).len() + s.filter(kept(opened, busy)).len() == s.len(),
    decreases s.len(),
{
    reveal(Seq::filter);
    if s.len() > 0 {
        lemma_split_len(s.drop_last(), opened, busy);
    }
}

/// The shards that were opened longest ago are closed first, and no more than needed: where
/// one is closed, so is every closable one that was opened before it, and closing stops as
/// soon as the limit is met.
pub proof fn law_the_oldest_are_closed_first(
    queue: Seq<Seq<char>>,
    opened: Seq<char>,
    busy: Seq<Seq<char>>,
    max: usize,
    n: int,
    closed: Seq<Seq<char>>,
    after: Seq<Seq<char>>,
    i: int,
    j: int,
)
    requires
        queue.no_duplicates(),
        shrinks(queue, opened, busy, max, n, closed, after),
        0 <= i < j < queue.len(),
        queue[i] != opened,
        !busy.contains(queue[i]),
        closed.contains(queue[j]),
    ensures
        closed.contains(queue[i]),
        after.len() >= max,
{
    let may = closable(opened, busy);
    let part = queue.take(n);
    lemma_filter_has(part, may);
    assert(part.contains(queue[j]));
    let k = choose|k: int| 0 <= k < part.len() && part[k] == queue[j];
    assert(queue[k] == queue[j]);
    assert(k == j);
    assert(part[i] == queue[i]);
    assert(part.contains(queue[i]));
    lemma_parts_add_up(part, opened, busy);
    assert(queue.len() - closed_of(queue, opened, busy, n - 1).len() > max);
    assert(queue.take(n) =~= queue.take(n - 1).push(queue[n - 1]));
    lemma_filter_push(queue.take(n - 1), queue[n - 1], may);
}

proof fn lemma_parts_add_up(part: Seq<Seq<char>>, opened: Seq<char>, busy: Seq<Seq<char>>)
    ensures
        part.filter(closable(opened, busy)).len() + part.filter(kept(opened, busy)).len()
            == part.len(),
    decreases part.len(),
{
    reveal(Seq::filter);
    if part.len() > 0 {
        let rest = part.drop_last();
        lemma_parts_add_up(rest, opened, busy);
        assert(part =~= rest.push(part.last()));
        lemma_filter_push(rest, part.last(), closable(opened, busy));
        lemma_filter_push(rest, part.last(), kept(opened, busy));
    }
}

/// No open shard is lost: each is either closed or still open afterwards.
pub proof fn law_no_shard_is_lost(
    queue: Seq<Seq<char>>,
    opened: Seq<char>,
    busy: Seq<Seq<char>>,
    max: usize,
    n: int,
    closed: Seq<Seq<char>>,
    after: Seq<Seq<char>>,
    agent: Seq<char>,
)
    requires
        shrinks(queue, opened, busy, max, n, closed, after),
        queue.contains(agent),
    ensures
        closed.contains(agent) || after.contains(agent),
{
    let k = choose|k: int| 0 <= k < queue.len() && queue[k] == agent;
    let part = queue.take(n);
    lemma_filter_has(part, closable(opened, busy));
    lemma_filter_has(part, kept(opened, busy));
    if k < n {
        assert(part[k] == agent);
        assert(part.contains(agent));
        if !closed.contains(agent) {
            let rest = part.filter(kept(opened, busy));
            assert(rest.contains(agent));
            let m = choose|m: int| 0 <= m < rest.len() && rest[m] == agent;
            assert(after[queue.skip(n).len() + m] == agent);
        }
    } else {
        assert(queue.skip(n)[k - n] == agent);
        assert(after[k - n] == agent);
    }
}

} // verus!
