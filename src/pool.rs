//! The flock: a fixed population of agents advanced one tick at a time
//! against a snapshot of the tick's starting state.
use vstd::prelude::*;

use crate::agent::{lemma_steer_wf, steer, Agent};
use crate::heading::speed_ok;
use crate::geometry::Bounds;

verus! {

/// Population of a flock made by default.
pub const NUM_AGENTS: usize = 200;

/// Every agent is well formed.
pub open spec fn all_wf(s: Seq<Agent>) -> bool {
    forall|i: int| 0 <= i < s.len() ==> (#[trigger] s[i]).wf()
}

/// One tick of the whole flock: every agent steers against the same
/// snapshot, the flock as it was when the tick began.
pub open spec fn tick(s: Seq<Agent>, b: Bounds) -> Seq<Agent> {
    Seq::new(s.len(), |i: int| steer(s[i], b, s, i))
}

/// The flock after one tick for each of the bounds, in order.
pub open spec fn simulate(s: Seq<Agent>, bounds: Seq<Bounds>) -> Seq<Agent>
    decreases bounds.len(),
{
    if bounds.len() == 0 {
        s
    } else {
        simulate(tick(s, bounds[0]), bounds.drop_first())
    }
}

/// The flock after updating the agents at the indices of `order`, one after
/// another, each against the snapshot `snap`.
pub open spec fn apply_in_order(snap: Seq<Agent>, b: Bounds, order: Seq<int>) -> Seq<Agent>
    decreases order.len(),
{
    if order.len() == 0 {
        snap
    } else {
        let k = order.last();
        apply_in_order(snap, b, order.drop_last()).update(k, steer(snap[k], b, snap, k))
    }
}

proof fn lemma_apply_in_order(snap: Seq<Agent>, b: Bounds, order: Seq<int>)
    requires
        forall|i: int| 0 <= i < order.len() ==> 0 <= #[trigger] order[i] < snap.len(),
    ensures
        apply_in_order(snap, b, order).len() == snap.len(),
        forall|j: int|
            0 <= j < snap.len() ==> #[trigger] apply_in_order(snap, b, order)[j] == if order.contains(j) {
                steer(snap[j], b, snap, j)
            } else {
                snap[j]
            },
    decreases order.len(),
{
    if order.len() > 0 {
        let rest = order.drop_last();
        assert forall|i: int| 0 <= i < rest.len() implies 0 <= #[trigger] rest[i] < snap.len() by {
            assert(rest[i] == order[i]);
        }
        lemma_apply_in_order(snap, b, rest);
        assert forall|j: int| 0 <= j < snap.len() implies #[trigger] apply_in_order(snap, b, order)[j]
            == if order.contains(j) {
            steer(snap[j], b, snap, j)
        } else {
            snap[j]
        } by {
            if order.contains(j) && j != order.last() {
                let w = choose|w: int| 0 <= w < order.len() && order[w] == j;
                assert(rest[w] == j);
            }
            if rest.contains(j) {
                let w = choose|w: int| 0 <= w < rest.len() && rest[w] == j;
                assert(order[w] == j);
            }
            if j == order.last() {
                assert(order[order.len() - 1] == j);
            }
        }
    }
}

/// Updates within a tick do not depend on their order: updating the agents
/// one at a time, in any order that reaches each of them, each against the
/// snapshot taken at the start of the tick, gives the tick's result.
pub proof fn lemma_order_independent(snap: Seq<Agent>, b: Bounds, order: Seq<int>)
    requires
        forall|i: int| 0 <= i < order.len() ==> 0 <= #[trigger] order[i] < snap.len(),
        forall|j: int| 0 <= j < snap.len() ==> order.contains(j),
    ensures
        apply_in_order(snap, b, order) == tick(snap, b),
{
    lemma_apply_in_order(snap, b, order);
    assert(apply_in_order(snap, b, order) =~= tick(snap, b));
}

/// After any tick every agent is at cruising speed and inside the bounds.
pub proof fn lemma_tick_keeps_invariants(s: Seq<Agent>, b: Bounds)
    requires
        all_wf(s),
        b.wf(),
    ensures
        tick(s, b).len() == s.len(),
        all_wf(tick(s, b)),
        forall|i: int| 0 <= i < s.len() ==> speed_ok(#[trigger] tick(s, b)[i].velocity),
        forall|i: int| 0 <= i < s.len() ==> b.contains(#[trigger] tick(s, b)[i].position),
{
    assert forall|i: int| 0 <= i < s.len() implies (#[trigger] tick(s, b)[i]).wf() && b.contains(
        tick(s, b)[i].position,
    ) by {
        lemma_steer_wf(s[i], b, s, i);
    }
}

/// Runs are deterministic: two flocks that start in the same state and see
/// the same sequence of bounds follow the same trajectory, tick by tick.
pub proof fn lemma_deterministic(s1: Seq<Agent>, s2: Seq<Agent>, bounds: Seq<Bounds>, n: nat)
    requires
        s1 == s2,
        n <= bounds.len(),
    ensures
        simulate(s1, bounds.take(n as int)) == simulate(s2, bounds.take(n as int)),
{
}

pub struct AgentPool {
    agents: Vec<Agent>,
}

impl View for AgentPool {
    type V = Seq<Agent>;

    closed spec fn view(&self) -> Seq<Agent> {
        self.agents@
    }
}

impl AgentPool {
    pub open spec fn wf(&self) -> bool {
        all_wf(self@)
    }

    /// A flock of `population` agents, each at a uniformly random point of
    /// `b` with a random heading at cruising speed.
    pub fn initialize(b: &Bounds, population: usize) -> (r: AgentPool)
        requires
            b.wf(),
        ensures
            r.wf(),
            r@.len() == population,
            forall|i: int| 0 <= i < population ==> b.contains(#[trigger] r@[i].position),
    {
        let mut agents: Vec<Agent> = Vec::new();
        let mut i: usize = 0;
        while i < population
            invariant
                b.wf(),
                i <= population,
                agents@.len() == i,
                all_wf(agents@),
                forall|j: int| 0 <= j < i ==> b.contains(#[trigger] agents@[j].position),
            decreases population - i,
        {
            let a = Agent::new(b);
            agents.push(a);
            i = i + 1;
        }
        AgentPool { agents }
    }

    /// A flock of the given agents, or `None` if one of them is not well
    /// formed (out of the coordinate range, or not at cruising speed).
    pub fn from_agents(agents: Vec<Agent>) -> (r: Option<AgentPool>)
        ensures
            r is Some <==> all_wf(agents@),
            r matches Some(p) ==> p@ == agents@,
    {
        let mut i: usize = 0;
        while i < agents.len()
            invariant
                i <= agents.len(),
                forall|j: int| 0 <= j < i ==> (#[trigger] agents@[j]).wf(),
            decreases agents.len() - i,
        {
            if !agents[i].is_valid() {
                return None;
            }
            i = i + 1;
        }
        Some(AgentPool { agents })
    }

    /// The agents, in the order they were created.
    pub fn agents(&self) -> (r: &Vec<Agent>)
        ensures
            r@ == self@,
    {
        &self.agents
    }

    pub fn len(&self) -> (r: usize)
        ensures
            r == self@.len(),
    {
        self.agents.len()
    }

    /// Advances every agent by one tick within `b`.  All agents read the
    /// flock as it was before the tick, so the order in which they are
    /// updated does not matter.
    pub fn step(&mut self, b: &Bounds)
        requires
            old(self).wf(),
            b.wf(),
        ensures
            final(self)@ == tick(old(self)@, *b),
            final(self).wf(),
            forall|i: int| 0 <= i < final(self)@.len() ==> b.contains(#[trigger] final(self)@[i].position),
    {
        let snapshot: Vec<Agent> = self.agents.clone();
        assert(snapshot@ =~= self.agents@);
        let ghost s0 = self@;
        let n = self.agents.len();
        let mut i: usize = 0;
        while i < n
            invariant
                b.wf(),
                n == s0.len(),
                snapshot@ == s0,
                all_wf(s0),
                i <= n,
                self@.len() == n,
                forall|j: int| 0 <= j < i ==> self@[j] == #[trigger] steer(s0[j], *b, s0, j),
                forall|j: int| 0 <= j < i ==> b.contains(#[trigger] self@[j].position),
                forall|j: int| i <= j < n ==> self@[j] == s0[j],
                all_wf(self@),
            decreases n - i,
        {
            let mut a = self.agents[i];
            a.update(b, &snapshot, i);
            self.agents.set(i, a);
            i = i + 1;
        }
        assert(self@ =~= tick(s0, *b));
    }

    /// Advances the flock by one tick for each of `bounds`, in order.
    pub fn run(&mut self, bounds: &Vec<Bounds>)
        requires
            old(self).wf(),
            forall|k: int| 0 <= k < bounds.len() ==> (#[trigger] bounds[k]).wf(),
        ensures
            final(self)@ == simulate(old(self)@, bounds@),
            final(self).wf(),
    {
        let ghost s0 = self@;
        assert(bounds@.subrange(0, bounds.len() as int) =~= bounds@);
        let mut k: usize = 0;
        while k < bounds.len()
            invariant
                k <= bounds.len(),
                forall|j: int| 0 <= j < bounds.len() ==> (#[trigger] bounds[j]).wf(),
                self.wf(),
                simulate(s0, bounds@) == simulate(self@, bounds@.subrange(k as int, bounds.len() as int)),
            decreases bounds.len() - k,
        {
            let ghost rest = bounds@.subrange(k as int, bounds.len() as int);
            assert(rest.drop_first() =~= bounds@.subrange(k + 1, bounds.len() as int));
            self.step(&bounds[k]);
            k = k + 1;
        }
        assert(bounds@.subrange(k as int, bounds.len() as int) =~= Seq::<Bounds>::empty());
    }
}

} // verus!
