//! The coordination core: one admission gate, one statistics registry and a
//! fixed population of agents, advanced by atomic steps of an interleaving
//! model. Each step carries an exact contract, and the laws at the end of
//! this module state the run-wide guarantees: the capacity bound, the
//! absence of permit leaks, monotone counters and the pairing of every eat
//! event with one admission.

use vstd::prelude::*;
use vstd::pervasive::VecAdditionalExecFns;
use crate::gate::Permit;
use crate::gate::ResourceGate;
use crate::registry::StatsRegistry;

verus! {

/// The phase one agent is in. An agent cycles
/// `Thinking -> AwaitingPermit -> Eating -> Thinking -> ...` and moves to
/// the terminal `Stopped` from any phase when cancellation reaches it.
#[derive(Clone, Copy, PartialEq, Eq, Structural, Debug)]
pub enum AgentState {
    /// In the unconstrained think phase.
    Thinking,
    /// Requesting admission, suspended until a slot is free.
    AwaitingPermit,
    /// Holding a permit, in the eat phase.
    Eating,
    /// Terminal: the agent has acknowledged cancellation.
    Stopped,
}

/// The kind of one atomic step of the interleaving model.
#[derive(Clone, Copy, PartialEq, Eq, Structural, Debug)]
pub enum StepKind {
    /// One whole think phase: the think event is recorded and the agent
    /// turns to requesting admission.
    Think,
    /// A successful admission: one slot is consumed, the eat event is
    /// recorded, the agent now holds a permit.
    Admit,
    /// The end of an eat phase: the permit is released, the agent thinks
    /// again.
    FinishEat,
    /// Cancellation observed at a suspension point: the agent stops, first
    /// releasing its permit if it held one.
    Cancel,
}

/// How many agents of `s` are in the eat phase.
pub open spec fn count_eating(s: Seq<AgentState>) -> nat
    decreases s.len(),
{
    if s.len() == 0 {
        0
    } else {
        count_eating(s.drop_last()) + if s.last() is Eating {
            1nat
        } else {
            0nat
        }
    }
}

proof fn lemma_count_eating_update(s: Seq<AgentState>, i: int, v: AgentState)
    requires
        0 <= i < s.len(),
    ensures
        count_eating(s.update(i, v)) == count_eating(s)
            - (if s[i] is Eating { 1int } else { 0int })
            + (if v is Eating { 1int } else { 0int }),
    decreases s.len(),
{
    let s2 = s.update(i, v);
    if i == s.len() - 1 {
        assert(s2.drop_last() =~= s.drop_last());
    } else {
        lemma_count_eating_update(s.drop_last(), i, v);
        assert(s2.drop_last() =~= s.drop_last().update(i, v));
        assert(s2.last() == s.last());
    }
}

proof fn lemma_count_eating_none(s: Seq<AgentState>)
    requires
        forall|j: int| 0 <= j < s.len() ==> !(#[trigger] s[j] is Eating),
    ensures
        count_eating(s) == 0,
    decreases s.len(),
{
    if s.len() > 0 {
        let sub = s.drop_last();
        assert forall|j: int| 0 <= j < sub.len() implies !(#[trigger] sub[j] is Eating) by {
            assert(sub[j] == s[j]);
        }
        lemma_count_eating_none(sub);
        assert(!(s[s.len() - 1] is Eating));
    }
}

proof fn lemma_count_eating_pos(s: Seq<AgentState>, i: int)
    requires
        0 <= i < s.len(),
        s[i] is Eating,
    ensures
        count_eating(s) >= 1,
    decreases s.len(),
{
    if i < s.len() - 1 {
        let sub = s.drop_last();
        assert(sub[i] == s[i]);
        lemma_count_eating_pos(sub, i);
    }
}

proof fn lemma_count_eating_le_len(s: Seq<AgentState>)
    ensures
        count_eating(s) <= s.len(),
    decreases s.len(),
{
    if s.len() > 0 {
        lemma_count_eating_le_len(s.drop_last());
    }
}

proof fn lemma_count_eating_lt_len(s: Seq<AgentState>, i: int)
    requires
        0 <= i < s.len(),
        !(s[i] is Eating),
    ensures
        count_eating(s) <= s.len() - 1,
    decreases s.len(),
{
    if i == s.len() - 1 {
        lemma_count_eating_le_len(s.drop_last());
    } else {
        let sub = s.drop_last();
        assert(sub[i] == s[i]);
        lemma_count_eating_lt_len(sub, i);
    }
}

/// The whole coordination state: the admission gate, the registry, one phase per
/// agent, and the permit each eating agent holds.
pub struct SystemModel {
    gate: ResourceGate,
    registry: StatsRegistry,
    agents: Vec<AgentState>,
    permits: Vec<Option<Permit>>,
}

impl SystemModel {
    /// The phases of all agents.
    pub closed spec fn agents_view(&self) -> Seq<AgentState> {
        self.agents@
    }

    /// The permit slots, one per agent.
    pub closed spec fn permits_view(&self) -> Seq<Option<Permit>> {
        self.permits@
    }

    /// The admission gate.
    pub closed spec fn gate_view(&self) -> ResourceGate {
        self.gate
    }

    /// The statistics registry.
    pub closed spec fn registry_view(&self) -> StatsRegistry {
        self.registry
    }

    /// The population size.
    pub open spec fn n(&self) -> int {
        self.agents_view().len() as int
    }

    /// The phase of agent `i`.
    pub open spec fn agent(&self, i: int) -> AgentState {
        self.agents_view()[i]
    }

    /// Whether a permit is stored for agent `i`.
    pub open spec fn permit_at(&self, i: int) -> bool {
        self.permits_view()[i] is Some
    }

    /// The recorded eat count of agent `i`.
    pub open spec fn eats(&self, i: int) -> u64 {
        self.registry_view().eats(i)
    }

    /// The recorded think count of agent `i`.
    pub open spec fn thinks(&self, i: int) -> u64 {
        self.registry_view().thinks(i)
    }

    /// The admission gate's fixed capacity.
    pub open spec fn capacity(&self) -> int {
        self.gate_view().capacity()
    }

    /// The admission gate's free-slot count.
    pub open spec fn available(&self) -> int {
        self.gate_view().available()
    }

    /// How many agents hold a permit right now.
    pub open spec fn eating_count(&self) -> int {
        count_eating(self.agents_view()) as int
    }

    /// Well-formedness, established by [`SystemModel::new`] and preserved
    /// by every step: the admission gate is sound, all parts agree on the population
    /// size, the outstanding permits of the admission gate are exactly the agents in
    /// the eat phase, and exactly those agents have a permit stored.
    pub open spec fn wf(&self) -> bool {
        &&& self.gate_view().wf()
        &&& self.registry_view().n() == self.n()
        &&& self.permits_view().len() == self.n()
        &&& count_eating(self.agents_view()) == self.gate_view().outstanding()
        &&& forall|i: int|
            0 <= i < self.n() ==> (#[trigger] self.permit_at(i) <==> self.agent(i) is Eating)
    }

    /// Builds a run of `n` agents over a gate of capacity `capacity`: all
    /// agents think, no events are recorded, every slot is free.
    pub fn new(n: usize, capacity: usize) -> (sys: Self)
        requires
            capacity > 0,
        ensures
            sys.wf(),
            sys.n() == n,
            sys.capacity() == capacity,
            sys.available() == capacity,
            forall|i: int| 0 <= i < n ==> #[trigger] sys.agent(i) is Thinking,
            forall|i: int| 0 <= i < n ==> #[trigger] sys.registry_view().entry(i) is None,
    {
        let gate = ResourceGate::new(capacity);
        let registry = StatsRegistry::new(n);
        let mut agents: Vec<AgentState> = Vec::new();
        let mut permits: Vec<Option<Permit>> = Vec::new();
        let mut i: usize = 0;
        while i < n
            invariant
                i <= n,
                agents@.len() == i,
                permits@.len() == i,
                forall|j: int| 0 <= j < i ==> #[trigger] agents@[j] is Thinking,
                forall|j: int| 0 <= j < i ==> #[trigger] permits@[j] is None,
            decreases n - i,
        {
            agents.push(AgentState::Thinking);
            permits.push(None);
            i = i + 1;
        }
        let sys = SystemModel { gate, registry, agents, permits };
        proof {
            lemma_count_eating_none(sys.agents_view());
        }
        sys
    }
}

/// What every step leaves untouched: the population, the capacity, and the
/// phase, permit slot and counters of every agent but `i`.
pub open spec fn step_frame(pre: SystemModel, post: SystemModel, i: int) -> bool {
    &&& post.n() == pre.n()
    &&& post.registry_view().n() == pre.registry_view().n()
    &&& post.permits_view().len() == pre.permits_view().len()
    &&& post.capacity() == pre.capacity()
    &&& forall|j: int| 0 <= j < pre.n() && j != i ==> post.agent(j) == pre.agent(j)
    &&& forall|j: int| 0 <= j < pre.n() && j != i ==> post.permit_at(j) == pre.permit_at(j)
    &&& forall|j: int|
        0 <= j < pre.n() && j != i ==> post.registry_view().entry(j)
            == pre.registry_view().entry(j)
}

/// One atomic step of the interleaving model: agent `i` takes a step of
/// kind `kind`, and everything else stays as it was. This relation is the
/// exact transition system of the run; each executable step establishes it.
pub open spec fn step_rel(pre: SystemModel, post: SystemModel, i: int, kind: StepKind) -> bool {
    &&& 0 <= i < pre.n()
    &&& step_frame(pre, post, i)
    &&& (post.permit_at(i) <==> post.agent(i) is Eating)
    &&& match kind {
        StepKind::Think => {
            &&& pre.agent(i) is Thinking
            &&& post.agent(i) is AwaitingPermit
            &&& post.thinks(i) == pre.thinks(i) + 1
            &&& post.eats(i) == pre.eats(i)
            &&& post.available() == pre.available()
        },
        StepKind::Admit => {
            &&& pre.agent(i) is AwaitingPermit
            &&& pre.available() > 0
            &&& post.agent(i) is Eating
            &&& post.eats(i) == pre.eats(i) + 1
            &&& post.thinks(i) == pre.thinks(i)
            &&& post.available() == pre.available() - 1
        },
        StepKind::FinishEat => {
            &&& pre.agent(i) is Eating
            &&& post.agent(i) is Thinking
            &&& post.eats(i) == pre.eats(i)
            &&& post.thinks(i) == pre.thinks(i)
            &&& post.available() == pre.available() + 1
        },
        StepKind::Cancel => {
            &&& !(pre.agent(i) is Stopped)
            &&& post.agent(i) is Stopped
            &&& post.eats(i) == pre.eats(i)
            &&& post.thinks(i) == pre.thinks(i)
            &&& post.available() == pre.available() + (
            if pre.agent(i) is Eating {
                1int
            } else {
                0int
            })
        },
    }
}

proof fn lemma_permit_iff(s: SystemModel, i: int)
    requires
        s.wf(),
        0 <= i < s.n(),
    ensures
        s.permit_at(i) <==> s.agent(i) is Eating,
{
}

impl SystemModel {
    /// One whole think phase of agent `i`: its think event is recorded and
    /// it turns to requesting admission. The admission gate is untouched.
    pub fn step_think(&mut self, i: usize)
        requires
            old(self).wf(),
            i < old(self).n(),
            old(self).agent(i as int) is Thinking,
            old(self).thinks(i as int) < u64::MAX,
        ensures
            final(self).wf(),
            step_rel(*old(self), *final(self), i as int, StepKind::Think),
    {
        self.registry.record_think(i);
        self.agents.set(i, AgentState::AwaitingPermit);
        proof {
            lemma_count_eating_update(
                old(self).agents_view(),
                i as int,
                AgentState::AwaitingPermit,
            );
            assert(self.agents_view() == old(self).agents_view().update(
                i as int,
                AgentState::AwaitingPermit,
            ));
            assert(self.permits_view() == old(self).permits_view());
            assert forall|j: int|
                0 <= j < self.n() implies (#[trigger] self.permit_at(j) <==> self.agent(
                j,
            ) is Eating) by {
                lemma_permit_iff(*old(self), j);
            }
        }
    }

    /// A successful admission of agent `i`: one free slot is consumed, the
    /// eat event is recorded while the permit is held, and the permit is
    /// stored for the duration of the eat phase.
    pub fn step_admit(&mut self, i: usize)
        requires
            old(self).wf(),
            i < old(self).n(),
            old(self).agent(i as int) is AwaitingPermit,
            old(self).available() > 0,
            old(self).eats(i as int) < u64::MAX,
        ensures
            final(self).wf(),
            step_rel(*old(self), *final(self), i as int, StepKind::Admit),
    {
        let granted = self.gate.try_acquire();
        match granted {
            Some(permit) => {
                self.registry.record_eat(i);
                self.agents.set(i, AgentState::Eating);
                self.permits.set(i, Some(permit));
                proof {
                    lemma_count_eating_update(
                        old(self).agents_view(),
                        i as int,
                        AgentState::Eating,
                    );
                    assert(self.agents_view() == old(self).agents_view().update(
                        i as int,
                        AgentState::Eating,
                    ));
                    assert(self.permits_view()[i as int] is Some);
                    assert forall|j: int|
                        0 <= j < self.n() implies (#[trigger] self.permit_at(j) <==> self.agent(
                        j,
                    ) is Eating) by {
                        if j != i {
                            lemma_permit_iff(*old(self), j);
                            assert(self.permits_view()[j] == old(self).permits_view()[j]);
                        }
                    }
                }
            },
            None => {
                proof {
                    assert(false);
                }
            },
        }
    }

    /// The end of agent `i`'s eat phase: its permit is taken out and
    /// returned to the admission gate, freeing one slot, and the agent thinks again.
    pub fn step_finish_eat(&mut self, i: usize)
        requires
            old(self).wf(),
            i < old(self).n(),
            old(self).agent(i as int) is Eating,
        ensures
            final(self).wf(),
            step_rel(*old(self), *final(self), i as int, StepKind::FinishEat),
    {
        let mut taken: Option<Permit> = None;
        self.permits.set_and_swap(i, &mut taken);
        match taken {
            Some(permit) => {
                proof {
                    lemma_count_eating_pos(self.agents_view(), i as int);
                }
                self.gate.release(permit);
                self.agents.set(i, AgentState::Thinking);
                proof {
                    lemma_count_eating_update(
                        old(self).agents_view(),
                        i as int,
                        AgentState::Thinking,
                    );
                    assert(self.agents_view() == old(self).agents_view().update(
                        i as int,
                        AgentState::Thinking,
                    ));
                    assert(self.permits_view() == old(self).permits_view().update(
                        i as int,
                        None,
                    ));
                    assert forall|j: int|
                        0 <= j < self.n() implies (#[trigger] self.permit_at(j) <==> self.agent(
                        j,
                    ) is Eating) by {
                        if j != i {
                            lemma_permit_iff(*old(self), j);
                            assert(self.permits_view()[j] == old(self).permits_view()[j]);
                        }
                    }
                }
            },
            None => {
                proof {
                    lemma_permit_iff(*old(self), i as int);
                    assert(false);
                }
            },
        }
    }

    /// Cancellation observed by agent `i` at a suspension point: it stops,
    /// and if it held a permit the permit is first returned to the admission gate, so
    /// stopping an agent mid-eat can never strand a slot.
    pub fn step_cancel(&mut self, i: usize)
        requires
            old(self).wf(),
            i < old(self).n(),
            !(old(self).agent(i as int) is Stopped),
        ensures
            final(self).wf(),
            step_rel(*old(self), *final(self), i as int, StepKind::Cancel),
    {
        let was_eating = match self.agents[i] {
            AgentState::Eating => true,
            _ => false,
        };
        if was_eating {
            let mut taken: Option<Permit> = None;
            self.permits.set_and_swap(i, &mut taken);
            match taken {
                Some(permit) => {
                    proof {
                        lemma_count_eating_pos(self.agents_view(), i as int);
                    }
                    self.gate.release(permit);
                },
                None => {
                    proof {
                        lemma_permit_iff(*old(self), i as int);
                        assert(false);
                    }
                },
            }
        } else {
            proof {
                lemma_permit_iff(*old(self), i as int);
                assert(self.permits_view()[i as int] is None);
            }
        }
        self.agents.set(i, AgentState::Stopped);
        proof {
            lemma_count_eating_update(old(self).agents_view(), i as int, AgentState::Stopped);
            assert(self.agents_view() == old(self).agents_view().update(
                i as int,
                AgentState::Stopped,
            ));
            if old(self).agent(i as int) is Eating {
                assert(self.permits_view() == old(self).permits_view().update(i as int, None));
            } else {
                assert(self.permits_view() == old(self).permits_view());
            }
            assert forall|j: int|
                0 <= j < self.n() implies (#[trigger] self.permit_at(j) <==> self.agent(
                j,
            ) is Eating) by {
                if j != i {
                    lemma_permit_iff(*old(self), j);
                    assert(self.permits_view()[j] == old(self).permits_view()[j]);
                } else {
                    assert(self.permits_view()[j] is None);
                }
            }
        }
    }

    /// The population size, for executable callers.
    pub fn num_agents(&self) -> (n: usize)
        ensures
            n == self.n(),
    {
        self.agents.len()
    }

    /// The phase agent `i` is in, for executable callers.
    pub fn agent_phase(&self, i: usize) -> (st: AgentState)
        requires
            i < self.n(),
        ensures
            st == self.agent(i as int),
    {
        self.agents[i]
    }

    /// The admission gate's fixed capacity, for executable callers.
    pub fn gate_capacity(&self) -> (k: usize)
        ensures
            k == self.capacity(),
    {
        self.gate.capacity_count()
    }

    /// The admission gate's free-slot count, for executable callers.
    pub fn available_slots(&self) -> (a: usize)
        ensures
            a == self.available(),
    {
        self.gate.available_count()
    }

    /// True when an admission would succeed right now.
    pub fn can_admit(&self) -> (b: bool)
        ensures
            b == (self.available() > 0),
    {
        self.gate.can_admit()
    }

    /// How many agents hold a permit right now.
    pub fn holders(&self) -> (h: usize)
        requires
            self.wf(),
        ensures
            h == self.eating_count(),
    {
        let k = self.gate.capacity_count();
        let a = self.gate.available_count();
        k - a
    }

    /// The recorded eat count of agent `i`, for executable callers.
    pub fn eat_count(&self, i: usize) -> (c: u64)
        requires
            self.wf(),
            i < self.n(),
        ensures
            c == self.eats(i as int),
    {
        self.registry.eat_count(i)
    }

    /// The recorded think count of agent `i`, for executable callers.
    pub fn think_count(&self, i: usize) -> (c: u64)
        requires
            self.wf(),
            i < self.n(),
        ensures
            c == self.thinks(i as int),
    {
        self.registry.think_count(i)
    }

    /// A shared view of the statistics registry, e.g. to build the final
    /// report from.
    pub fn stats(&self) -> (r: &StatsRegistry)
        ensures
            *r == self.registry_view(),
    {
        &self.registry
    }

    /// True when every agent has reached the terminal state.
    pub fn all_stopped(&self) -> (b: bool)
        ensures
            b == (forall|i: int| 0 <= i < self.n() ==> #[trigger] self.agent(i) is Stopped),
    {
        let n = self.agents.len();
        let mut i: usize = 0;
        while i < n
            invariant
                i <= n,
                n == self.n(),
                forall|j: int| 0 <= j < i ==> #[trigger] self.agent(j) is Stopped,
            decreases n - i,
        {
            let st = self.agents[i];
            match st {
                AgentState::Stopped => {},
                _ => {
                    proof {
                        assert(!(self.agent(i as int) is Stopped));
                    }
                    return false;
                },
            }
            i = i + 1;
        }
        true
    }
}

/// Some agent takes some step: the transition relation of the whole run.
pub open spec fn step_any(pre: SystemModel, post: SystemModel) -> bool {
    exists|i: int, kind: StepKind| #[trigger] step_rel(pre, post, i, kind)
}

/// `tr` is a run: every pair of adjacent states is related by one step.
pub open spec fn is_run(tr: Seq<SystemModel>) -> bool {
    forall|j: int| 0 <= j && j + 1 < tr.len() ==> step_any(#[trigger] tr[j], tr[j + 1])
}

/// Law: with a capacity at least the population size, admission never has
/// to wait — whenever some agent awaits a permit, a slot is free.
pub proof fn lemma_no_contention(s: SystemModel, i: int)
    requires
        s.wf(),
        s.capacity() >= s.n(),
        0 <= i < s.n(),
        s.agent(i) is AwaitingPermit,
    ensures
        s.available() > 0,
{
    lemma_count_eating_lt_len(s.agents_view(), i);
}

/// Law: in a well-formed state at most `capacity` agents hold a permit.
pub proof fn lemma_capacity_invariant(s: SystemModel)
    requires
        s.wf(),
    ensures
        0 <= s.eating_count() <= s.capacity(),
{
}

/// Law: once every agent has stopped, every slot is free again — no step
/// can leak a permit past the end of a run.
pub proof fn lemma_no_permit_leak(s: SystemModel)
    requires
        s.wf(),
        forall|i: int| 0 <= i < s.n() ==> #[trigger] s.agent(i) is Stopped,
    ensures
        s.available() == s.capacity(),
{
    assert forall|j: int|
        0 <= j < s.agents_view().len() implies !(#[trigger] s.agents_view()[j] is Eating) by {
        assert(s.agent(j) is Stopped);
    }
    lemma_count_eating_none(s.agents_view());
}

/// Law: every step of the transition relation keeps the system well-formed.
pub proof fn lemma_step_preserves_wf(pre: SystemModel, post: SystemModel, i: int, kind: StepKind)
    requires
        pre.wf(),
        step_rel(pre, post, i, kind),
    ensures
        post.wf(),
{
    let pa = pre.agents_view();
    let qa = post.agents_view();
    assert forall|j: int| 0 <= j < qa.len() implies qa[j] == pa.update(i, post.agent(i))[j] by {
        if j != i {
            assert(post.agent(j) == pre.agent(j));
        }
    }
    assert(qa =~= pa.update(i, post.agent(i)));
    lemma_count_eating_update(pa, i, post.agent(i));
    match kind {
        StepKind::Think => {},
        StepKind::Admit => {},
        StepKind::FinishEat => {
            lemma_count_eating_pos(pa, i);
        },
        StepKind::Cancel => {
            if pre.agent(i) is Eating {
                lemma_count_eating_pos(pa, i);
            }
        },
    }
    assert forall|j: int|
        0 <= j < post.n() implies (#[trigger] post.permit_at(j) <==> post.agent(j) is Eating) by {
        if j != i {
            lemma_permit_iff(pre, j);
            assert(post.permit_at(j) == pre.permit_at(j));
        }
    }
}

/// Law: over any run that starts well-formed, every state is well-formed,
/// so at no instant do more than `capacity` agents hold a permit.
pub proof fn lemma_run_capacity(tr: Seq<SystemModel>, j: int)
    requires
        is_run(tr),
        tr.len() > 0,
        tr[0].wf(),
        0 <= j < tr.len(),
    ensures
        tr[j].wf(),
        0 <= tr[j].eating_count() <= tr[j].capacity(),
    decreases j,
{
    if j > 0 {
        lemma_run_capacity(tr, j - 1);
        assert(step_any(tr[j - 1], tr[j]));
        let (i, kind) = choose|i: int, kind: StepKind| #[trigger] step_rel(tr[j - 1], tr[j], i, kind);
        lemma_step_preserves_wf(tr[j - 1], tr[j], i, kind);
    }
    lemma_capacity_invariant(tr[j]);
}

/// Law: a run that starts well-formed and ends with every agent stopped
/// ends with every slot free.
pub proof fn lemma_run_no_permit_leak(tr: Seq<SystemModel>, j: int)
    requires
        is_run(tr),
        tr.len() > 0,
        tr[0].wf(),
        0 <= j < tr.len(),
        forall|i: int| 0 <= i < tr[j].n() ==> #[trigger] tr[j].agent(i) is Stopped,
    ensures
        tr[j].available() == tr[j].capacity(),
{
    lemma_run_capacity(tr, j);
    lemma_no_permit_leak(tr[j]);
}

/// Law: one step never lowers any agent's counters.
pub proof fn lemma_step_monotone(pre: SystemModel, post: SystemModel, i: int, kind: StepKind)
    requires
        step_rel(pre, post, i, kind),
    ensures
        forall|j: int| 0 <= j < pre.n() ==> pre.eats(j) <= #[trigger] post.eats(j),
        forall|j: int| 0 <= j < pre.n() ==> pre.thinks(j) <= #[trigger] post.thinks(j),
{
    assert forall|j: int| 0 <= j < pre.n() implies pre.eats(j) <= #[trigger] post.eats(j) by {
        if j != i {
            assert(post.registry_view().entry(j) == pre.registry_view().entry(j));
        }
    }
    assert forall|j: int| 0 <= j < pre.n() implies pre.thinks(j) <= #[trigger] post.thinks(j) by {
        if j != i {
            assert(post.registry_view().entry(j) == pre.registry_view().entry(j));
        }
    }
}

/// Law: over any run, counters only ever grow — a later snapshot never
/// shows smaller counts than an earlier one.
pub proof fn lemma_run_monotone(tr: Seq<SystemModel>, a: int, b: int)
    requires
        is_run(tr),
        0 <= a <= b < tr.len(),
    ensures
        tr[b].n() == tr[a].n(),
        forall|j: int| 0 <= j < tr[a].n() ==> tr[a].eats(j) <= #[trigger] tr[b].eats(j),
        forall|j: int| 0 <= j < tr[a].n() ==> tr[a].thinks(j) <= #[trigger] tr[b].thinks(j),
    decreases b - a,
{
    if a < b {
        lemma_run_monotone(tr, a, b - 1);
        assert(step_any(tr[b - 1], tr[b]));
        let (i, kind) = choose|i: int, kind: StepKind| #[trigger] step_rel(tr[b - 1], tr[b], i, kind);
        lemma_step_monotone(tr[b - 1], tr[b], i, kind);
        assert forall|j: int| 0 <= j < tr[a].n() implies tr[a].eats(j) <= #[trigger] tr[b].eats(
            j,
        ) by {
            assert(tr[a].eats(j) <= tr[b - 1].eats(j));
            assert(tr[b - 1].eats(j) <= tr[b].eats(j));
        }
        assert forall|j: int| 0 <= j < tr[a].n() implies tr[a].thinks(j) <= #[trigger] tr[b].thinks(
            j,
        ) by {
            assert(tr[a].thinks(j) <= tr[b - 1].thinks(j));
            assert(tr[b - 1].thinks(j) <= tr[b].thinks(j));
        }
    }
}

/// Law: an eat count rises only through an admission step of that same
/// agent — taken while a slot was free, consuming it, and leaving the agent
/// holding a permit — and then by exactly one. No eat event is ever
/// recorded without a permit being held.
pub proof fn lemma_eat_increment_pairing(
    pre: SystemModel,
    post: SystemModel,
    i: int,
    kind: StepKind,
    j: int,
)
    requires
        step_rel(pre, post, i, kind),
        0 <= j < pre.n(),
        post.eats(j) > pre.eats(j),
    ensures
        j == i,
        kind is Admit,
        pre.agent(j) is AwaitingPermit,
        post.agent(j) is Eating,
        post.permit_at(j),
        post.eats(j) == pre.eats(j) + 1,
        post.available() == pre.available() - 1,
{
    if j != i {
        assert(post.registry_view().entry(j) == pre.registry_view().entry(j));
    }
}

} // verus!

