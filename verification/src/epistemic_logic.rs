//! Epistemic Logic Reasoner — multi-agent epistemic logic over Kripke structures.
//!
//! A [`KripkeModel`] is a tuple (W, {R_i}, V): a finite list of possible worlds,
//! per-agent accessibility edges, and for each world the atoms true in it.
//! [`EpistemicLogicReasoner`] wraps a model and evaluates modal formulae
//! (K, M, E and common knowledge C), closes relations reflexively and
//! transitively, and checks the T, 4, 5 and B frame conditions.
//!
//! The meaning of every operation is stated over spec functions of this file:
//! `targets` (one-step accessibility), `reach_within` (bounded reachability over
//! the union of all relations) and `eval_spec` (the truth value of a formula,
//! errors included, in the order in which the reasoner meets them).

use vstd::prelude::*;
use vstd::string::StrSliceExecFns;

verus! {

// ─── Newtypes ────────────────────────────────────────────────────────────────

/// Identifies an agent in a multi-agent epistemic system.
#[derive(Debug, Clone, PartialEq, Eq, Hash, PartialOrd, Ord)]
pub struct AgentId(pub String);

/// Index of a possible world within a [`KripkeModel`].
#[derive(Debug, Clone, Copy, PartialEq, Eq, Hash, PartialOrd, Ord, Structural)]
pub struct WorldId(pub usize);

// ─── Formula ─────────────────────────────────────────────────────────────────

/// An epistemic modal formula over atomic propositions:
/// `φ ::= p | ¬φ | φ∧ψ | φ∨ψ | K_i(φ) | M_i(φ) | E(φ) | C(φ)`.
#[derive(Debug, PartialEq, Eq)]
pub enum EpistemicFormula {
    /// Atomic proposition.
    Atom(String),
    /// Logical negation.
    Not(Box<EpistemicFormula>),
    /// Logical conjunction.
    And(Box<EpistemicFormula>, Box<EpistemicFormula>),
    /// Logical disjunction.
    Or(Box<EpistemicFormula>, Box<EpistemicFormula>),
    /// K_i(φ): φ holds in every world the agent can access.
    Knows { agent: AgentId, phi: Box<EpistemicFormula> },
    /// M_i(φ): φ holds in some world the agent can access.
    Possible { agent: AgentId, phi: Box<EpistemicFormula> },
    /// E(φ): every registered agent knows φ.
    EveryoneKnows(Box<EpistemicFormula>),
    /// C(φ): φ holds in every world reachable over the union of all relations.
    CommonKnowledge(Box<EpistemicFormula>),
}

impl Clone for EpistemicFormula {
    fn clone(&self) -> (res: Self)
        ensures
            res == *self,
        decreases self,
    {
        match self {
            EpistemicFormula::Atom(p) => EpistemicFormula::Atom(p.clone()),
            EpistemicFormula::Not(g) => EpistemicFormula::Not(Box::new((**g).clone())),
            EpistemicFormula::And(l, r) => EpistemicFormula::And(
                Box::new((**l).clone()),
                Box::new((**r).clone()),
            ),
            EpistemicFormula::Or(l, r) => EpistemicFormula::Or(
                Box::new((**l).clone()),
                Box::new((**r).clone()),
            ),
            EpistemicFormula::Knows { agent, phi } => EpistemicFormula::Knows {
                agent: AgentId(agent.0.clone()),
                phi: Box::new((**phi).clone()),
            },
            EpistemicFormula::Possible { agent, phi } => EpistemicFormula::Possible {
                agent: AgentId(agent.0.clone()),
                phi: Box::new((**phi).clone()),
            },
            EpistemicFormula::EveryoneKnows(g) => EpistemicFormula::EveryoneKnows(
                Box::new((**g).clone()),
            ),
            EpistemicFormula::CommonKnowledge(g) => EpistemicFormula::CommonKnowledge(
                Box::new((**g).clone()),
            ),
        }
    }
}

// ─── Kripke structure ─────────────────────────────────────────────────────────

/// A single possible world with the atoms that are true in it.
///
/// The atoms are read as a set: order and repetitions carry no meaning.
#[derive(Debug, Clone)]
pub struct PossibleWorld {
    /// Identifier within the model.
    pub id: WorldId,
    /// Atoms that are true in this world.
    pub true_propositions: Vec<String>,
}

/// A directed accessibility edge (from, to) for a given agent.
#[derive(Debug, Clone, PartialEq, Eq)]
pub struct AccessibilityRelation {
    /// The agent whose accessibility is described.
    pub agent: AgentId,
    /// Source world.
    pub from: WorldId,
    /// Target world (the agent cannot distinguish `from` from `to`).
    pub to: WorldId,
}

/// A finite Kripke model: worlds, per-agent accessibility, and an actual world.
#[derive(Debug, Clone)]
pub struct KripkeModel {
    /// All possible worlds in the model.
    pub worlds: Vec<PossibleWorld>,
    /// Accessibility edges.
    pub relations: Vec<AccessibilityRelation>,
    /// The designated actual world.
    pub actual_world: WorldId,
}

/// An edge seen as (agent name, from, to).
pub type EdgeView = (Seq<char>, usize, usize);

/// The (agent name, from, to) triple of an edge.
pub open spec fn edge_view(r: AccessibilityRelation) -> EdgeView {
    (r.agent.0@, r.from.0, r.to.0)
}

/// The set of edges of a relation list, as triples.
pub open spec fn edge_set(rels: Seq<AccessibilityRelation>) -> Set<EdgeView> {
    Set::new(|t: EdgeView| exists|i: int| 0 <= i < rels.len() && #[trigger] edge_view(rels[i]) == t)
}

/// The targets of the edges of `agent` leaving `w`, in the order of `rels`.
pub open spec fn targets(rels: Seq<AccessibilityRelation>, agent: Seq<char>, w: usize) -> Seq<usize>
    decreases rels.len(),
{
    if rels.len() == 0 {
        Seq::empty()
    } else {
        let prev = targets(rels.drop_last(), agent, w);
        let r = rels.last();
        if r.agent.0@ == agent && r.from.0 == w {
            prev.push(r.to.0)
        } else {
            prev
        }
    }
}

/// The identifiers of a list of worlds, in order.
pub open spec fn world_ids(ws: Seq<WorldId>) -> Seq<usize> {
    ws.map_values(|w: WorldId| w.0)
}

/// The index of the first world with identifier `w`, if any.
pub open spec fn first_world(ws: Seq<PossibleWorld>, w: usize) -> Option<int>
    decreases ws.len(),
{
    if ws.len() == 0 {
        None
    } else {
        match first_world(ws.drop_last(), w) {
            Some(i) => Some(i),
            None => if ws.last().id.0 == w {
                Some(ws.len() - 1)
            } else {
                None
            },
        }
    }
}

/// Whether a list of atom names holds `name`.
pub open spec fn has_atom(props: Seq<String>, name: Seq<char>) -> bool {
    exists|j: int| 0 <= j < props.len() && #[trigger] props[j]@ == name
}

/// Whether some world of the list has identifier `w`.
pub open spec fn has_world(ws: Seq<PossibleWorld>, w: usize) -> bool {
    exists|i: int| 0 <= i < ws.len() && #[trigger] ws[i].id.0 == w
}

pub proof fn lemma_first_world(ws: Seq<PossibleWorld>, w: usize)
    ensures
        first_world(ws, w) matches Some(i) ==> 0 <= i < ws.len() && ws[i].id.0 == w
            && forall|k: int| 0 <= k < i ==> ws[k].id.0 != w,
        first_world(ws, w) is None <==> !has_world(ws, w),
    decreases ws.len(),
{
    if ws.len() > 0 {
        let pre = ws.drop_last();
        lemma_first_world(pre, w);
        assert forall|k: int| 0 <= k < pre.len() implies pre[k] == ws[k] by {}
        if first_world(pre, w) is None {
            assert forall|k: int| 0 <= k < pre.len() implies ws[k].id.0 != w by {
                if ws[k].id.0 == w {
                    assert(pre[k].id.0 == w);
                }
            }
        }
        if first_world(ws.drop_last(), w) is None && ws.last().id.0 != w {
            assert forall|i: int| 0 <= i < ws.len() implies ws[i].id.0 != w by {
                if i < ws.len() - 1 {
                    assert(ws.drop_last()[i] == ws[i]);
                }
            }
        }
        if has_world(ws.drop_last(), w) {
            let i = choose|i: int| 0 <= i < ws.drop_last().len() && ws.drop_last()[i].id.0 == w;
            assert(ws[i] == ws.drop_last()[i]);
        }
    }
}

pub proof fn lemma_targets(rels: Seq<AccessibilityRelation>, agent: Seq<char>, w: usize)
    ensures
        forall|v: usize| targets(rels, agent, w).contains(v) <==> edge_set(rels).contains((agent, w, v)),
        forall|k: int| 0 <= k < targets(rels, agent, w).len() ==> edge_set(rels).contains(
            (agent, w, #[trigger] targets(rels, agent, w)[k]),
        ),
    decreases rels.len(),
{
    if rels.len() > 0 {
        let pre = rels.drop_last();
        lemma_targets(pre, agent, w);
        assert forall|v: usize| targets(rels, agent, w).contains(v) <==> edge_set(rels).contains(
            (agent, w, v),
        ) by {
            if targets(rels, agent, w).contains(v) {
                if targets(pre, agent, w).contains(v) {
                    let i = choose|i: int| 0 <= i < pre.len() && edge_view(pre[i]) == (agent, w, v);
                    assert(rels[i] == pre[i]);
                } else {
                    assert(edge_view(rels[rels.len() - 1]) == (agent, w, v));
                }
            }
            if edge_set(rels).contains((agent, w, v)) {
                let i = choose|i: int| 0 <= i < rels.len() && edge_view(rels[i]) == (agent, w, v);
                if i < rels.len() - 1 {
                    assert(pre[i] == rels[i]);
                    assert(edge_set(pre).contains((agent, w, v)));
                    assert(targets(pre, agent, w).contains(v));
                    let t = targets(pre, agent, w);
                    let j = choose|j: int| 0 <= j < t.len() && t[j] == v;
                    if rels.last().agent.0@ == agent && rels.last().from.0 == w {
                        assert(t.push(rels.last().to.0)[j] == v);
                    }
                } else {
                    let t = targets(pre, agent, w);
                    assert(t.push(v)[t.len() as int] == v);
                }
            }
        }
        assert forall|k: int| 0 <= k < targets(rels, agent, w).len() implies edge_set(rels).contains(
            (agent, w, #[trigger] targets(rels, agent, w)[k]),
        ) by {
            assert(targets(rels, agent, w).contains(targets(rels, agent, w)[k]));
        }
    }
}

impl KripkeModel {
    /// Create an empty model with actual world 0.
    pub fn new() -> (m: Self)
        ensures
            m.worlds@.len() == 0,
            m.relations@.len() == 0,
            m.actual_world.0 == 0,
    {
        KripkeModel { worlds: Vec::new(), relations: Vec::new(), actual_world: WorldId(0) }
    }

    /// All worlds `agent` can reach from `world` in one step, in edge order.
    pub fn worlds_accessible_from(&self, agent: &AgentId, world: WorldId) -> (res: Vec<WorldId>)
        ensures
            world_ids(res@) == targets(self.relations@, agent.0@, world.0),
    {
        let mut res: Vec<WorldId> = Vec::new();
        let mut i: usize = 0;
        while i < self.relations.len()
            invariant
                i <= self.relations@.len(),
                world_ids(res@) == targets(self.relations@.take(i as int), agent.0@, world.0),
            decreases self.relations@.len() - i,
        {
            let r = &self.relations[i];
            proof {
                assert(self.relations@.take(i + 1).drop_last() =~= self.relations@.take(i as int));
            }
            if r.agent.0 == agent.0 && r.from.0 == world.0 {
                let ghost before = res@;
                res.push(r.to);
                assert(world_ids(res@) =~= world_ids(before).push(r.to.0));
            }
            i += 1;
        }
        assert(self.relations@.take(i as int) =~= self.relations@);
        res
    }

    /// Whether a world with identifier `id` exists in the model.
    fn world_exists(&self, id: WorldId) -> (b: bool)
        ensures
            b == has_world(self.worlds@, id.0),
    {
        let mut i: usize = 0;
        while i < self.worlds.len()
            invariant
                i <= self.worlds@.len(),
                forall|k: int| 0 <= k < i ==> self.worlds@[k].id.0 != id.0,
            decreases self.worlds@.len() - i,
        {
            if self.worlds[i].id.0 == id.0 {
                return true;
            }
            i += 1;
        }
        false
    }

    /// The first world with identifier `id`.
    fn get_world(&self, id: WorldId) -> (res: Option<&PossibleWorld>)
        ensures
            match first_world(self.worlds@, id.0) {
                Some(i) => res == Some(&self.worlds@[i]),
                None => res is None,
            },
    {
        proof {
            lemma_first_world(self.worlds@, id.0);
        }
        let mut i: usize = 0;
        while i < self.worlds.len()
            invariant
                i <= self.worlds@.len(),
                forall|k: int| 0 <= k < i ==> self.worlds@[k].id.0 != id.0,
            decreases self.worlds@.len() - i,
        {
            if self.worlds[i].id.0 == id.0 {
                proof {
                    lemma_first_world(self.worlds@, id.0);
                    let j = first_world(self.worlds@, id.0)->0;
                    assert(has_world(self.worlds@, id.0));
                    assert(j == i as int);
                }
                return Some(&self.worlds[i]);
            }
            i += 1;
        }
        None
    }
}

impl Default for KripkeModel {
    fn default() -> (m: Self)
        ensures
            m.worlds@.len() == 0,
            m.relations@.len() == 0,
            m.actual_world.0 == 0,
    {
        Self::new()
    }
}

// ─── Error ────────────────────────────────────────────────────────────────────

/// Errors that can occur during epistemic reasoning.
#[derive(Debug, Clone, PartialEq, Eq)]
pub enum EpistemicError {
    /// No world with the given index exists in the model.
    WorldNotFound(usize),
    /// No agent with the given name exists in the reasoner.
    AgentNotFound(String),
    /// The reachability search for common knowledge went `max_depth` steps deep.
    MaxDepthExceeded,
    /// The model has no worlds at all.
    EmptyModel,
}

// ─── Stats ───────────────────────────────────────────────────────────────────

/// Summary statistics for a [`EpistemicLogicReasoner`].
#[derive(Debug, Clone, PartialEq, Eq)]
pub struct EpistemicStats {
    pub world_count: usize,
    pub agent_count: usize,
    pub relation_count: usize,
    pub actual_world: usize,
}

// ─── Reasoner ────────────────────────────────────────────────────────────────

/// Multi-agent epistemic logic reasoner over a finite Kripke model.
#[derive(Debug, Clone)]
pub struct EpistemicLogicReasoner {
    /// The underlying Kripke structure.
    pub model: KripkeModel,
    /// Registered agents (order is stable).
    pub agents: Vec<AgentId>,
    /// Bound on the depth of the reachability search behind common knowledge.
    pub max_depth: usize,
    /// The identifier the next added world receives.
    next_world_id: usize,
}

/// Whether an agent of the list has name `a`.
pub open spec fn agent_listed(agents: Seq<AgentId>, a: Seq<char>) -> bool {
    exists|i: int| 0 <= i < agents.len() && #[trigger] agents[i].0@ == a
}

/// Whether an edge with this (agent name, from, to) is in the list.
fn contains_edge(rels: &Vec<AccessibilityRelation>, agent: &String, from: usize, to: usize) -> (b: bool)
    ensures
        b == edge_set(rels@).contains((agent@, from, to)),
{
    let mut i: usize = 0;
    while i < rels.len()
        invariant
            i <= rels@.len(),
            forall|k: int| 0 <= k < i ==> edge_view(#[trigger] rels@[k]) != (agent@, from, to),
        decreases rels@.len() - i,
    {
        let r = &rels[i];
        if r.agent.0 == *agent && r.from.0 == from && r.to.0 == to {
            assert(edge_view(rels@[i as int]) == (agent@, from, to));
            return true;
        }
        i += 1;
    }
    false
}

/// Whether some agent in the list has the same name as `agent`.
fn contains_agent(agents: &Vec<AgentId>, agent: &AgentId) -> (b: bool)
    ensures
        b == agent_listed(agents@, agent.0@),
{
    let mut i: usize = 0;
    while i < agents.len()
        invariant
            i <= agents@.len(),
            forall|k: int| 0 <= k < i ==> (#[trigger] agents@[k]).0@ != agent.0@,
        decreases agents@.len() - i,
    {
        if agents[i].0 == agent.0 {
            return true;
        }
        i += 1;
    }
    false
}

impl EpistemicLogicReasoner {
    /// The identifier the next added world receives.
    pub closed spec fn next_id(&self) -> usize {
        self.next_world_id
    }

    /// The Kripke model of the reasoner.
    pub closed spec fn kripke(&self) -> KripkeModel {
        self.model
    }

    /// The registered agents, in registration order.
    pub closed spec fn agent_list(&self) -> Seq<AgentId> {
        self.agents@
    }

    /// The bound on the reachability search behind common knowledge.
    pub closed spec fn depth_bound(&self) -> usize {
        self.max_depth
    }

    /// Create a new reasoner with an empty Kripke model.
    pub fn new(max_depth: usize) -> (r: Self)
        ensures
            r.kripke().worlds@.len() == 0,
            r.kripke().relations@.len() == 0,
            r.kripke().actual_world.0 == 0,
            r.agent_list().len() == 0,
            r.depth_bound() == max_depth,
            r.next_id() == 0,
    {
        Self { model: KripkeModel::new(), agents: Vec::new(), max_depth, next_world_id: 0 }
    }

    /// Add a world with the given true atoms, returning its fresh identifier.
    pub fn add_world(&mut self, props: Vec<String>) -> (id: WorldId)
        requires
            old(self).next_id() < usize::MAX,
        ensures
            id.0 == old(self).next_id(),
            final(self).next_id() == old(self).next_id() + 1,
            final(self).kripke().worlds@ == old(self).kripke().worlds@.push(
                PossibleWorld { id, true_propositions: props },
            ),
            final(self).kripke().relations@ == old(self).kripke().relations@,
            final(self).kripke().actual_world == old(self).kripke().actual_world,
            final(self).agent_list() == old(self).agent_list(),
            final(self).depth_bound() == old(self).depth_bound(),
    {
        let id = WorldId(self.next_world_id);
        self.next_world_id = self.next_world_id + 1;
        self.model.worlds.push(PossibleWorld { id, true_propositions: props });
        id
    }

    /// Set the designated actual world; fails if no world has this identifier.
    pub fn set_actual_world(&mut self, world: WorldId) -> (res: Result<(), EpistemicError>)
        ensures
            has_world(old(self).kripke().worlds@, world.0) ==> res is Ok
                && final(self).kripke().actual_world == world,
            !has_world(old(self).kripke().worlds@, world.0) ==> res == Err::<(), EpistemicError>(
                EpistemicError::WorldNotFound(world.0),
            ) && final(self).kripke().actual_world == old(self).kripke().actual_world,
            final(self).kripke().worlds@ == old(self).kripke().worlds@,
            final(self).kripke().relations@ == old(self).kripke().relations@,
            final(self).agent_list() == old(self).agent_list(),
            final(self).depth_bound() == old(self).depth_bound(),
            final(self).next_id() == old(self).next_id(),
    {
        if !self.model.world_exists(world) {
            return Err(EpistemicError::WorldNotFound(world.0));
        }
        self.model.actual_world = world;
        Ok(())
    }

    /// Register an agent; an agent whose name is already registered is ignored.
    pub fn add_agent(&mut self, agent: AgentId)
        ensures
            agent_listed(old(self).agent_list(), agent.0@) ==> final(self).agent_list() == old(self).agent_list(),
            !agent_listed(old(self).agent_list(), agent.0@) ==> final(self).agent_list() == old(self).agent_list().push(agent),
            final(self).kripke() == old(self).kripke(),
            final(self).depth_bound() == old(self).depth_bound(),
            final(self).next_id() == old(self).next_id(),
    {
        if !contains_agent(&self.agents, &agent) {
            self.agents.push(agent);
        }
    }

    /// Add the edge (agent, from → to); fails if either world is unknown
    /// (`from` is checked first). An edge already present is not added again.
    pub fn add_accessibility(&mut self, agent: AgentId, from: WorldId, to: WorldId) -> (res: Result<
        (),
        EpistemicError,
    >)
        ensures
            !has_world(old(self).kripke().worlds@, from.0) ==> res == Err::<(), EpistemicError>(
                EpistemicError::WorldNotFound(from.0),
            ),
            has_world(old(self).kripke().worlds@, from.0) && !has_world(old(self).kripke().worlds@, to.0)
                ==> res == Err::<(), EpistemicError>(EpistemicError::WorldNotFound(to.0)),
            res is Ok <==> has_world(old(self).kripke().worlds@, from.0) && has_world(
                old(self).kripke().worlds@,
                to.0,
            ),
            (res is Err || edge_set(old(self).kripke().relations@).contains((agent.0@, from.0, to.0)))
                ==> final(self).kripke().relations@ == old(self).kripke().relations@,
            (res is Ok && !edge_set(old(self).kripke().relations@).contains((agent.0@, from.0, to.0)))
                ==> final(self).kripke().relations@ == old(self).kripke().relations@.push(
                AccessibilityRelation { agent, from, to },
            ),
            final(self).kripke().worlds@ == old(self).kripke().worlds@,
            final(self).kripke().actual_world == old(self).kripke().actual_world,
            final(self).agent_list() == old(self).agent_list(),
            final(self).depth_bound() == old(self).depth_bound(),
            final(self).next_id() == old(self).next_id(),
    {
        if !self.model.world_exists(from) {
            return Err(EpistemicError::WorldNotFound(from.0));
        }
        if !self.model.world_exists(to) {
            return Err(EpistemicError::WorldNotFound(to.0));
        }
        if !contains_edge(&self.model.relations, &agent.0, from.0, to.0) {
            self.model.relations.push(AccessibilityRelation { agent, from, to });
        }
        Ok(())
    }

    /// Summary statistics for the current model.
    pub fn stats(&self) -> (s: EpistemicStats)
        ensures
            s == (EpistemicStats {
                world_count: self.kripke().worlds@.len() as usize,
                agent_count: self.agent_list().len() as usize,
                relation_count: self.kripke().relations@.len() as usize,
                actual_world: self.kripke().actual_world.0,
            }),
    {
        EpistemicStats {
            world_count: self.model.worlds.len(),
            agent_count: self.agents.len(),
            relation_count: self.model.relations.len(),
            actual_world: self.model.actual_world.0,
        }
    }
}

// ─── Reachability over the union of all relations ────────────────────────────

/// The worlds one edge (of any agent) away from some world of `s`.
pub open spec fn successors(rels: Seq<AccessibilityRelation>, s: Set<usize>) -> Set<usize> {
    Set::new(
        |v: usize|
            exists|l: int|
                0 <= l < rels.len() && s.contains(#[trigger] rels[l].from.0) && rels[l].to.0 == v,
    )
}

/// The worlds reachable from `start` in at most `k` edges (of any agents).
pub open spec fn reach_within(rels: Seq<AccessibilityRelation>, start: usize, k: nat) -> Set<usize>
    decreases k,
{
    if k == 0 {
        set![start]
    } else {
        let p = reach_within(rels, start, (k - 1) as nat);
        p.union(successors(rels, p))
    }
}

/// The worlds at distance exactly `k` from `start`.
pub open spec fn layer(rels: Seq<AccessibilityRelation>, start: usize, k: nat) -> Set<usize> {
    if k == 0 {
        set![start]
    } else {
        reach_within(rels, start, k).difference(reach_within(rels, start, (k - 1) as nat))
    }
}

/// The sequence holds exactly the members of the set.
pub open spec fn lists(q: Seq<usize>, s: Set<usize>) -> bool {
    &&& forall|v: usize| q.contains(v) ==> s.contains(v)
    &&& forall|v: usize| s.contains(v) ==> q.contains(v)
}

/// A strictly increasing sequence.
pub open spec fn strictly_ascending(q: Seq<usize>) -> bool {
    forall|i: int, j: int| 0 <= i < j < q.len() ==> q[i] < q[j]
}

/// The members of a finite set of worlds in increasing order.
pub open spec fn ascending_listing(s: Set<usize>) -> Seq<usize> {
    choose|q: Seq<usize>| strictly_ascending(q) && forall|v: usize| q.contains(v) <==> s.contains(v)
}

pub proof fn lemma_ascending_unique(x: Seq<usize>, y: Seq<usize>)
    requires
        strictly_ascending(x),
        strictly_ascending(y),
        forall|v: usize| x.contains(v) <==> y.contains(v),
    ensures
        x == y,
    decreases x.len(),
{
    if x.len() == 0 {
        if y.len() > 0 {
            assert(y.contains(y[0]));
        }
        assert(x =~= y);
    } else {
        if y.len() == 0 {
            assert(x.contains(x[0]));
        }
        assert(x.contains(x[0]));
        assert(y.contains(y[0]));
        let jy = choose|j: int| 0 <= j < y.len() && y[j] == x[0];
        let jx = choose|j: int| 0 <= j < x.len() && x[j] == y[0];
        assert(x[0] == y[0]) by {
            if jy > 0 {
                assert(y[0] < y[jy]);
            }
            if jx > 0 {
                assert(x[0] < x[jx]);
            }
        }
        let xs = x.drop_first();
        let ys = y.drop_first();
        assert forall|v: usize| xs.contains(v) <==> ys.contains(v) by {
            if xs.contains(v) {
                let k = choose|k: int| 0 <= k < xs.len() && xs[k] == v;
                assert(x[k + 1] == v);
                assert(x.contains(v));
                let m = choose|m: int| 0 <= m < y.len() && y[m] == v;
                assert(x[0] < x[k + 1]);
                assert(m != 0);
                assert(ys[m - 1] == v);
            }
            if ys.contains(v) {
                let k = choose|k: int| 0 <= k < ys.len() && ys[k] == v;
                assert(y[k + 1] == v);
                assert(y.contains(v));
                let m = choose|m: int| 0 <= m < x.len() && x[m] == v;
                assert(y[0] < y[k + 1]);
                assert(m != 0);
                assert(xs[m - 1] == v);
            }
        }
        lemma_ascending_unique(xs, ys);
        assert(x =~= seq![x[0]] + xs);
        assert(y =~= seq![y[0]] + ys);
    }
}

pub proof fn lemma_insert_position(q: Seq<usize>, x: usize) -> (pos: int)
    requires
        strictly_ascending(q),
        !q.contains(x),
    ensures
        0 <= pos <= q.len(),
        forall|k: int| 0 <= k < pos ==> q[k] < x,
        forall|k: int| pos <= k < q.len() ==> q[k] > x,
    decreases q.len(),
{
    if q.len() == 0 {
        0
    } else if q.last() < x {
        assert forall|k: int| 0 <= k < q.len() implies q[k] < x by {
            if k < q.len() - 1 {
                assert(q[k] < q[q.len() - 1]);
            }
        }
        q.len() as int
    } else {
        assert(q[q.len() - 1] != x);
        let pre = q.drop_last();
        assert(!pre.contains(x)) by {
            if pre.contains(x) {
                let k = choose|k: int| 0 <= k < pre.len() && pre[k] == x;
                assert(q[k] == x);
            }
        }
        let p = lemma_insert_position(pre, x);
        assert forall|k: int| 0 <= k < p implies q[k] < x by {
            assert(q[k] == pre[k]);
        }
        assert forall|k: int| p <= k < q.len() implies q[k] > x by {
            if k < q.len() - 1 {
                assert(q[k] == pre[k]);
            }
        }
        p
    }
}

pub proof fn lemma_listing_exists(s: Set<usize>)
    requires
        s.finite(),
    ensures
        strictly_ascending(ascending_listing(s)),
        lists(ascending_listing(s), s),
    decreases s.len(),
{
    if s.len() == 0 {
        let q = Seq::<usize>::empty();
        assert(s =~= Set::<usize>::empty());
        assert(forall|v: usize| q.contains(v) <==> s.contains(v));
        lemma_listing_is(q, s);
    } else {
        let x = s.choose();
        let r = s.remove(x);
        lemma_listing_exists(r);
        let q = ascending_listing(r);
        assert(!q.contains(x));
        let pos = lemma_insert_position(q, x);
        let n = q.insert(pos, x);
        assert(strictly_ascending(n)) by {
            assert forall|i: int, j: int| 0 <= i < j < n.len() implies n[i] < n[j] by {
                if j < pos {
                } else if j == pos {
                } else if i < pos {
                    assert(n[j] == q[j - 1]);
                } else if i == pos {
                    assert(n[j] == q[j - 1]);
                } else {
                    assert(n[i] == q[i - 1] && n[j] == q[j - 1]);
                }
            }
        }
        assert forall|v: usize| n.contains(v) <==> s.contains(v) by {
            if n.contains(v) {
                let k = choose|k: int| 0 <= k < n.len() && n[k] == v;
                if k < pos {
                    assert(q.contains(q[k]));
                } else if k > pos {
                    assert(q.contains(q[k - 1]));
                }
            }
            if s.contains(v) {
                if v == x {
                    assert(n[pos] == x);
                } else {
                    assert(r.contains(v));
                    let k = choose|k: int| 0 <= k < q.len() && q[k] == v;
                    if k < pos {
                        assert(n[k] == v);
                    } else {
                        assert(n[k + 1] == v);
                    }
                }
            }
        }
        lemma_listing_is(n, s);
    }
}

pub proof fn lemma_listing_is(q: Seq<usize>, s: Set<usize>)
    requires
        strictly_ascending(q),
        forall|v: usize| q.contains(v) <==> s.contains(v),
    ensures
        ascending_listing(s) == q,
{
    let c = ascending_listing(s);
    assert(strictly_ascending(c) && forall|v: usize| c.contains(v) <==> s.contains(v));
    lemma_ascending_unique(c, q);
}

pub proof fn lemma_reach_finite(rels: Seq<AccessibilityRelation>, start: usize, k: nat)
    ensures
        reach_within(rels, start, k).finite(),
    decreases k,
{
    broadcast use vstd::seq_lib::seq_to_set_is_finite;

    if k > 0 {
        let p = reach_within(rels, start, (k - 1) as nat);
        lemma_reach_finite(rels, start, (k - 1) as nat);
        let tos = rels.map_values(|r: AccessibilityRelation| r.to.0);
        assert forall|v: usize| successors(rels, p).contains(v) implies tos.to_set().contains(v) by {
            let l = choose|l: int| 0 <= l < rels.len() && p.contains(#[trigger] rels[l].from.0) && rels[l].to.0 == v;
            assert(tos[l] == v);
        }
        vstd::set_lib::lemma_set_subset_finite(tos.to_set(), successors(rels, p));
    }
}

pub proof fn lemma_reach_grows(rels: Seq<AccessibilityRelation>, start: usize, k: nat)
    ensures
        reach_within(rels, start, k).subset_of(reach_within(rels, start, k + 1)),
        reach_within(rels, start, k).contains(start),
    decreases k,
{
    if k > 0 {
        lemma_reach_grows(rels, start, (k - 1) as nat);
    }
}

pub proof fn lemma_reach_stable(rels: Seq<AccessibilityRelation>, start: usize, d: nat, k: nat)
    requires
        reach_within(rels, start, d + 1) == reach_within(rels, start, d),
        d <= k,
    ensures
        reach_within(rels, start, k) == reach_within(rels, start, d),
    decreases k - d,
{
    if k > d {
        lemma_reach_stable(rels, start, d, (k - 1) as nat);
        assert(reach_within(rels, start, k) == reach_within(rels, start, (k - 1) as nat).union(
            successors(rels, reach_within(rels, start, (k - 1) as nat)),
        ));
    }
}

/// One BFS round: the successors of the reached set are those of the newest layer
/// together with worlds already reached.
pub proof fn lemma_next_round(rels: Seq<AccessibilityRelation>, start: usize, d: nat)
    ensures
        reach_within(rels, start, d + 1) =~= reach_within(rels, start, d).union(
            successors(rels, layer(rels, start, d)),
        ),
{
    let r = reach_within(rels, start, d);
    let f = layer(rels, start, d);
    if d > 0 {
        let p = reach_within(rels, start, (d - 1) as nat);
        lemma_reach_grows(rels, start, (d - 1) as nat);
        assert forall|v: usize| successors(rels, r).contains(v) implies r.contains(v) || successors(
            rels,
            f,
        ).contains(v) by {
            let l = choose|l: int|
                0 <= l < rels.len() && r.contains(#[trigger] rels[l].from.0) && rels[l].to.0 == v;
            if p.contains(rels[l].from.0) {
                assert(successors(rels, p).contains(v));
            } else {
                assert(f.contains(rels[l].from.0));
            }
        }
        assert forall|v: usize| successors(rels, f).contains(v) implies successors(rels, r).contains(
            v,
        ) by {
            let l = choose|l: int|
                0 <= l < rels.len() && f.contains(#[trigger] rels[l].from.0) && rels[l].to.0 == v;
            assert(r.contains(rels[l].from.0));
        }
    }
}

/// Whether a list of worlds is in increasing order and holds `x`.
fn ascending_contains(v: &Vec<usize>, x: usize) -> (b: bool)
    ensures
        b == v@.contains(x),
{
    let mut i: usize = 0;
    while i < v.len()
        invariant
            i <= v@.len(),
            forall|k: int| 0 <= k < i ==> v@[k] != x,
        decreases v@.len() - i,
    {
        if v[i] == x {
            return true;
        }
        i += 1;
    }
    false
}

/// Insert a new world into an increasing list, keeping it increasing.
fn ascending_insert(v: &mut Vec<usize>, x: usize)
    requires
        strictly_ascending(old(v)@),
        !old(v)@.contains(x),
    ensures
        strictly_ascending(final(v)@),
        forall|y: usize| final(v)@.contains(y) <==> (old(v)@.contains(y) || y == x),
{
    let mut pos: usize = 0;
    while pos < v.len() && v[pos] < x
        invariant
            pos <= v@.len(),
            forall|k: int| 0 <= k < pos ==> v@[k] < x,
        decreases v@.len() - pos,
    {
        pos += 1;
    }
    let ghost before = v@;
    v.insert(pos, x);
    proof {
        assert(final(v)@ == before.insert(pos as int, x)) by {}
        assert forall|k: int| pos <= k < before.len() implies before[k] > x by {
            if k > pos {
                assert(before[pos as int] < before[k]);
            }
            assert(before[pos as int] != x) by {
                if before[pos as int] == x {
                    assert(before.contains(x));
                }
            }
        }
        assert forall|y: usize| v@.contains(y) <==> (before.contains(y) || y == x) by {
            if v@.contains(y) {
                let k = choose|k: int| 0 <= k < v@.len() && v@[k] == y;
                if k < pos {
                    assert(before[k] == y);
                } else if k > pos {
                    assert(before[k - 1] == y);
                }
            }
            if before.contains(y) {
                let k = choose|k: int| 0 <= k < before.len() && before[k] == y;
                if k < pos {
                    assert(v@[k] == y);
                } else {
                    assert(v@[k + 1] == y);
                }
            }
            if y == x {
                assert(v@[pos as int] == x);
            }
        }
    }
}

/// Whether a list of atom names holds `name`.
fn contains_atom(props: &Vec<String>, name: &String) -> (b: bool)
    ensures
        b == has_atom(props@, name@),
{
    let mut i: usize = 0;
    while i < props.len()
        invariant
            i <= props@.len(),
            forall|k: int| 0 <= k < i ==> (#[trigger] props@[k])@ != name@,
        decreases props@.len() - i,
    {
        if props[i] == *name {
            return true;
        }
        i += 1;
    }
    false
}

// ─── Semantics ───────────────────────────────────────────────────────────────

impl EpistemicLogicReasoner {
    /// The atoms of the first world with identifier `w`, if any.
    pub open spec fn world_props(&self, w: usize) -> Option<Seq<String>> {
        match first_world(self.kripke().worlds@, w) {
            Some(i) => Some(self.kripke().worlds@[i].true_propositions@),
            None => None,
        }
    }

    /// Whether a world with identifier `w` exists.
    pub open spec fn world_known(&self, w: usize) -> bool {
        has_world(self.kripke().worlds@, w)
    }

    /// The worlds `agent` accesses from `w`, in edge order.
    pub open spec fn access(&self, agent: Seq<char>, w: usize) -> Seq<usize> {
        targets(self.kripke().relations@, agent, w)
    }

    /// The worlds reachable from `w` over the union of all relations, in increasing
    /// order, or `MaxDepthExceeded` when the search reaches depth `max_depth`
    /// (some world lies `max_depth` or more edges away, or `max_depth` is 0).
    pub open spec fn reach_spec(&self, w: usize) -> Result<Seq<usize>, EpistemicError> {
        let rels = self.kripke().relations@;
        let m = self.depth_bound();
        if m == 0 || reach_within(rels, w, m as nat) != reach_within(rels, w, (m - 1) as nat) {
            Err(EpistemicError::MaxDepthExceeded)
        } else {
            Ok(ascending_listing(reach_within(rels, w, (m - 1) as nat)))
        }
    }

    /// The value of `f` at world `w`. Errors surface in evaluation order:
    /// conjunction and disjunction short-circuit from the left, and the modal
    /// operators visit worlds in the order of `access`, `agent_list` and `reach_spec`.
    pub open spec fn eval_spec(&self, f: EpistemicFormula, w: usize) -> Result<bool, EpistemicError>
        decreases f, 0nat, 0nat,
    {
        match f {
            EpistemicFormula::Atom(name) => match self.world_props(w) {
                None => Err(EpistemicError::WorldNotFound(w)),
                Some(ps) => Ok(has_atom(ps, name@)),
            },
            EpistemicFormula::Not(g) => match self.eval_spec(*g, w) {
                Ok(b) => Ok(!b),
                Err(e) => Err(e),
            },
            EpistemicFormula::And(l, r) => match self.eval_spec(*l, w) {
                Err(e) => Err(e),
                Ok(b) => if !b {
                    Ok(false)
                } else {
                    self.eval_spec(*r, w)
                },
            },
            EpistemicFormula::Or(l, r) => match self.eval_spec(*l, w) {
                Err(e) => Err(e),
                Ok(b) => if b {
                    Ok(true)
                } else {
                    self.eval_spec(*r, w)
                },
            },
            EpistemicFormula::Knows { agent, phi } => self.all_hold(*phi, self.access(agent.0@, w)),
            EpistemicFormula::Possible { agent, phi } => self.any_holds(
                *phi,
                self.access(agent.0@, w),
            ),
            EpistemicFormula::EveryoneKnows(phi) => self.all_know(*phi, self.agent_list(), w),
            EpistemicFormula::CommonKnowledge(phi) => match self.reach_spec(w) {
                Err(e) => Err(e),
                Ok(ws) => self.all_hold(*phi, ws),
            },
        }
    }

    /// `phi` holds at every world of `ws`, checked in order; the first error or
    /// the first world where it fails decides.
    pub open spec fn all_hold(&self, phi: EpistemicFormula, ws: Seq<usize>) -> Result<
        bool,
        EpistemicError,
    >
        decreases phi, 1nat, ws.len(),
    {
        if ws.len() == 0 {
            Ok(true)
        } else {
            match self.eval_spec(phi, ws[0]) {
                Err(e) => Err(e),
                Ok(b) => if !b {
                    Ok(false)
                } else {
                    self.all_hold(phi, ws.drop_first())
                },
            }
        }
    }

    /// `phi` holds at some world of `ws`, checked in order; the first error or
    /// the first world where it holds decides.
    pub open spec fn any_holds(&self, phi: EpistemicFormula, ws: Seq<usize>) -> Result<
        bool,
        EpistemicError,
    >
        decreases phi, 1nat, ws.len(),
    {
        if ws.len() == 0 {
            Ok(false)
        } else {
            match self.eval_spec(phi, ws[0]) {
                Err(e) => Err(e),
                Ok(b) => if b {
                    Ok(true)
                } else {
                    self.any_holds(phi, ws.drop_first())
                },
            }
        }
    }

    /// Every agent of `ags` knows `phi` at `w`, checked agent by agent.
    pub open spec fn all_know(&self, phi: EpistemicFormula, ags: Seq<AgentId>, w: usize) -> Result<
        bool,
        EpistemicError,
    >
        decreases phi, 2nat, ags.len(),
    {
        if ags.len() == 0 {
            Ok(true)
        } else {
            match self.all_hold(phi, self.access(ags[0].0@, w)) {
                Err(e) => Err(e),
                Ok(b) => if !b {
                    Ok(false)
                } else {
                    self.all_know(phi, ags.drop_first(), w)
                },
            }
        }
    }

    // ─── Internal recursive evaluator ────────────────────────────────────────

    fn eval_rec(&self, formula: &EpistemicFormula, world: WorldId) -> (res: Result<
        bool,
        EpistemicError,
    >)
        ensures
            res == self.eval_spec(*formula, world.0),
        decreases formula, 0nat, 0nat,
    {
        match formula {
            EpistemicFormula::Atom(name) => {
                match self.model.get_world(world) {
                    None => Err(EpistemicError::WorldNotFound(world.0)),
                    Some(w) => Ok(contains_atom(&w.true_propositions, name)),
                }
            },
            EpistemicFormula::Not(inner) => {
                match self.eval_rec(inner, world) {
                    Ok(b) => Ok(!b),
                    Err(e) => Err(e),
                }
            },
            EpistemicFormula::And(lhs, rhs) => {
                match self.eval_rec(lhs, world) {
                    Err(e) => Err(e),
                    Ok(b) => if !b {
                        Ok(false)
                    } else {
                        self.eval_rec(rhs, world)
                    },
                }
            },
            EpistemicFormula::Or(lhs, rhs) => {
                match self.eval_rec(lhs, world) {
                    Err(e) => Err(e),
                    Ok(b) => if b {
                        Ok(true)
                    } else {
                        self.eval_rec(rhs, world)
                    },
                }
            },
            EpistemicFormula::Knows { agent, phi } => self.eval_knows(agent, phi, world),
            EpistemicFormula::Possible { agent, phi } => self.eval_possible(agent, phi, world),
            EpistemicFormula::EveryoneKnows(phi) => self.eval_everyone_knows(phi, world),
            EpistemicFormula::CommonKnowledge(phi) => self.eval_common_knowledge(phi, world),
        }
    }

    /// Evaluate `phi` at each world of `ws` in order until one fails.
    fn eval_all(&self, phi: &EpistemicFormula, ws: &Vec<usize>) -> (res: Result<bool, EpistemicError>)
        ensures
            res == self.all_hold(*phi, ws@),
        decreases phi, 1nat, 1nat,
    {
        let mut i: usize = 0;
        assert(ws@.subrange(0, ws@.len() as int) =~= ws@);
        while i < ws.len()
            invariant
                i <= ws@.len(),
                self.all_hold(*phi, ws@) == self.all_hold(*phi, ws@.subrange(i as int, ws@.len() as int)),
            decreases ws@.len() - i,
        {
            let ghost rest = ws@.subrange(i as int, ws@.len() as int);
            assert(rest.drop_first() =~= ws@.subrange(i + 1, ws@.len() as int));
            match self.eval_rec(phi, WorldId(ws[i])) {
                Err(e) => {
                    return Err(e);
                },
                Ok(b) => {
                    if !b {
                        return Ok(false);
                    }
                },
            }
            i += 1;
        }
        Ok(true)
    }

    /// Evaluate `phi` at each world of `ws` in order until one satisfies it.
    fn eval_any(&self, phi: &EpistemicFormula, ws: &Vec<usize>) -> (res: Result<bool, EpistemicError>)
        ensures
            res == self.any_holds(*phi, ws@),
        decreases phi, 1nat, 1nat,
    {
        let mut i: usize = 0;
        assert(ws@.subrange(0, ws@.len() as int) =~= ws@);
        while i < ws.len()
            invariant
                i <= ws@.len(),
                self.any_holds(*phi, ws@) == self.any_holds(*phi, ws@.subrange(i as int, ws@.len() as int)),
            decreases ws@.len() - i,
        {
            let ghost rest = ws@.subrange(i as int, ws@.len() as int);
            assert(rest.drop_first() =~= ws@.subrange(i + 1, ws@.len() as int));
            match self.eval_rec(phi, WorldId(ws[i])) {
                Err(e) => {
                    return Err(e);
                },
                Ok(b) => {
                    if b {
                        return Ok(true);
                    }
                },
            }
            i += 1;
        }
        Ok(false)
    }

    /// The identifiers of the worlds `agent` accesses from `world`.
    fn access_ids(&self, agent: &AgentId, world: WorldId) -> (res: Vec<usize>)
        ensures
            res@ == self.access(agent.0@, world.0),
    {
        let acc = self.model.worlds_accessible_from(agent, world);
        let mut res: Vec<usize> = Vec::new();
        let mut i: usize = 0;
        while i < acc.len()
            invariant
                i <= acc@.len(),
                res@ == world_ids(acc@).take(i as int),
            decreases acc@.len() - i,
        {
            res.push(acc[i].0);
            assert(res@ =~= world_ids(acc@).take(i + 1));
            i += 1;
        }
        assert(world_ids(acc@).take(i as int) =~= world_ids(acc@));
        res
    }

    /// K_i(φ) at `world`: φ holds in every world agent i accesses from `world`.
    fn eval_knows(&self, agent: &AgentId, phi: &EpistemicFormula, world: WorldId) -> (res: Result<
        bool,
        EpistemicError,
    >)
        ensures
            res == self.all_hold(*phi, self.access(agent.0@, world.0)),
        decreases phi, 1nat, 2nat,
    {
        let accessible = self.access_ids(agent, world);
        self.eval_all(phi, &accessible)
    }

    /// M_i(φ) at `world`: φ holds in some world agent i accesses from `world`.
    fn eval_possible(&self, agent: &AgentId, phi: &EpistemicFormula, world: WorldId) -> (res: Result<
        bool,
        EpistemicError,
    >)
        ensures
            res == self.any_holds(*phi, self.access(agent.0@, world.0)),
        decreases phi, 1nat, 2nat,
    {
        let accessible = self.access_ids(agent, world);
        self.eval_any(phi, &accessible)
    }

    /// E(φ) at `world`: every registered agent knows φ.
    fn eval_everyone_knows(&self, phi: &EpistemicFormula, world: WorldId) -> (res: Result<
        bool,
        EpistemicError,
    >)
        ensures
            res == self.all_know(*phi, self.agent_list(), world.0),
        decreases phi, 2nat, 1nat,
    {
        let mut i: usize = 0;
        assert(self.agents@.subrange(0, self.agents@.len() as int) =~= self.agents@);
        while i < self.agents.len()
            invariant
                i <= self.agents@.len(),
                self.all_know(*phi, self.agents@, world.0) == self.all_know(
                    *phi,
                    self.agents@.subrange(i as int, self.agents@.len() as int),
                    world.0,
                ),
            decreases self.agents@.len() - i,
        {
            let ghost rest = self.agents@.subrange(i as int, self.agents@.len() as int);
            assert(rest.drop_first() =~= self.agents@.subrange(i + 1, self.agents@.len() as int));
            match self.eval_knows(&self.agents[i], phi, world) {
                Err(e) => {
                    return Err(e);
                },
                Ok(b) => {
                    if !b {
                        return Ok(false);
                    }
                },
            }
            i += 1;
        }
        Ok(true)
    }

    /// C(φ) at `world`: φ holds at every world reachable over the union of
    /// all relations (the reachability search is bounded by `max_depth`).
    fn eval_common_knowledge(&self, phi: &EpistemicFormula, world: WorldId) -> (res: Result<
        bool,
        EpistemicError,
    >)
        ensures
            res == (match self.reach_spec(world.0) {
                Err(e) => Err(e),
                Ok(ws) => self.all_hold(*phi, ws),
            }),
        decreases phi, 1nat, 2nat,
    {
        match self.reachable_via_union(world) {
            Err(e) => Err(e),
            Ok(reachable) => self.eval_all(phi, &reachable),
        }
    }

    /// Breadth-first search over the union of all agents' relations from `start`,
    /// layer by layer; reaching depth `max_depth` with worlds still to expand is
    /// an error. The reached worlds are returned in increasing order.
    fn reachable_via_union(&self, start: WorldId) -> (res: Result<Vec<usize>, EpistemicError>)
        ensures
            match (res, self.reach_spec(start.0)) {
                (Ok(v), Ok(q)) => v@ == q,
                (Err(e1), Err(e2)) => e1 == e2,
                _ => false,
            },
    {
        let ghost rels = self.model.relations@;
        let ghost s = start.0;
        let mut visited: Vec<usize> = Vec::new();
        visited.push(start.0);
        let mut frontier: Vec<usize> = Vec::new();
        frontier.push(start.0);
        let mut depth: usize = 0;
        proof {
            assert(visited@ =~= seq![start.0]);
            assert(frontier@ =~= seq![start.0]);
            assert(visited@[0] == s);
            assert(frontier@[0] == s);
        }
        loop
            invariant
                rels == self.model.relations@,
                s == start.0,
                depth <= self.max_depth,
                strictly_ascending(visited@),
                lists(visited@, reach_within(rels, s, depth as nat)),
                lists(frontier@, layer(rels, s, depth as nat)),
            decreases self.max_depth - depth,
        {
            if frontier.len() == 0 {
                proof {
                    let d = depth as nat;
                    assert(d > 0) by {
                        if d == 0 {
                            assert(layer(rels, s, 0).contains(s));
                        }
                    }
                    let r1 = reach_within(rels, s, (d - 1) as nat);
                    let r2 = reach_within(rels, s, d);
                    lemma_reach_grows(rels, s, (d - 1) as nat);
                    assert(r2 =~= r1) by {
                        assert forall|v: usize| r2.contains(v) implies r1.contains(v) by {
                            if !r1.contains(v) {
                                assert(layer(rels, s, d).contains(v));
                            }
                        }
                    }
                    let m = self.max_depth as nat;
                    lemma_reach_stable(rels, s, (d - 1) as nat, m);
                    lemma_reach_stable(rels, s, (d - 1) as nat, (m - 1) as nat);
                    lemma_listing_is(visited@, r2);
                }
                return Ok(visited);
            }
            if depth >= self.max_depth {
                proof {
                    let d = depth as nat;
                    assert(frontier@.contains(frontier@[0]));
                    if d > 0 {
                        assert(layer(rels, s, d).contains(frontier@[0]));
                        assert(!reach_within(rels, s, (d - 1) as nat).contains(frontier@[0]));
                    }
                }
                return Err(EpistemicError::MaxDepthExceeded);
            }
            let ghost rd = reach_within(rels, s, depth as nat);
            let ghost fset = layer(rels, s, depth as nat);
            let mut next: Vec<usize> = Vec::new();
            let mut i: usize = 0;
            proof {
                assert(frontier@.take(0).to_set() =~= Set::<usize>::empty());
                assert(successors(rels, frontier@.take(0).to_set()) =~= Set::<usize>::empty());
            }
            while i < frontier.len()
                invariant
                    rels == self.model.relations@,
                    i <= frontier@.len(),
                    strictly_ascending(visited@),
                    lists(visited@, rd.union(successors(rels, frontier@.take(i as int).to_set()))),
                    lists(next@, successors(rels, frontier@.take(i as int).to_set()).difference(rd)),
                decreases frontier@.len() - i,
            {
                let u = frontier[i];
                let ghost fi = frontier@.take(i as int).to_set();
                let mut j: usize = 0;
                proof {
                    assert(successors(rels.take(0), set![u]) =~= Set::<usize>::empty());
                    assert(rd.union(successors(rels, fi)).union(successors(rels.take(0), set![u]))
                        =~= rd.union(successors(rels, fi)));
                    assert(successors(rels, fi).union(successors(rels.take(0), set![u])).difference(rd)
                        =~= successors(rels, fi).difference(rd));
                }
                while j < self.model.relations.len()
                    invariant
                        rels == self.model.relations@,
                        j <= rels.len(),
                        strictly_ascending(visited@),
                        lists(
                            visited@,
                            rd.union(successors(rels, fi)).union(successors(rels.take(j as int), set![u])),
                        ),
                        lists(
                            next@,
                            successors(rels, fi).union(successors(rels.take(j as int), set![u])).difference(rd),
                        ),
                    decreases rels.len() - j,
                {
                    let r = &self.model.relations[j];
                    let ghost vj = r.to.0;
                    let ghost a = successors(rels.take(j as int), set![u]);
                    let ghost b = successors(rels.take(j + 1), set![u]);
                    proof {
                        assert forall|v: usize| b.contains(v) <==> (a.contains(v) || (r.from.0 == u && v == vj)) by {
                            if b.contains(v) {
                                let l = choose|l: int|
                                    0 <= l < rels.take(j + 1).len() && set![u].contains(
                                        #[trigger] rels.take(j + 1)[l].from.0,
                                    ) && rels.take(j + 1)[l].to.0 == v;
                                if l < j {
                                    assert(rels.take(j as int)[l] == rels.take(j + 1)[l]);
                                }
                            }
                            if a.contains(v) {
                                let l = choose|l: int|
                                    0 <= l < rels.take(j as int).len() && set![u].contains(
                                        #[trigger] rels.take(j as int)[l].from.0,
                                    ) && rels.take(j as int)[l].to.0 == v;
                                assert(rels.take(j as int)[l] == rels.take(j + 1)[l]);
                            }
                            if r.from.0 == u && v == vj {
                                assert(rels.take(j + 1)[j as int] == rels[j as int]);
                            }
                        }
                    }
                    let ghost vis_before = visited@;
                    let ghost next_before = next@;
                    if r.from.0 == u && !ascending_contains(&visited, r.to.0) {
                        ascending_insert(&mut visited, r.to.0);
                        next.push(r.to.0);
                        proof {
                            assert forall|v: usize| next@.contains(v) implies (next_before.contains(v) || v == vj) by {
                                let k = choose|k: int| 0 <= k < next@.len() && next@[k] == v;
                                if k < next_before.len() {
                                    assert(next_before[k] == v);
                                }
                            }
                            assert forall|v: usize| next_before.contains(v) implies next@.contains(v) by {
                                let k = choose|k: int| 0 <= k < next_before.len() && next_before[k] == v;
                                assert(next@[k] == v);
                            }
                            assert(next@[next@.len() - 1] == vj);
                        }
                    }
                    proof {
                        let na = successors(rels, fi).union(a).difference(rd);
                        let nb = successors(rels, fi).union(b).difference(rd);
                        assert forall|v: usize| next@.contains(v) implies nb.contains(v) by {
                            if next_before.contains(v) {
                                assert(na.contains(v));
                                assert(a.contains(v) ==> b.contains(v));
                            } else {
                                assert(v == vj && r.from.0 == u);
                                assert(!vis_before.contains(vj));
                                assert(!rd.contains(vj));
                                assert(b.contains(vj));
                            }
                        }
                        assert forall|v: usize| nb.contains(v) implies next@.contains(v) by {
                            if !na.contains(v) {
                                assert(v == vj && r.from.0 == u);
                                assert(!vis_before.contains(vj)) by {
                                    if vis_before.contains(vj) {
                                        assert(rd.union(successors(rels, fi)).union(a).contains(vj));
                                    }
                                }
                            }
                        }
                    }
                    j += 1;
                }
                proof {
                    let fi1 = frontier@.take(i + 1).to_set();
                    assert(rels.take(rels.len() as int) =~= rels);
                    assert forall|v: usize| successors(rels, fi1).contains(v) <==> (successors(rels, fi).contains(v)
                        || successors(rels, set![u]).contains(v)) by {
                        if successors(rels, fi1).contains(v) {
                            let l = choose|l: int|
                                0 <= l < rels.len() && fi1.contains(#[trigger] rels[l].from.0)
                                    && rels[l].to.0 == v;
                            let k = choose|k: int| 0 <= k < i + 1 && #[trigger] frontier@.take(i + 1)[k] == rels[l].from.0;
                            if k < i {
                                assert(frontier@.take(i as int)[k] == rels[l].from.0);
                                assert(fi.contains(rels[l].from.0));
                            }
                        }
                        if successors(rels, fi).contains(v) {
                            let l = choose|l: int|
                                0 <= l < rels.len() && fi.contains(#[trigger] rels[l].from.0)
                                    && rels[l].to.0 == v;
                            let k = choose|k: int| 0 <= k < i && #[trigger] frontier@.take(i as int)[k] == rels[l].from.0;
                            assert(frontier@.take(i + 1)[k] == rels[l].from.0);
                            assert(fi1.contains(rels[l].from.0));
                        }
                        if successors(rels, set![u]).contains(v) {
                            let l = choose|l: int|
                                0 <= l < rels.len() && set![u].contains(#[trigger] rels[l].from.0)
                                    && rels[l].to.0 == v;
                            assert(frontier@.take(i + 1)[i as int] == u);
                            assert(fi1.contains(u));
                        }
                    }
                }
                i += 1;
            }
            proof {
                let d = depth as nat;
                assert(frontier@.take(frontier@.len() as int) =~= frontier@);
                assert(frontier@.to_set() =~= fset);
                lemma_next_round(rels, s, d);
                lemma_reach_grows(rels, s, d);
            }
            frontier = next;
            depth = depth + 1;
        }
    }
}

// ─── Evaluation over the model ───────────────────────────────────────────────

/// The worlds of `ids` at which `f` holds, in order; the first error decides.
pub open spec fn sat_filter(
    r: EpistemicLogicReasoner,
    f: EpistemicFormula,
    ids: Seq<usize>,
) -> Result<Seq<usize>, EpistemicError>
    decreases ids.len(),
{
    if ids.len() == 0 {
        Ok(Seq::empty())
    } else {
        match sat_filter(r, f, ids.drop_last()) {
            Err(e) => Err(e),
            Ok(s) => match r.eval_spec(f, ids.last()) {
                Err(e) => Err(e),
                Ok(b) => Ok(if b { s.push(ids.last()) } else { s }),
            },
        }
    }
}

impl EpistemicLogicReasoner {
    /// The identifiers of all worlds, in model order.
    pub open spec fn all_world_ids(&self) -> Seq<usize> {
        self.kripke().worlds@.map_values(|w: PossibleWorld| w.id.0)
    }

    fn world_id_list(&self) -> (res: Vec<usize>)
        ensures
            res@ == self.all_world_ids(),
    {
        let mut res: Vec<usize> = Vec::new();
        let mut i: usize = 0;
        while i < self.model.worlds.len()
            invariant
                i <= self.model.worlds@.len(),
                res@ == self.model.worlds@.map_values(|w: PossibleWorld| w.id.0).take(i as int),
            decreases self.model.worlds@.len() - i,
        {
            res.push(self.model.worlds[i].id.0);
            assert(res@ =~= self.model.worlds@.map_values(|w: PossibleWorld| w.id.0).take(i + 1));
            i += 1;
        }
        assert(self.model.worlds@.map_values(|w: PossibleWorld| w.id.0).take(i as int)
            =~= self.model.worlds@.map_values(|w: PossibleWorld| w.id.0));
        res
    }

    /// Evaluate `formula` in `world`: `EmptyModel` when there are no worlds,
    /// `WorldNotFound` when `world` is unknown, else [`Self::eval_spec`].
    pub fn evaluate(&self, formula: &EpistemicFormula, world: WorldId) -> (res: Result<
        bool,
        EpistemicError,
    >)
        ensures
            res == (if self.kripke().worlds@.len() == 0 {
                Err(EpistemicError::EmptyModel)
            } else if !self.world_known(world.0) {
                Err(EpistemicError::WorldNotFound(world.0))
            } else {
                self.eval_spec(*formula, world.0)
            }),
    {
        if self.model.worlds.len() == 0 {
            return Err(EpistemicError::EmptyModel);
        }
        if !self.model.world_exists(world) {
            return Err(EpistemicError::WorldNotFound(world.0));
        }
        self.eval_rec(formula, world)
    }

    /// Evaluate `formula` at the designated actual world.
    pub fn evaluate_actual(&self, formula: &EpistemicFormula) -> (res: Result<bool, EpistemicError>)
        ensures
            res == (if self.kripke().worlds@.len() == 0 {
                Err(EpistemicError::EmptyModel)
            } else if !self.world_known(self.kripke().actual_world.0) {
                Err(EpistemicError::WorldNotFound(self.kripke().actual_world.0))
            } else {
                self.eval_spec(*formula, self.kripke().actual_world.0)
            }),
    {
        self.evaluate(formula, self.model.actual_world)
    }

    /// All worlds, in model order, in which `formula` holds.
    pub fn satisfying_worlds(&self, formula: &EpistemicFormula) -> (res: Result<
        Vec<WorldId>,
        EpistemicError,
    >)
        ensures
            self.kripke().worlds@.len() == 0 ==> res == Err::<Vec<WorldId>, EpistemicError>(
                EpistemicError::EmptyModel,
            ),
            self.kripke().worlds@.len() > 0 ==> match (res, sat_filter(*self, *formula, self.all_world_ids())) {
                (Ok(v), Ok(q)) => world_ids(v@) == q,
                (Err(e1), Err(e2)) => e1 == e2,
                _ => false,
            },
    {
        if self.model.worlds.len() == 0 {
            return Err(EpistemicError::EmptyModel);
        }
        let ids = self.world_id_list();
        let mut result: Vec<WorldId> = Vec::new();
        let mut i: usize = 0;
        assert(ids@.take(0) =~= Seq::<usize>::empty());
        assert(world_ids(result@) =~= Seq::<usize>::empty());
        while i < ids.len()
            invariant
                i <= ids@.len(),
                ids@ == self.all_world_ids(),
                sat_filter(*self, *formula, ids@.take(i as int)) == Ok::<Seq<usize>, EpistemicError>(
                    world_ids(result@),
                ),
            decreases ids@.len() - i,
        {
            assert(ids@.take(i + 1).drop_last() =~= ids@.take(i as int));
            match self.eval_rec(formula, WorldId(ids[i])) {
                Err(e) => {
                    proof {
                        lemma_sat_filter_err(*self, *formula, ids@, i as int);
                    }
                    return Err(e);
                },
                Ok(b) => {
                    if b {
                        let ghost before = result@;
                        result.push(WorldId(ids[i]));
                        assert(world_ids(result@) =~= world_ids(before).push(ids@[i as int]));
                    }
                },
            }
            i += 1;
        }
        assert(ids@.take(i as int) =~= ids@);
        Ok(result)
    }

    /// Whether the formula holds in every world; the first world (in model
    /// order) where it fails or errs decides.
    pub fn is_valid(&self, formula: &EpistemicFormula) -> (res: Result<bool, EpistemicError>)
        ensures
            res == (if self.kripke().worlds@.len() == 0 {
                Err(EpistemicError::EmptyModel)
            } else {
                self.all_hold(*formula, self.all_world_ids())
            }),
    {
        if self.model.worlds.len() == 0 {
            return Err(EpistemicError::EmptyModel);
        }
        let ids = self.world_id_list();
        self.eval_all(formula, &ids)
    }

    /// Whether the formula holds in at least one world; the first world (in
    /// model order) where it holds or errs decides.
    pub fn is_satisfiable(&self, formula: &EpistemicFormula) -> (res: Result<bool, EpistemicError>)
        ensures
            res == (if self.kripke().worlds@.len() == 0 {
                Err(EpistemicError::EmptyModel)
            } else {
                self.any_holds(*formula, self.all_world_ids())
            }),
    {
        if self.model.worlds.len() == 0 {
            return Err(EpistemicError::EmptyModel);
        }
        let ids = self.world_id_list();
        self.eval_any(formula, &ids)
    }
}

/// Once some prefix errs, the whole filter errs with the same error.
pub proof fn lemma_sat_filter_err(r: EpistemicLogicReasoner, f: EpistemicFormula, ids: Seq<usize>, i: int)
    requires
        0 <= i < ids.len(),
        sat_filter(r, f, ids.take(i)) is Ok,
        r.eval_spec(f, ids[i]) is Err,
    ensures
        sat_filter(r, f, ids) == Err::<Seq<usize>, EpistemicError>(r.eval_spec(f, ids[i])->Err_0),
    decreases ids.len() - i,
{
    lemma_sat_filter_err_from(r, f, ids, i + 1, r.eval_spec(f, ids[i])->Err_0);
}

pub proof fn lemma_sat_filter_err_from(
    r: EpistemicLogicReasoner,
    f: EpistemicFormula,
    ids: Seq<usize>,
    k: int,
    e: EpistemicError,
)
    requires
        1 <= k <= ids.len(),
        sat_filter(r, f, ids.take(k - 1)) is Ok,
        r.eval_spec(f, ids[k - 1]) == Err::<bool, EpistemicError>(e),
    ensures
        sat_filter(r, f, ids) == Err::<Seq<usize>, EpistemicError>(e),
    decreases ids.len() - k,
{
    if k == ids.len() {
        assert(ids.drop_last() =~= ids.take(k - 1));
    } else {
        lemma_sat_filter_err_prefix(r, f, ids, k, e);
    }
}

pub proof fn lemma_sat_filter_err_prefix(
    r: EpistemicLogicReasoner,
    f: EpistemicFormula,
    ids: Seq<usize>,
    k: int,
    e: EpistemicError,
)
    requires
        1 <= k <= ids.len(),
        sat_filter(r, f, ids.take(k - 1)) is Ok,
        r.eval_spec(f, ids[k - 1]) == Err::<bool, EpistemicError>(e),
    ensures
        sat_filter(r, f, ids) == Err::<Seq<usize>, EpistemicError>(e),
    decreases ids.len(),
{
    if ids.len() == k {
        assert(ids.drop_last() =~= ids.take(k - 1));
    } else {
        let pre = ids.drop_last();
        assert(pre.take(k - 1) =~= ids.take(k - 1));
        assert(pre[k - 1] == ids[k - 1]);
        lemma_sat_filter_err_prefix(r, f, pre, k, e);
    }
}

// ─── Relation closures ───────────────────────────────────────────────────────

/// The reflexive edges (a, w, w) of every registered agent name and world identifier.
pub open spec fn reflexive_edges(agents: Seq<AgentId>, ws: Seq<PossibleWorld>) -> Set<EdgeView> {
    Set::new(|e: EdgeView| e.1 == e.2 && agent_listed(agents, e.0) && has_world(ws, e.1))
}

/// The edges of a relation list, as triples, in list order.
pub open spec fn edge_views(rels: Seq<AccessibilityRelation>) -> Seq<EdgeView> {
    rels.map_values(|r: AccessibilityRelation| edge_view(r))
}

/// The ids of a list of worlds, in order.
pub open spec fn world_id_list(ws: Seq<PossibleWorld>) -> Seq<usize> {
    ws.map_values(|w: PossibleWorld| w.id.0)
}

/// `es` after appending the self-loop `(a, w, w)` for each world `w` of
/// `ids` in order, each one only when it is not already present.
pub open spec fn add_self_loops(es: Seq<EdgeView>, a: Seq<char>, ids: Seq<usize>) -> Seq<EdgeView>
    decreases ids.len(),
{
    if ids.len() == 0 {
        es
    } else {
        let e1 = add_self_loops(es, a, ids.drop_last());
        let x = (a, ids.last(), ids.last());
        if e1.contains(x) {
            e1
        } else {
            e1.push(x)
        }
    }
}

/// `es` after adding the self-loops of each agent of `agents` in order, every
/// agent's loops in world order.
pub open spec fn reflexive_pass(es: Seq<EdgeView>, agents: Seq<AgentId>, ids: Seq<usize>) -> Seq<EdgeView>
    decreases agents.len(),
{
    if agents.len() == 0 {
        es
    } else {
        add_self_loops(reflexive_pass(es, agents.drop_last(), ids), agents.last().0@, ids)
    }
}

proof fn lemma_edge_views_contains(rels: Seq<AccessibilityRelation>, t: EdgeView)
    ensures
        edge_set(rels).contains(t) <==> edge_views(rels).contains(t),
{
    if edge_set(rels).contains(t) {
        let i = choose|i: int| 0 <= i < rels.len() && #[trigger] edge_view(rels[i]) == t;
        assert(edge_views(rels)[i] == t);
    }
    if edge_views(rels).contains(t) {
        let i = choose|i: int| 0 <= i < edge_views(rels).len() && edge_views(rels)[i] == t;
        assert(edge_view(rels[i]) == t);
    }
}

/// Every edge from index `n` on differs from each edge before it.
pub open spec fn fresh_from(rels: Seq<AccessibilityRelation>, n: int) -> bool {
    forall|k: int, l: int|
        #![trigger rels[k], rels[l]]
        0 <= k < l < rels.len() && n <= l ==> edge_view(rels[k]) != edge_view(rels[l])
}

/// A set of edges closed under composition of edges of the same agent.
pub open spec fn transitive_edges(s: Set<EdgeView>) -> bool {
    forall|a: Seq<char>, u: usize, v: usize, w: usize|
        #![trigger s.contains((a, u, v)), s.contains((a, v, w))]
        s.contains((a, u, v)) && s.contains((a, v, w)) ==> s.contains((a, u, w))
}

pub proof fn lemma_edge_set_push(rels: Seq<AccessibilityRelation>, r: AccessibilityRelation)
    ensures
        edge_set(rels.push(r)) =~= edge_set(rels).insert(edge_view(r)),
{
    let n = rels.push(r);
    assert forall|t: EdgeView| edge_set(n).contains(t) implies edge_set(rels).insert(edge_view(r)).contains(t) by {
        let i = choose|i: int| 0 <= i < n.len() && edge_view(n[i]) == t;
        if i < rels.len() {
            assert(n[i] == rels[i]);
        }
    }
    assert forall|t: EdgeView| edge_set(rels).insert(edge_view(r)).contains(t) implies edge_set(n).contains(t) by {
        if t == edge_view(r) {
            assert(n[rels.len() as int] == r);
        } else {
            let i = choose|i: int| 0 <= i < rels.len() && edge_view(rels[i]) == t;
            assert(n[i] == rels[i]);
        }
    }
}

pub proof fn lemma_edge_set_append(a: Seq<AccessibilityRelation>, b: Seq<AccessibilityRelation>)
    ensures
        edge_set(a + b) =~= edge_set(a).union(edge_set(b)),
{
    let n = a + b;
    assert forall|t: EdgeView| edge_set(n).contains(t) implies edge_set(a).union(edge_set(b)).contains(t) by {
        let i = choose|i: int| 0 <= i < n.len() && edge_view(n[i]) == t;
        if i < a.len() {
            assert(n[i] == a[i]);
        } else {
            assert(n[i] == b[i - a.len()]);
        }
    }
    assert forall|t: EdgeView| edge_set(a).union(edge_set(b)).contains(t) implies edge_set(n).contains(t) by {
        if edge_set(a).contains(t) {
            let i = choose|i: int| 0 <= i < a.len() && edge_view(a[i]) == t;
            assert(n[i] == a[i]);
        } else {
            let i = choose|i: int| 0 <= i < b.len() && edge_view(b[i]) == t;
            assert(n[i + a.len()] == b[i]);
        }
    }
}

impl EpistemicLogicReasoner {
    /// Add the self-loop (a, w → w) for every registered agent a and world w,
    /// agent by agent, skipping edges already present.
    pub fn make_reflexive(&mut self)
        ensures
            final(self).kripke().worlds@ == old(self).kripke().worlds@,
            final(self).kripke().actual_world == old(self).kripke().actual_world,
            final(self).agent_list() == old(self).agent_list(),
            final(self).depth_bound() == old(self).depth_bound(),
            final(self).next_id() == old(self).next_id(),
            old(self).kripke().relations@.len() <= final(self).kripke().relations@.len(),
            final(self).kripke().relations@.subrange(0, old(self).kripke().relations@.len() as int)
                == old(self).kripke().relations@,
            fresh_from(final(self).kripke().relations@, old(self).kripke().relations@.len() as int),
            forall|l: int|
                old(self).kripke().relations@.len() <= l < final(self).kripke().relations@.len()
                    ==> reflexive_edges(old(self).agent_list(), old(self).kripke().worlds@).contains(
                    edge_view(#[trigger] final(self).kripke().relations@[l]),
                ),
            reflexive_edges(old(self).agent_list(), old(self).kripke().worlds@).subset_of(
                edge_set(final(self).kripke().relations@),
            ),
            edge_views(final(self).kripke().relations@) == reflexive_pass(
                edge_views(old(self).kripke().relations@),
                old(self).agent_list(),
                world_id_list(old(self).kripke().worlds@),
            ),
    {
        let ghost ag0 = self.agents@;
        let ghost ids = world_id_list(self.model.worlds@);
        let ghost ws0 = self.model.worlds@;
        let ghost rels0 = self.model.relations@;
        let ghost n0 = rels0.len() as int;
        let ghost refl = reflexive_edges(ag0, ws0);
        let mut i: usize = 0;
        assert(self.model.relations@.subrange(0, n0) =~= rels0);
        while i < self.agents.len()
            invariant
                self.agents@ == ag0,
                self.model.worlds@ == ws0,
                self.model.actual_world == old(self).model.actual_world,
                self.max_depth == old(self).max_depth,
                self.next_world_id == old(self).next_world_id,
                refl == reflexive_edges(ag0, ws0),
                n0 == rels0.len(),
                i <= ag0.len(),
                n0 <= self.model.relations@.len(),
                self.model.relations@.subrange(0, n0) == rels0,
                fresh_from(self.model.relations@, n0),
                forall|l: int|
                    n0 <= l < self.model.relations@.len() ==> refl.contains(
                        edge_view(#[trigger] self.model.relations@[l]),
                    ),
                forall|k: int, w: int|
                    0 <= k < i && 0 <= w < ws0.len() ==> edge_set(self.model.relations@).contains(
                        (#[trigger] ag0[k].0@, (#[trigger] ws0[w]).id.0, ws0[w].id.0),
                    ),
                ids == world_id_list(ws0),
                edge_views(self.model.relations@) == reflexive_pass(edge_views(rels0), ag0.take(i as int), ids),
            decreases ag0.len() - i,
        {
            let ghost start = edge_views(self.model.relations@);
            proof {
                assert(add_self_loops(start, ag0[i as int].0@, ids.take(0)) == start);
            }
            let mut j: usize = 0;
            while j < self.model.worlds.len()
                invariant
                    self.agents@ == ag0,
                    self.model.worlds@ == ws0,
                    self.model.actual_world == old(self).model.actual_world,
                    self.max_depth == old(self).max_depth,
                    self.next_world_id == old(self).next_world_id,
                    refl == reflexive_edges(ag0, ws0),
                    n0 == rels0.len(),
                    i < ag0.len(),
                    j <= ws0.len(),
                    n0 <= self.model.relations@.len(),
                    self.model.relations@.subrange(0, n0) == rels0,
                    fresh_from(self.model.relations@, n0),
                    forall|l: int|
                        n0 <= l < self.model.relations@.len() ==> refl.contains(
                            edge_view(#[trigger] self.model.relations@[l]),
                        ),
                    forall|k: int, w: int|
                        0 <= k < i && 0 <= w < ws0.len() ==> edge_set(self.model.relations@).contains(
                            (#[trigger] ag0[k].0@, (#[trigger] ws0[w]).id.0, ws0[w].id.0),
                        ),
                    forall|w: int|
                        0 <= w < j ==> edge_set(self.model.relations@).contains(
                            (ag0[i as int].0@, (#[trigger] ws0[w]).id.0, ws0[w].id.0),
                        ),
                    ids == world_id_list(ws0),
                    start == reflexive_pass(edge_views(rels0), ag0.take(i as int), ids),
                    edge_views(self.model.relations@) == add_self_loops(start, ag0[i as int].0@, ids.take(j as int)),
                decreases ws0.len() - j,
            {
                let ghost pre = edge_views(self.model.relations@);
                proof {
                    assert(ids.take(j + 1).drop_last() =~= ids.take(j as int));
                    assert(ids.take(j + 1).last() == ws0[j as int].id.0);
                    lemma_edge_views_contains(self.model.relations@, (ag0[i as int].0@, ws0[j as int].id.0, ws0[j as int].id.0));
                }
                let wid = self.model.worlds[j].id;
                if !contains_edge(&self.model.relations, &self.agents[i].0, wid.0, wid.0) {
                    let a = AgentId(self.agents[i].0.clone());
                    let rel = AccessibilityRelation { agent: a, from: wid, to: wid };
                    let ghost before = self.model.relations@;
                    self.model.relations.push(rel);
                    proof {
                        assert(edge_views(self.model.relations@) =~= pre.push(edge_view(rel)));
                        lemma_edge_set_push(before, rel);
                        let after = self.model.relations@;
                        assert(after == before.push(rel));
                        assert(after.subrange(0, n0) =~= before.subrange(0, n0));
                        assert forall|k: int, l: int|
                            #![trigger after[k], after[l]]
                            0 <= k < l < after.len() && n0 <= l implies edge_view(after[k]) != edge_view(after[l]) by {
                            if l == after.len() - 1 {
                                assert(after[k] == before[k]);
                                assert(edge_set(before).contains(edge_view(before[k])));
                            } else {
                                assert(after[k] == before[k] && after[l] == before[l]);
                            }
                        }
                        assert(agent_listed(ag0, ag0[i as int].0@));
                        assert(has_world(ws0, ws0[j as int].id.0));
                        assert(refl.contains(edge_view(rel)));
                        assert forall|l: int| n0 <= l < after.len() implies refl.contains(
                            edge_view(#[trigger] after[l]),
                        ) by {
                            if l < before.len() {
                                assert(after[l] == before[l]);
                            }
                        }
                    }
                }
                j += 1;
            }
            proof {
                assert(ids.take(j as int) =~= ids);
                assert(ag0.take(i + 1).drop_last() =~= ag0.take(i as int));
                assert(ag0.take(i + 1).last() == ag0[i as int]);
            }
            i += 1;
        }
        proof {
            assert(ag0.take(i as int) =~= ag0);
            let fin = self.model.relations@;
            assert forall|e: EdgeView| refl.contains(e) implies edge_set(fin).contains(e) by {
                let k = choose|k: int| 0 <= k < ag0.len() && #[trigger] ag0[k].0@ == e.0;
                let w = choose|w: int| 0 <= w < ws0.len() && #[trigger] ws0[w].id.0 == e.1;
                assert(edge_set(fin).contains((ag0[k].0@, ws0[w].id.0, ws0[w].id.0)));
            }
        }
    }
}

/// The agent names used by a list of edges.
pub open spec fn edge_agents(rels: Seq<AccessibilityRelation>) -> Set<Seq<char>> {
    rels.map_values(|r: AccessibilityRelation| r.agent.0@).to_set()
}

/// The source worlds used by a list of edges.
pub open spec fn edge_sources(rels: Seq<AccessibilityRelation>) -> Set<usize> {
    rels.map_values(|r: AccessibilityRelation| r.from.0).to_set()
}

/// The target worlds used by a list of edges.
pub open spec fn edge_targets(rels: Seq<AccessibilityRelation>) -> Set<usize> {
    rels.map_values(|r: AccessibilityRelation| r.to.0).to_set()
}

/// All edges with an agent name from `a`, a source from `f` and a target from `t`.
pub open spec fn edge_universe(a: Set<Seq<char>>, f: Set<usize>, t: Set<usize>) -> Set<EdgeView> {
    Set::new(|e: EdgeView| a.contains(e.0) && f.contains(e.1) && t.contains(e.2))
}

/// Some two composable edges of the list compose to `e`.
pub open spec fn derivable(rels: Seq<AccessibilityRelation>, e: EdgeView) -> bool {
    exists|k1: int, k2: int|
        0 <= k1 < rels.len() && 0 <= k2 < rels.len() && composable(rels, k1, k2) && e
            == #[trigger] composed(rels, k1, k2)
}

/// Edge `k2` continues edge `k1`: same agent, and `k2` leaves where `k1` arrives.
pub open spec fn composable(rels: Seq<AccessibilityRelation>, k1: int, k2: int) -> bool {
    rels[k1].agent.0@ == rels[k2].agent.0@ && rels[k1].to.0 == rels[k2].from.0
}

/// The edge that composes edge `k1` with edge `k2`.
pub open spec fn composed(rels: Seq<AccessibilityRelation>, k1: int, k2: int) -> EdgeView {
    (rels[k1].agent.0@, rels[k1].from.0, rels[k2].to.0)
}

pub proof fn lemma_universe_finite(a: Set<Seq<char>>, f: Set<usize>, t: Set<usize>)
    requires
        a.finite(),
        f.finite(),
        t.finite(),
    ensures
        edge_universe(a, f, t).finite(),
{
    let mid = |x: Seq<char>| f.map(|u: usize| t.map(|v: usize| (x, u, v))).flatten();
    assert forall|x: Seq<char>| #[trigger] a.contains(x) implies mid(x).finite() by {
        let fm = f.map(|u: usize| t.map(|v: usize| (x, u, v)));
        f.lemma_map_finite(|u: usize| t.map(|v: usize| (x, u, v)));
        assert forall|s: Set<EdgeView>| fm.contains(s) implies #[trigger] s.finite() by {
            let u = choose|u: usize| f.contains(u) && t.map(|v: usize| (x, u, v)) == s;
            t.lemma_map_finite(|v: usize| (x, u, v));
        }
        fm.lemma_flatten_finite();
    }
    let am = a.map(mid);
    a.lemma_map_finite(mid);
    assert forall|s: Set<EdgeView>| am.contains(s) implies #[trigger] s.finite() by {
        let x = choose|x: Seq<char>| a.contains(x) && mid(x) == s;
    }
    am.lemma_flatten_finite();
    let big = am.flatten();
    assert forall|e: EdgeView| edge_universe(a, f, t).contains(e) implies big.contains(e) by {
        let s1 = t.map(|v: usize| (e.0, e.1, v));
        assert(s1.contains(e));
        let fm = f.map(|u: usize| t.map(|v: usize| (e.0, e.1, v)));
        assert(f.map(|u: usize| t.map(|v: usize| (e.0, u, v))).contains(s1));
        assert(mid(e.0).contains(e));
        assert(am.contains(mid(e.0)));
    }
    vstd::set_lib::lemma_set_subset_finite(big, edge_universe(a, f, t));
}

impl EpistemicLogicReasoner {
    /// Close every agent's relation under composition: repeatedly add (a, u → w)
    /// for edges (a, u → v) and (a, v → w) until no edge is missing.
    pub fn make_transitive(&mut self)
        ensures
            final(self).kripke().worlds@ == old(self).kripke().worlds@,
            final(self).kripke().actual_world == old(self).kripke().actual_world,
            final(self).agent_list() == old(self).agent_list(),
            final(self).depth_bound() == old(self).depth_bound(),
            final(self).next_id() == old(self).next_id(),
            old(self).kripke().relations@.len() <= final(self).kripke().relations@.len(),
            final(self).kripke().relations@.subrange(0, old(self).kripke().relations@.len() as int)
                == old(self).kripke().relations@,
            fresh_from(final(self).kripke().relations@, old(self).kripke().relations@.len() as int),
            transitive_edges(edge_set(final(self).kripke().relations@)),
            forall|s: Set<EdgeView>|
                edge_set(old(self).kripke().relations@).subset_of(s) && transitive_edges(s)
                    ==> #[trigger] edge_set(final(self).kripke().relations@).subset_of(s),
    {
        broadcast use vstd::seq_lib::seq_to_set_is_finite;

        let ghost rels0 = self.model.relations@;
        let ghost n0 = rels0.len() as int;
        let ghost univ = edge_universe(edge_agents(rels0), edge_sources(rels0), edge_targets(rels0));
        proof {
            lemma_universe_finite(edge_agents(rels0), edge_sources(rels0), edge_targets(rels0));
            assert(self.model.relations@.subrange(0, n0) =~= rels0);
            assert forall|e: EdgeView| edge_set(rels0).contains(e) implies univ.contains(e) by {
                let i = choose|i: int| 0 <= i < rels0.len() && edge_view(rels0[i]) == e;
                let m1 = rels0.map_values(|r: AccessibilityRelation| r.agent.0@);
                let m2 = rels0.map_values(|r: AccessibilityRelation| r.from.0);
                let m3 = rels0.map_values(|r: AccessibilityRelation| r.to.0);
                assert(m1[i] == e.0 && m2[i] == e.1 && m3[i] == e.2);
                assert(m1.contains(e.0) && m2.contains(e.1) && m3.contains(e.2));
            }
        }
        loop
            invariant
                self.agents@ == old(self).agents@,
                self.model.worlds@ == old(self).model.worlds@,
                self.model.actual_world == old(self).model.actual_world,
                self.max_depth == old(self).max_depth,
                self.next_world_id == old(self).next_world_id,
                rels0 == old(self).model.relations@,
                n0 == rels0.len(),
                n0 <= self.model.relations@.len(),
                self.model.relations@.subrange(0, n0) == rels0,
                fresh_from(self.model.relations@, n0),
                univ.finite(),
                univ == edge_universe(edge_agents(rels0), edge_sources(rels0), edge_targets(rels0)),
                edge_set(self.model.relations@).subset_of(univ),
                forall|s: Set<EdgeView>|
                    edge_set(rels0).subset_of(s) && transitive_edges(s)
                        ==> #[trigger] edge_set(self.model.relations@).subset_of(s),
            decreases univ.len() - edge_set(self.model.relations@).len(),
        {
            let ghost cur = self.model.relations@;
            let n = self.model.relations.len();
            let mut new_edges: Vec<AccessibilityRelation> = Vec::new();
            let mut i: usize = 0;
            assert(cur + new_edges@ =~= cur);
            while i < n
                invariant
                    self.model.relations@ == cur,
                    n == cur.len(),
                    i <= n,
                    fresh_from(cur + new_edges@, cur.len() as int),
                    forall|l: int| 0 <= l < new_edges@.len() ==> derivable(cur, edge_view(#[trigger] new_edges@[l])),
                    forall|k1: int, k2: int|
                        0 <= k1 < i && 0 <= k2 < n && #[trigger] composable(cur, k1, k2) ==> (edge_set(
                            cur,
                        ).contains(composed(cur, k1, k2)) || edge_set(new_edges@).contains(
                            composed(cur, k1, k2),
                        )),
                decreases n - i,
            {
                let mut j: usize = 0;
                while j < n
                    invariant
                        self.model.relations@ == cur,
                        n == cur.len(),
                        i < n,
                        j <= n,
                        fresh_from(cur + new_edges@, cur.len() as int),
                        forall|l: int| 0 <= l < new_edges@.len() ==> derivable(cur, edge_view(#[trigger] new_edges@[l])),
                        forall|k1: int, k2: int|
                            0 <= k1 < i && 0 <= k2 < n && #[trigger] composable(cur, k1, k2) ==> (edge_set(
                                cur,
                            ).contains(composed(cur, k1, k2)) || edge_set(new_edges@).contains(
                                composed(cur, k1, k2),
                            )),
                        forall|k2: int|
                            0 <= k2 < j && #[trigger] composable(cur, i as int, k2) ==> (edge_set(
                                cur,
                            ).contains(composed(cur, i as int, k2)) || edge_set(new_edges@).contains(
                                composed(cur, i as int, k2),
                            )),
                    decreases n - j,
                {
                    let r1 = &self.model.relations[i];
                    let r2 = &self.model.relations[j];
                    if r1.agent.0 == r2.agent.0 && r1.to.0 == r2.from.0 {
                        if !contains_edge(&self.model.relations, &r1.agent.0, r1.from.0, r2.to.0)
                            && !contains_edge(&new_edges, &r1.agent.0, r1.from.0, r2.to.0) {
                            let cand = AccessibilityRelation {
                                agent: AgentId(r1.agent.0.clone()),
                                from: r1.from,
                                to: r2.to,
                            };
                            let ghost before = new_edges@;
                            new_edges.push(cand);
                            proof {
                                lemma_edge_set_push(before, cand);
                                assert(edge_view(cand) == composed(cur, i as int, j as int));
                                let all = cur + new_edges@;
                                let all0 = cur + before;
                                assert(all =~= all0.push(cand));
                                lemma_edge_set_append(cur, before);
                                assert forall|k: int, l: int|
                                    #![trigger all[k], all[l]]
                                    0 <= k < l < all.len() && cur.len() <= l implies edge_view(all[k])
                                        != edge_view(all[l]) by {
                                    if l == all.len() - 1 {
                                        assert(all[k] == all0[k]);
                                        assert(edge_set(all0).contains(edge_view(all0[k])));
                                    } else {
                                        assert(all[k] == all0[k] && all[l] == all0[l]);
                                    }
                                }
                                assert(composable(cur, i as int, j as int));
                                assert(derivable(cur, composed(cur, i as int, j as int)));
                                assert forall|l: int| 0 <= l < new_edges@.len() implies derivable(
                                    cur,
                                    edge_view(#[trigger] new_edges@[l]),
                                ) by {
                                    if l < before.len() {
                                        assert(new_edges@[l] == before[l]);
                                    }
                                }
                            }
                        }
                    }
                    j += 1;
                }
                i += 1;
            }
            if new_edges.len() == 0 {
                proof {
                    assert(edge_set(new_edges@) =~= Set::<EdgeView>::empty());
                    assert forall|a: Seq<char>, u: usize, v: usize, w: usize|
                        #![trigger edge_set(cur).contains((a, u, v)), edge_set(cur).contains((a, v, w))]
                        edge_set(cur).contains((a, u, v)) && edge_set(cur).contains((a, v, w))
                            implies edge_set(cur).contains((a, u, w)) by {
                        let k1 = choose|k: int| 0 <= k < cur.len() && edge_view(cur[k]) == (a, u, v);
                        let k2 = choose|k: int| 0 <= k < cur.len() && edge_view(cur[k]) == (a, v, w);
                        assert(composable(cur, k1, k2));
                        assert(composed(cur, k1, k2) == (a, u, w));
                    }
                }
                return;
            }
            let ghost added = new_edges@;
            self.model.relations.append(&mut new_edges);
            proof {
                let after = self.model.relations@;
                assert(after == cur + added);
                lemma_edge_set_append(cur, added);
                assert(after.subrange(0, n0) =~= cur.subrange(0, n0));
                assert forall|k: int, l: int|
                    #![trigger after[k], after[l]]
                    0 <= k < l < after.len() && n0 <= l implies edge_view(after[k]) != edge_view(after[l]) by {
                    if l < cur.len() {
                        assert(after[k] == cur[k] && after[l] == cur[l]);
                    }
                }
                assert forall|e: EdgeView| edge_set(added).contains(e) implies univ.contains(e) by {
                    let l = choose|l: int| 0 <= l < added.len() && edge_view(added[l]) == e;
                    assert(derivable(cur, edge_view(added[l])));
                    let (k1, k2) = choose|k1: int, k2: int|
                        0 <= k1 < cur.len() && 0 <= k2 < cur.len() && composable(cur, k1, k2)
                            && edge_view(added[l]) == #[trigger] composed(cur, k1, k2);
                    assert(edge_set(cur).contains(edge_view(cur[k1])));
                    assert(edge_set(cur).contains(edge_view(cur[k2])));
                    assert(univ.contains(edge_view(cur[k1])));
                    assert(univ.contains(edge_view(cur[k2])));
                }
                assert forall|s: Set<EdgeView>|
                    edge_set(rels0).subset_of(s) && transitive_edges(s) implies #[trigger] edge_set(
                    after,
                ).subset_of(s) by {
                    assert(edge_set(cur).subset_of(s));
                    assert forall|e: EdgeView| edge_set(added).contains(e) implies s.contains(e) by {
                        let l = choose|l: int| 0 <= l < added.len() && edge_view(added[l]) == e;
                        assert(derivable(cur, edge_view(added[l])));
                        let (k1, k2) = choose|k1: int, k2: int|
                            0 <= k1 < cur.len() && 0 <= k2 < cur.len() && composable(cur, k1, k2)
                                && edge_view(added[l]) == #[trigger] composed(cur, k1, k2);
                        assert(edge_set(cur).contains(edge_view(cur[k1])));
                        assert(edge_set(cur).contains(edge_view(cur[k2])));
                        assert(s.contains(edge_view(cur[k1])));
                        assert(s.contains(edge_view(cur[k2])));
                    }
                }
                let e0 = edge_view(added[0]);
                assert(edge_set(added).contains(e0));
                assert(!edge_set(cur).contains(e0)) by {
                    if edge_set(cur).contains(e0) {
                        let k = choose|k: int| 0 <= k < cur.len() && edge_view(cur[k]) == e0;
                        assert(after[k] == cur[k]);
                        assert(after[cur.len() as int] == added[0]);
                    }
                }
                assert(edge_set(after).subset_of(univ));
                vstd::set_lib::lemma_set_subset_finite(univ, edge_set(cur));
                vstd::set_lib::lemma_set_subset_finite(univ, edge_set(after));
                vstd::set_lib::lemma_len_subset(edge_set(cur).insert(e0), edge_set(after));
                vstd::set_lib::lemma_len_subset(edge_set(after), univ);
            }
        }
    }
}

// ─── Frame conditions ────────────────────────────────────────────────────────

/// Every world of `ws` has the self-loop of agent `a`.
pub open spec fn reflexive_for(s: Set<EdgeView>, a: Seq<char>, ws: Seq<PossibleWorld>) -> bool {
    forall|i: int| 0 <= i < ws.len() ==> s.contains((a, (#[trigger] ws[i]).id.0, ws[i].id.0))
}

/// Agent `a`'s edges compose: (u, v) and (v, w) give (u, w).
pub open spec fn transitive_for(s: Set<EdgeView>, a: Seq<char>) -> bool {
    forall|u: usize, v: usize, w: usize|
        #![trigger s.contains((a, u, v)), s.contains((a, v, w))]
        s.contains((a, u, v)) && s.contains((a, v, w)) ==> s.contains((a, u, w))
}

/// Agent `a`'s edges are Euclidean: (u, v) and (u, w) give (v, w).
pub open spec fn euclidean_for(s: Set<EdgeView>, a: Seq<char>) -> bool {
    forall|u: usize, v: usize, w: usize|
        #![trigger s.contains((a, u, v)), s.contains((a, u, w))]
        s.contains((a, u, v)) && s.contains((a, u, w)) ==> s.contains((a, v, w))
}

/// Agent `a`'s edges are symmetric: (u, v) gives (v, u).
pub open spec fn symmetric_for(s: Set<EdgeView>, a: Seq<char>) -> bool {
    forall|u: usize, v: usize| #![trigger s.contains((a, u, v))] s.contains((a, u, v)) ==> s.contains((a, v, u))
}

/// Whether some edge of the list has agent `a`, source `u` and target `v`.
fn has_edge_between(rels: &Vec<AccessibilityRelation>, a: &AgentId, u: usize, v: usize) -> (b: bool)
    ensures
        b == edge_set(rels@).contains((a.0@, u, v)),
{
    contains_edge(rels, &a.0, u, v)
}

impl EpistemicLogicReasoner {
    /// The T axiom (K_i φ → φ) for `agent`: every world has its self-loop.
    pub fn satisfies_t_axiom(&self, agent: &AgentId) -> (b: bool)
        ensures
            b == reflexive_for(edge_set(self.kripke().relations@), agent.0@, self.kripke().worlds@),
    {
        let ghost ws = self.model.worlds@;
        let ghost es = edge_set(self.model.relations@);
        let mut i: usize = 0;
        while i < self.model.worlds.len()
            invariant
                ws == self.model.worlds@,
                es == edge_set(self.model.relations@),
                i <= ws.len(),
                forall|k: int| 0 <= k < i ==> es.contains((agent.0@, (#[trigger] ws[k]).id.0, ws[k].id.0)),
            decreases ws.len() - i,
        {
            let wid = self.model.worlds[i].id;
            let accessible = self.access_ids(agent, wid);
            proof {
                lemma_targets(self.model.relations@, agent.0@, wid.0);
            }
            if !ascending_contains(&accessible, wid.0) {
                return false;
            }
            i += 1;
        }
        true
    }

    /// The 4 axiom (K_i φ → K_i K_i φ) for `agent`: its edges compose.
    pub fn satisfies_4_axiom(&self, agent: &AgentId) -> (b: bool)
        ensures
            b == transitive_for(edge_set(self.kripke().relations@), agent.0@),
    {
        let ghost rels = self.model.relations@;
        let ghost es = edge_set(rels);
        let n = self.model.relations.len();
        let mut i: usize = 0;
        while i < n
            invariant
                rels == self.model.relations@,
                es == edge_set(rels),
                n == rels.len(),
                i <= n,
                forall|k1: int, k2: int|
                    #![trigger rels[k1], rels[k2]]
                    0 <= k1 < i && 0 <= k2 < n && rels[k1].agent.0@ == agent.0@ && rels[k2].agent.0@
                        == agent.0@ && rels[k2].from.0 == rels[k1].to.0 ==> es.contains(
                        (agent.0@, rels[k1].from.0, rels[k2].to.0),
                    ),
            decreases n - i,
        {
            let r1 = &self.model.relations[i];
            if r1.agent.0 == agent.0 {
                let mut j: usize = 0;
                while j < n
                    invariant
                        rels == self.model.relations@,
                        es == edge_set(rels),
                        n == rels.len(),
                        i < n,
                        j <= n,
                        r1 == rels[i as int],
                        r1.agent.0@ == agent.0@,
                        forall|k2: int|
                            #![trigger rels[k2]]
                            0 <= k2 < j && rels[k2].agent.0@ == agent.0@ && rels[k2].from.0 == r1.to.0
                                ==> es.contains((agent.0@, r1.from.0, rels[k2].to.0)),
                    decreases n - j,
                {
                    let r2 = &self.model.relations[j];
                    if r2.agent.0 == agent.0 && r2.from.0 == r1.to.0 {
                        if !has_edge_between(&self.model.relations, agent, r1.from.0, r2.to.0) {
                            proof {
                                assert(es.contains(edge_view(rels[i as int])));
                                assert(es.contains(edge_view(rels[j as int])));
                            }
                            return false;
                        }
                    }
                    j += 1;
                }
            }
            i += 1;
        }
        proof {
            assert forall|u: usize, v: usize, w: usize|
                #![trigger es.contains((agent.0@, u, v)), es.contains((agent.0@, v, w))]
                es.contains((agent.0@, u, v)) && es.contains((agent.0@, v, w)) implies es.contains(
                (agent.0@, u, w),
            ) by {
                let k1 = choose|k: int| 0 <= k < rels.len() && edge_view(rels[k]) == (agent.0@, u, v);
                let k2 = choose|k: int| 0 <= k < rels.len() && edge_view(rels[k]) == (agent.0@, v, w);
                assert(rels[k1].agent.0@ == agent.0@ && rels[k2].agent.0@ == agent.0@);
            }
        }
        true
    }

    /// The 5 axiom (¬K_i φ → K_i ¬K_i φ) for `agent`: its edges are Euclidean.
    pub fn satisfies_5_axiom(&self, agent: &AgentId) -> (b: bool)
        ensures
            b == euclidean_for(edge_set(self.kripke().relations@), agent.0@),
    {
        let ghost rels = self.model.relations@;
        let ghost es = edge_set(rels);
        let n = self.model.relations.len();
        let mut i: usize = 0;
        while i < n
            invariant
                rels == self.model.relations@,
                es == edge_set(rels),
                n == rels.len(),
                i <= n,
                forall|k1: int, k2: int|
                    #![trigger rels[k1], rels[k2]]
                    0 <= k1 < i && 0 <= k2 < n && rels[k1].agent.0@ == agent.0@ && rels[k2].agent.0@
                        == agent.0@ && rels[k2].from.0 == rels[k1].from.0 ==> es.contains(
                        (agent.0@, rels[k1].to.0, rels[k2].to.0),
                    ),
            decreases n - i,
        {
            let r1 = &self.model.relations[i];
            if r1.agent.0 == agent.0 {
                let mut j: usize = 0;
                while j < n
                    invariant
                        rels == self.model.relations@,
                        es == edge_set(rels),
                        n == rels.len(),
                        i < n,
                        j <= n,
                        r1 == rels[i as int],
                        r1.agent.0@ == agent.0@,
                        forall|k2: int|
                            #![trigger rels[k2]]
                            0 <= k2 < j && rels[k2].agent.0@ == agent.0@ && rels[k2].from.0 == r1.from.0
                                ==> es.contains((agent.0@, r1.to.0, rels[k2].to.0)),
                    decreases n - j,
                {
                    let r2 = &self.model.relations[j];
                    if r2.agent.0 == agent.0 && r2.from.0 == r1.from.0 {
                        if !has_edge_between(&self.model.relations, agent, r1.to.0, r2.to.0) {
                            proof {
                                assert(es.contains(edge_view(rels[i as int])));
                                assert(es.contains(edge_view(rels[j as int])));
                            }
                            return false;
                        }
                    }
                    j += 1;
                }
            }
            i += 1;
        }
        proof {
            assert forall|u: usize, v: usize, w: usize|
                #![trigger es.contains((agent.0@, u, v)), es.contains((agent.0@, u, w))]
                es.contains((agent.0@, u, v)) && es.contains((agent.0@, u, w)) implies es.contains(
                (agent.0@, v, w),
            ) by {
                let k1 = choose|k: int| 0 <= k < rels.len() && edge_view(rels[k]) == (agent.0@, u, v);
                let k2 = choose|k: int| 0 <= k < rels.len() && edge_view(rels[k]) == (agent.0@, u, w);
                assert(rels[k1].agent.0@ == agent.0@ && rels[k2].agent.0@ == agent.0@);
            }
        }
        true
    }

    /// The B axiom (φ → K_i M_i φ) for `agent`: its edges are symmetric.
    pub fn satisfies_b_axiom(&self, agent: &AgentId) -> (b: bool)
        ensures
            b == symmetric_for(edge_set(self.kripke().relations@), agent.0@),
    {
        let ghost rels = self.model.relations@;
        let ghost es = edge_set(rels);
        let n = self.model.relations.len();
        let mut i: usize = 0;
        while i < n
            invariant
                rels == self.model.relations@,
                es == edge_set(rels),
                n == rels.len(),
                i <= n,
                forall|k: int|
                    #![trigger rels[k]]
                    0 <= k < i && rels[k].agent.0@ == agent.0@ ==> es.contains(
                        (agent.0@, rels[k].to.0, rels[k].from.0),
                    ),
            decreases n - i,
        {
            let r = &self.model.relations[i];
            if r.agent.0 == agent.0 {
                if !has_edge_between(&self.model.relations, agent, r.to.0, r.from.0) {
                    proof {
                        assert(es.contains(edge_view(rels[i as int])));
                    }
                    return false;
                }
            }
            i += 1;
        }
        proof {
            assert forall|u: usize, v: usize| #![trigger es.contains((agent.0@, u, v))] es.contains(
                (agent.0@, u, v),
            ) implies es.contains((agent.0@, v, u)) by {
                let k = choose|k: int| 0 <= k < rels.len() && edge_view(rels[k]) == (agent.0@, u, v);
                assert(rels[k].agent.0@ == agent.0@);
            }
        }
        true
    }
}

// ─── Common-knowledge fixed point and partitions ─────────────────────────────

/// The sequence has no repeated element.
pub open spec fn distinct_ids(q: Seq<usize>) -> bool {
    forall|i: int, j: int| 0 <= i < j < q.len() ==> q[i] != q[j]
}

/// For each agent of a reasoner, the worlds it accesses from one world.
#[derive(Debug, Clone)]
pub struct AgentWorlds {
    /// (agent, accessible worlds) pairs, one per registered agent.
    pub entries: Vec<(AgentId, Vec<WorldId>)>,
}

impl AgentWorlds {
    /// The worlds recorded for the first entry whose agent has `agent`'s name.
    pub fn get(&self, agent: &AgentId) -> (res: Option<&Vec<WorldId>>)
        ensures
            match res {
                Some(v) => exists|k: int|
                    0 <= k < self.entries@.len() && #[trigger] self.entries@[k].0.0@ == agent.0@
                        && v == &self.entries@[k].1,
                None => forall|k: int|
                    0 <= k < self.entries@.len() ==> (#[trigger] self.entries@[k]).0.0@ != agent.0@,
            },
    {
        let mut i: usize = 0;
        while i < self.entries.len()
            invariant
                i <= self.entries@.len(),
                forall|k: int| 0 <= k < i ==> (#[trigger] self.entries@[k]).0.0@ != agent.0@,
            decreases self.entries@.len() - i,
        {
            if self.entries[i].0.0 == agent.0 {
                return Some(&self.entries[i].1);
            }
            i += 1;
        }
        None
    }
}

impl EpistemicLogicReasoner {
    /// The worlds of `s` from which no agent reaches outside `s` in one step.
    pub open spec fn ck_step(&self, s: Set<usize>) -> Set<usize> {
        s.filter(
            |w: usize|
                forall|k: int, j: int|
                    0 <= k < self.agent_list().len() && 0 <= j < self.access(
                        self.agent_list()[k].0@,
                        w,
                    ).len() ==> s.contains(#[trigger] self.access(self.agent_list()[k].0@, w)[j]),
        )
    }

    /// At most `k` rounds of `ck_step` from `s`, stopping at a fixed point.
    pub open spec fn ck_iter(&self, s: Set<usize>, k: nat) -> Result<Set<usize>, EpistemicError>
        decreases k,
    {
        if k == 0 {
            Err(EpistemicError::MaxDepthExceeded)
        } else if self.ck_step(s) == s {
            Ok(s)
        } else {
            self.ck_iter(self.ck_step(s), (k - 1) as nat)
        }
    }

    /// The stable set of worlds for common knowledge of `phi`.
    pub open spec fn ck_worlds_spec(&self, phi: EpistemicFormula) -> Result<Set<usize>, EpistemicError> {
        if self.kripke().worlds@.len() == 0 {
            Err(EpistemicError::EmptyModel)
        } else {
            match sat_filter(*self, phi, self.all_world_ids()) {
                Err(e) => Err(e),
                Ok(q) => self.ck_iter(q.to_set(), self.depth_bound() as nat),
            }
        }
    }

    /// Whether every world `agent` accesses from `w` is in `cand`.
    fn stays_within(&self, agent: &AgentId, w: usize, cand: &Vec<usize>) -> (b: bool)
        ensures
            b == forall|j: int|
                0 <= j < self.access(agent.0@, w).len() ==> cand@.contains(
                    #[trigger] self.access(agent.0@, w)[j],
                ),
    {
        let acc = self.access_ids(agent, WorldId(w));
        let mut j: usize = 0;
        while j < acc.len()
            invariant
                acc@ == self.access(agent.0@, w),
                j <= acc@.len(),
                forall|l: int| 0 <= l < j ==> cand@.contains(#[trigger] acc@[l]),
            decreases acc@.len() - j,
        {
            if !ascending_contains(cand, acc[j]) {
                return false;
            }
            j += 1;
        }
        true
    }

    /// Whether no agent reaches outside `cand` in one step from `w`.
    fn closed_at(&self, w: usize, cand: &Vec<usize>) -> (b: bool)
        ensures
            b == forall|k: int, j: int|
                0 <= k < self.agent_list().len() && 0 <= j < self.access(self.agent_list()[k].0@, w).len()
                    ==> cand@.contains(#[trigger] self.access(self.agent_list()[k].0@, w)[j]),
    {
        let mut k: usize = 0;
        while k < self.agents.len()
            invariant
                k <= self.agents@.len(),
                forall|k2: int, j: int|
                    0 <= k2 < k && 0 <= j < self.access(self.agents@[k2].0@, w).len() ==> cand@.contains(
                        #[trigger] self.access(self.agents@[k2].0@, w)[j],
                    ),
            decreases self.agents@.len() - k,
        {
            if !self.stays_within(&self.agents[k], w, cand) {
                proof {
                    let a = self.agents@[k as int].0@;
                    let j = choose|j: int|
                        0 <= j < self.access(a, w).len() && !cand@.contains(#[trigger] self.access(a, w)[j]);
                    assert(self.agent_list()[k as int].0@ == a);
                    assert(!cand@.contains(self.access(self.agent_list()[k as int].0@, w)[j]));
                }
                return false;
            }
            k += 1;
        }
        true
    }

    /// The largest set of worlds satisfying `phi` from which no agent reaches
    /// outside the set, computed by shrinking the worlds satisfying `phi` for at
    /// most `max_depth` rounds; `MaxDepthExceeded` if no round leaves it unchanged.
    pub fn common_knowledge_worlds(&self, phi: &EpistemicFormula) -> (res: Result<
        Vec<WorldId>,
        EpistemicError,
    >)
        ensures
            match (res, self.ck_worlds_spec(*phi)) {
                (Ok(v), Ok(st)) => lists(world_ids(v@), st) && distinct_ids(world_ids(v@)),
                (Err(e1), Err(e2)) => e1 == e2,
                _ => false,
            },
    {
        if self.model.worlds.len() == 0 {
            return Err(EpistemicError::EmptyModel);
        }
        let sat = match self.satisfying_worlds(phi) {
            Err(e) => {
                return Err(e);
            },
            Ok(v) => v,
        };
        // Deduplicate the satisfying worlds into the initial candidate set.
        let mut candidate: Vec<usize> = Vec::new();
        let mut i: usize = 0;
        while i < sat.len()
            invariant
                i <= sat@.len(),
                distinct_ids(candidate@),
                lists(candidate@, world_ids(sat@).take(i as int).to_set()),
            decreases sat@.len() - i,
        {
            let ghost before = candidate@;
            let ghost x = sat@[i as int].0;
            proof {
                assert(world_ids(sat@).take(i + 1) =~= world_ids(sat@).take(i as int).push(x));
            }
            if !ascending_contains(&candidate, sat[i].0) {
                candidate.push(sat[i].0);
                proof {
                    assert forall|a: int, b: int| 0 <= a < b < candidate@.len() implies candidate@[a] != candidate@[b] by {
                        if b == candidate@.len() - 1 {
                            assert(before.contains(before[a]));
                        } else {
                            assert(candidate@[a] == before[a] && candidate@[b] == before[b]);
                        }
                    }
                    assert forall|v: usize| candidate@.contains(v) implies before.contains(v) || v == x by {
                        let k = choose|k: int| 0 <= k < candidate@.len() && candidate@[k] == v;
                        if k < before.len() {
                            assert(before[k] == v);
                        }
                    }
                    assert forall|v: usize| before.contains(v) implies candidate@.contains(v) by {
                        let k = choose|k: int| 0 <= k < before.len() && before[k] == v;
                        assert(candidate@[k] == v);
                    }
                    assert(candidate@[candidate@.len() - 1] == x);
                }
            }
            proof {
                let olds = world_ids(sat@).take(i as int);
                let news = world_ids(sat@).take(i + 1);
                assert forall|v: usize| candidate@.contains(v) implies news.to_set().contains(v) by {
                    if v == x {
                        assert(news[i as int] == x);
                    } else {
                        assert(before.contains(v));
                        assert(olds.to_set().contains(v));
                        let k = choose|k: int| 0 <= k < olds.len() && olds[k] == v;
                        assert(news[k] == v);
                    }
                }
                assert forall|v: usize| news.to_set().contains(v) implies candidate@.contains(v) by {
                    let k = choose|k: int| 0 <= k < news.len() && news[k] == v;
                    if k < i {
                        assert(olds[k] == v);
                        assert(olds.to_set().contains(v));
                    }
                }
            }
            i += 1;
        }
        proof {
            assert(world_ids(sat@).take(sat@.len() as int) =~= world_ids(sat@));
            assert(candidate@.to_set() =~= world_ids(sat@).to_set());
        }
        let mut round: usize = 0;
        while round < self.max_depth
            invariant
                round <= self.max_depth,
                distinct_ids(candidate@),
                self.kripke().worlds@.len() > 0,
                sat_filter(*self, *phi, self.all_world_ids()) is Ok,
                self.ck_worlds_spec(*phi) == self.ck_iter(
                    candidate@.to_set(),
                    (self.max_depth - round) as nat,
                ),
            decreases self.max_depth - round,
        {
            let ghost cset = candidate@.to_set();
            let mut next: Vec<usize> = Vec::new();
            let mut changed = false;
            let mut j: usize = 0;
            while j < candidate.len()
                invariant
                    j <= candidate@.len(),
                    cset == candidate@.to_set(),
                    distinct_ids(candidate@),
                    distinct_ids(next@),
                    forall|v: usize| next@.contains(v) ==> candidate@.take(j as int).contains(v) && self.ck_step(cset).contains(v),
                    forall|k: int| 0 <= k < j && self.ck_step(cset).contains(#[trigger] candidate@[k]) ==> next@.contains(candidate@[k]),
                    changed <==> exists|k: int| 0 <= k < j && !self.ck_step(cset).contains(#[trigger] candidate@[k]),
                decreases candidate@.len() - j,
            {
                let w = candidate[j];
                proof {
                    assert(cset.contains(w));
                }
                if self.closed_at(w, &candidate) {
                    let ghost before = next@;
                    proof {
                        assert(self.ck_step(cset).contains(w));
                        assert(!before.contains(w)) by {
                            if before.contains(w) {
                                let k = choose|k: int| 0 <= k < j && candidate@.take(j as int)[k] == w;
                                assert(candidate@[k] == candidate@[j as int]);
                            }
                        }
                    }
                    next.push(w);
                    proof {
                        assert forall|a: int, b: int| 0 <= a < b < next@.len() implies next@[a] != next@[b] by {
                            if b == next@.len() - 1 {
                                assert(before.contains(before[a]));
                            } else {
                                assert(next@[a] == before[a] && next@[b] == before[b]);
                            }
                        }
                        assert forall|v: usize| next@.contains(v) implies candidate@.take(j + 1).contains(v)
                            && self.ck_step(cset).contains(v) by {
                            let k = choose|k: int| 0 <= k < next@.len() && next@[k] == v;
                            if k < before.len() {
                                assert(before[k] == v);
                                assert(before.contains(v));
                                let m = choose|m: int| 0 <= m < j && candidate@.take(j as int)[m] == v;
                                assert(candidate@.take(j + 1)[m] == v);
                            } else {
                                assert(candidate@.take(j + 1)[j as int] == v);
                            }
                        }
                        assert forall|k: int| 0 <= k < j + 1 && self.ck_step(cset).contains(#[trigger] candidate@[k])
                            implies next@.contains(candidate@[k]) by {
                            if k < j {
                                let m = choose|m: int| 0 <= m < before.len() && before[m] == candidate@[k];
                                assert(next@[m] == candidate@[k]);
                            } else {
                                assert(next@[next@.len() - 1] == w);
                            }
                        }
                    }
                } else {
                    proof {
                        assert(!self.ck_step(cset).contains(w));
                        assert forall|v: usize| next@.contains(v) implies candidate@.take(j + 1).contains(v) by {
                            let m = choose|m: int| 0 <= m < j && candidate@.take(j as int)[m] == v;
                            assert(candidate@.take(j + 1)[m] == v);
                        }
                    }
                    changed = true;
                }
                j += 1;
            }
            proof {
                assert(candidate@.take(candidate@.len() as int) =~= candidate@);
                let st = self.ck_step(cset);
                if !changed {
                    assert(st =~= cset);
                } else {
                    assert(st != cset);
                    assert forall|v: usize| #[trigger] next@.to_set().contains(v) <==> st.contains(v) by {
                        if st.contains(v) {
                            let k = choose|k: int| 0 <= k < candidate@.len() && candidate@[k] == v;
                        }
                    }
                    assert(next@.to_set() =~= st);
                }
            }
            if !changed {
                proof {
                    assert forall|v: usize| world_ids(Seq::<WorldId>::empty()).contains(v) ==> false by {}
                }
                let mut out: Vec<WorldId> = Vec::new();
                let mut k: usize = 0;
                while k < candidate.len()
                    invariant
                        k <= candidate@.len(),
                        world_ids(out@) == candidate@.take(k as int),
                    decreases candidate@.len() - k,
                {
                    let ghost before = out@;
                    out.push(WorldId(candidate[k]));
                    assert(world_ids(out@) =~= world_ids(before).push(candidate@[k as int]));
                    assert(world_ids(out@) =~= candidate@.take(k + 1));
                    k += 1;
                }
                proof {
                    assert(candidate@.take(k as int) =~= candidate@);
                    assert(self.ck_iter(cset, (self.max_depth - round) as nat) == Ok::<Set<usize>, EpistemicError>(cset));
                }
                return Ok(out);
            }
            candidate = next;
            round += 1;
        }
        Err(EpistemicError::MaxDepthExceeded)
    }

    /// For each registered agent, the worlds it accesses from `world`.
    pub fn epistemic_partition(&self, world: WorldId) -> (res: Result<AgentWorlds, EpistemicError>)
        ensures
            !self.world_known(world.0) ==> res == Err::<AgentWorlds, EpistemicError>(
                EpistemicError::WorldNotFound(world.0),
            ),
            self.world_known(world.0) ==> (res matches Ok(p) && p.entries@.len() == self.agent_list().len()
                && forall|k: int|
                0 <= k < p.entries@.len() ==> (#[trigger] p.entries@[k]).0 == self.agent_list()[k]
                    && world_ids(p.entries@[k].1@) == self.access(self.agent_list()[k].0@, world.0)),
    {
        if !self.model.world_exists(world) {
            return Err(EpistemicError::WorldNotFound(world.0));
        }
        let mut entries: Vec<(AgentId, Vec<WorldId>)> = Vec::new();
        let mut k: usize = 0;
        while k < self.agents.len()
            invariant
                k <= self.agents@.len(),
                entries@.len() == k,
                forall|m: int|
                    0 <= m < k ==> (#[trigger] entries@[m]).0 == self.agents@[m] && world_ids(entries@[m].1@)
                        == self.access(self.agents@[m].0@, world.0),
            decreases self.agents@.len() - k,
        {
            let reachable = self.model.worlds_accessible_from(&self.agents[k], world);
            entries.push((AgentId(self.agents[k].0.clone()), reachable));
            k += 1;
        }
        Ok(AgentWorlds { entries })
    }
}

// ─── Knowledge sets ──────────────────────────────────────────────────────────

/// Strict lexicographic order on character sequences, comparing code points;
/// for valid UTF-8 this is the byte order `String` sorts by.
pub open spec fn char_lt(a: Seq<char>, b: Seq<char>) -> bool
    decreases a.len(),
{
    if a.len() == 0 {
        b.len() > 0
    } else if b.len() == 0 {
        false
    } else if a[0] != b[0] {
        (a[0] as int) < (b[0] as int)
    } else {
        char_lt(a.drop_first(), b.drop_first())
    }
}

/// Strings in strictly increasing order.
pub open spec fn sorted_strings(q: Seq<String>) -> bool {
    forall|i: int, j: int| 0 <= i < j < q.len() ==> char_lt(q[i]@, q[j]@)
}

/// The contents of a list of strings.
pub open spec fn string_views(q: Seq<String>) -> Set<Seq<char>> {
    Set::new(|p: Seq<char>| has_atom(q, p))
}

pub proof fn lemma_char_lt_order(a: Seq<char>, b: Seq<char>, c: Seq<char>)
    ensures
        !char_lt(a, a),
        a != b ==> (char_lt(a, b) || char_lt(b, a)),
        char_lt(a, b) ==> !char_lt(b, a),
        char_lt(a, b) && char_lt(b, c) ==> char_lt(a, c),
    decreases a.len(),
{
    if a.len() > 0 {
        if b.len() > 0 && c.len() > 0 {
            lemma_char_lt_order(a.drop_first(), b.drop_first(), c.drop_first());
        } else if b.len() > 0 {
            lemma_char_lt_order(a.drop_first(), b.drop_first(), b.drop_first());
        } else {
            lemma_char_lt_order(a.drop_first(), a.drop_first(), a.drop_first());
        }
        if a != b && b.len() > 0 && a[0] == b[0] {
            assert(a.drop_first() != b.drop_first()) by {
                if a.drop_first() == b.drop_first() {
                    assert(a =~= seq![a[0]] + a.drop_first());
                    assert(b =~= seq![b[0]] + b.drop_first());
                }
            }
        }
    } else {
        if b.len() == 0 {
            assert(a =~= b);
        }
    }
}

/// Whether `a` sorts strictly before `b`.
fn string_lt(a: &String, b: &String) -> (r: bool)
    ensures
        r == char_lt(a@, b@),
{
    let sa = a.as_str();
    let sb = b.as_str();
    let la = sa.unicode_len();
    let lb = sb.unicode_len();
    let mut i: usize = 0;
    assert(a@.skip(0) =~= a@);
    assert(b@.skip(0) =~= b@);
    while i < la && i < lb
        invariant
            sa@ == a@,
            sb@ == b@,
            la == a@.len(),
            lb == b@.len(),
            i <= la,
            i <= lb,
            char_lt(a@, b@) == char_lt(a@.skip(i as int), b@.skip(i as int)),
        decreases la - i,
    {
        let ca = sa.get_char(i);
        let cb = sb.get_char(i);
        assert(a@.skip(i as int)[0] == ca && b@.skip(i as int)[0] == cb);
        if ca != cb {
            return (ca as u32) < (cb as u32);
        }
        assert(a@.skip(i as int).drop_first() =~= a@.skip(i + 1));
        assert(b@.skip(i as int).drop_first() =~= b@.skip(i + 1));
        i += 1;
    }
    la < lb
}

/// Insert `x` into a strictly increasing list of strings unless it is present.
fn insert_sorted_string(v: &mut Vec<String>, x: String)
    requires
        sorted_strings(old(v)@),
    ensures
        sorted_strings(final(v)@),
        string_views(final(v)@) == string_views(old(v)@).insert(x@),
{
    let mut pos: usize = 0;
    while pos < v.len() && string_lt(&v[pos], &x)
        invariant
            pos <= v@.len(),
            forall|k: int| 0 <= k < pos ==> char_lt((#[trigger] v@[k])@, x@),
        decreases v@.len() - pos,
    {
        pos += 1;
    }
    let ghost before = v@;
    if pos < v.len() && v[pos] == x {
        proof {
            assert(string_views(before).insert(x@) =~= string_views(before)) by {
                assert(has_atom(before, x@)) by {
                    assert(before[pos as int]@ == x@);
                }
            }
        }
        return;
    }
    proof {
        if pos < before.len() {
            lemma_char_lt_order(before[pos as int]@, x@, x@);
        }
    }
    v.insert(pos, x);
    proof {
        let after = v@;
        assert(after == before.insert(pos as int, x));
        assert forall|i: int, j: int| 0 <= i < j < after.len() implies char_lt(after[i]@, after[j]@) by {
            if j < pos {
                assert(after[i] == before[i] && after[j] == before[j]);
            } else if j == pos {
                assert(after[i] == before[i]);
            } else if i == pos {
                assert(after[j] == before[j - 1]);
                if j - 1 > pos {
                    assert(char_lt(before[pos as int]@, before[j - 1]@));
                    lemma_char_lt_order(x@, before[pos as int]@, before[j - 1]@);
                }
            } else if i < pos {
                assert(after[i] == before[i] && after[j] == before[j - 1]);
            } else {
                assert(after[i] == before[i - 1] && after[j] == before[j - 1]);
            }
        }
        assert forall|p: Seq<char>| string_views(after).contains(p) <==> string_views(before).insert(x@).contains(p) by {
            if has_atom(after, p) {
                let k = choose|k: int| 0 <= k < after.len() && after[k]@ == p;
                if k < pos {
                    assert(before[k] == after[k]);
                } else if k > pos {
                    assert(before[k - 1] == after[k]);
                }
            }
            if has_atom(before, p) {
                let k = choose|k: int| 0 <= k < before.len() && before[k]@ == p;
                if k < pos {
                    assert(after[k] == before[k]);
                } else {
                    assert(after[k + 1] == before[k]);
                }
            }
            if p == x@ {
                assert(after[pos as int] == x);
            }
        }
        assert(string_views(after) =~= string_views(before).insert(x@));
    }
}

impl EpistemicLogicReasoner {
    /// The first world of `ws` (in order) that the model does not have.
    pub open spec fn missing_world(&self, ws: Seq<usize>) -> Option<usize>
        decreases ws.len(),
    {
        if ws.len() == 0 {
            None
        } else if !self.world_known(ws[0]) {
            Some(ws[0])
        } else {
            self.missing_world(ws.drop_first())
        }
    }

    /// The atoms true in every world of `ws`.
    pub open spec fn common_atoms(&self, ws: Seq<usize>) -> Set<Seq<char>> {
        Set::new(
            |p: Seq<char>|
                forall|k: int|
                    0 <= k < ws.len() ==> match self.world_props(#[trigger] ws[k]) {
                        Some(ps) => has_atom(ps, p),
                        None => false,
                    },
        )
    }

    /// What `agent` knows at `w`: the atoms true in every world it accesses,
    /// nothing when it accesses none; errors for an unregistered agent, an
    /// unknown `w`, or (first in edge order) an accessed world that is missing.
    pub open spec fn knowledge_spec(&self, agent: AgentId, w: usize) -> Result<
        Set<Seq<char>>,
        EpistemicError,
    > {
        if !agent_listed(self.agent_list(), agent.0@) {
            Err(EpistemicError::AgentNotFound(agent.0))
        } else if !self.world_known(w) {
            Err(EpistemicError::WorldNotFound(w))
        } else {
            let acc = self.access(agent.0@, w);
            if acc.len() == 0 {
                Ok(Set::empty())
            } else {
                match self.missing_world(acc) {
                    Some(v) => Err(EpistemicError::WorldNotFound(v)),
                    None => Ok(self.common_atoms(acc)),
                }
            }
        }
    }

    pub proof fn lemma_missing_world(&self, ws: Seq<usize>, i: int)
        requires
            0 <= i <= ws.len(),
            forall|k: int| 0 <= k < i ==> self.world_known(#[trigger] ws[k]),
        ensures
            i < ws.len() && !self.world_known(ws[i]) ==> self.missing_world(ws) == Some(ws[i]),
            i == ws.len() ==> self.missing_world(ws) is None,
        decreases i,
    {
        if i > 0 {
            assert forall|k: int| 0 <= k < i - 1 implies self.world_known(#[trigger] ws.drop_first()[k]) by {
                assert(ws.drop_first()[k] == ws[k + 1]);
            }
            self.lemma_missing_world(ws.drop_first(), i - 1);
            assert(self.world_known(ws[0]));
            if i < ws.len() {
                assert(ws.drop_first()[i - 1] == ws[i]);
            }
        } else if ws.len() > 0 && !self.world_known(ws[0]) {
        }
    }

    /// The atoms `agent` knows in `world`, in increasing order without repeats.
    pub fn knowledge_set(&self, agent: &AgentId, world: WorldId) -> (res: Result<Vec<String>, EpistemicError>)
        ensures
            match (res, self.knowledge_spec(*agent, world.0)) {
                (Ok(v), Ok(st)) => sorted_strings(v@) && string_views(v@) == st,
                (Err(e1), Err(e2)) => e1 == e2,
                _ => false,
            },
    {
        if !contains_agent(&self.agents, agent) {
            return Err(EpistemicError::AgentNotFound(agent.0.clone()));
        }
        if !self.model.world_exists(world) {
            return Err(EpistemicError::WorldNotFound(world.0));
        }
        let acc = self.access_ids(agent, world);
        if acc.len() == 0 {
            let empty: Vec<String> = Vec::new();
            assert(string_views(empty@) =~= Set::<Seq<char>>::empty());
            return Ok(empty);
        }
        proof {
            lemma_first_world(self.model.worlds@, acc@[0]);
        }
        let first = match self.model.get_world(WorldId(acc[0])) {
            None => {
                proof {
                    self.lemma_missing_world(acc@, 0);
                }
                return Err(EpistemicError::WorldNotFound(acc[0]));
            },
            Some(w) => w,
        };
        let mut known: Vec<String> = Vec::new();
        let mut j: usize = 0;
        assert(string_views(known@) =~= string_views(first.true_propositions@.take(0)));
        while j < first.true_propositions.len()
            invariant
                j <= first.true_propositions@.len(),
                sorted_strings(known@),
                string_views(known@) == string_views(first.true_propositions@.take(j as int)),
            decreases first.true_propositions@.len() - j,
        {
            let p = first.true_propositions[j].clone();
            insert_sorted_string(&mut known, p);
            proof {
                let ps = first.true_propositions@;
                assert(string_views(ps.take(j + 1)) =~= string_views(ps.take(j as int)).insert(ps[j as int]@)) by {
                    assert forall|q: Seq<char>| has_atom(ps.take(j + 1), q) implies string_views(ps.take(j as int)).insert(ps[j as int]@).contains(q) by {
                        let k = choose|k: int| 0 <= k < j + 1 && #[trigger] ps.take(j + 1)[k]@ == q;
                        if k < j {
                            assert(ps.take(j as int)[k] == ps.take(j + 1)[k]);
                        }
                    }
                    assert forall|q: Seq<char>| string_views(ps.take(j as int)).insert(ps[j as int]@).contains(q) implies has_atom(ps.take(j + 1), q) by {
                        if has_atom(ps.take(j as int), q) {
                            let k = choose|k: int| 0 <= k < j && #[trigger] ps.take(j as int)[k]@ == q;
                            assert(ps.take(j + 1)[k] == ps.take(j as int)[k]);
                        } else {
                            assert(ps.take(j + 1)[j as int] == ps[j as int]);
                        }
                    }
                }
            }
            j += 1;
        }
        proof {
            let ps = first.true_propositions@;
            assert(ps.take(ps.len() as int) =~= ps);
            assert(self.world_props(acc@[0]) == Some(ps));
            assert(string_views(known@) =~= self.common_atoms(acc@.take(1))) by {
                assert forall|q: Seq<char>| string_views(known@).contains(q) <==> self.common_atoms(acc@.take(1)).contains(q) by {
                    if self.common_atoms(acc@.take(1)).contains(q) {
                        assert(acc@.take(1)[0] == acc@[0]);
                    }
                }
            }
        }
        let mut idx: usize = 1;
        while idx < acc.len()
            invariant
                acc@ == self.access(agent.0@, world.0),
                agent_listed(self.agent_list(), agent.0@),
                self.world_known(world.0),
                1 <= idx <= acc@.len(),
                sorted_strings(known@),
                string_views(known@) == self.common_atoms(acc@.take(idx as int)),
                forall|k: int| 0 <= k < idx ==> self.world_known(#[trigger] acc@[k]),
            decreases acc@.len() - idx,
        {
            proof {
                lemma_first_world(self.model.worlds@, acc@[idx as int]);
            }
            let w = match self.model.get_world(WorldId(acc[idx])) {
                None => {
                    proof {
                        self.lemma_missing_world(acc@, idx as int);
                    }
                    return Err(EpistemicError::WorldNotFound(acc[idx]));
                },
                Some(w) => w,
            };
            let ghost old_known = known@;
            let mut kept: Vec<String> = Vec::new();
            let mut m: usize = 0;
            while m < known.len()
                invariant
                    m <= known@.len(),
                    known@ == old_known,
                    sorted_strings(old_known),
                    forall|a: int, b: int| 0 <= a < b < kept@.len() ==> char_lt(kept@[a]@, kept@[b]@),
                    forall|a: int, c: int| 0 <= a < kept@.len() && m <= c < old_known.len() ==> char_lt(kept@[a]@, old_known[c]@),
                    forall|q: Seq<char>| string_views(kept@).contains(q) <==> (has_atom(old_known.take(m as int), q) && has_atom(w.true_propositions@, q)),
                decreases known@.len() - m,
            {
                if contains_atom(&w.true_propositions, &known[m]) {
                    let ghost kb = kept@;
                    kept.push(known[m].clone());
                    proof {
                        assert forall|q: Seq<char>| has_atom(old_known.take(m + 1), q) <==> (has_atom(old_known.take(m as int), q) || q == old_known[m as int]@) by {
                            if has_atom(old_known.take(m + 1), q) {
                                let k = choose|k: int| 0 <= k < m + 1 && #[trigger] old_known.take(m + 1)[k]@ == q;
                                if k < m {
                                    assert(old_known.take(m as int)[k] == old_known.take(m + 1)[k]);
                                }
                            }
                            if has_atom(old_known.take(m as int), q) {
                                let k = choose|k: int| 0 <= k < m && #[trigger] old_known.take(m as int)[k]@ == q;
                                assert(old_known.take(m + 1)[k] == old_known.take(m as int)[k]);
                            }
                            if q == old_known[m as int]@ {
                                assert(old_known.take(m + 1)[m as int] == old_known[m as int]);
                            }
                        }
                        assert forall|q: Seq<char>| has_atom(kept@, q) <==> (has_atom(kb, q) || q == old_known[m as int]@) by {
                            if has_atom(kept@, q) {
                                let k = choose|k: int| 0 <= k < kept@.len() && #[trigger] kept@[k]@ == q;
                                if k < kb.len() {
                                    assert(kb[k] == kept@[k]);
                                }
                            }
                            if has_atom(kb, q) {
                                let k = choose|k: int| 0 <= k < kb.len() && #[trigger] kb[k]@ == q;
                                assert(kept@[k] == kb[k]);
                            }
                            if q == old_known[m as int]@ {
                                assert(kept@[kb.len() as int] == old_known[m as int]);
                            }
                        }
                        assert forall|a: int, b: int| 0 <= a < b < kept@.len() implies char_lt(kept@[a]@, kept@[b]@) by {
                            if b == kb.len() {
                                assert(kept@[a] == kb[a]);
                            } else {
                                assert(kept@[a] == kb[a] && kept@[b] == kb[b]);
                            }
                        }
                        assert forall|a: int, c: int| 0 <= a < kept@.len() && m + 1 <= c < old_known.len() implies char_lt(kept@[a]@, old_known[c]@) by {
                            if a == kb.len() {
                                assert(kept@[a] == old_known[m as int]);
                            } else {
                                assert(kept@[a] == kb[a]);
                            }
                        }
                        assert(has_atom(w.true_propositions@, old_known[m as int]@));
                        assert forall|q: Seq<char>| string_views(kept@).contains(q) <==> (has_atom(old_known.take(m + 1), q) && has_atom(w.true_propositions@, q)) by {
                            assert(string_views(kb).contains(q) <==> (has_atom(old_known.take(m as int), q) && has_atom(w.true_propositions@, q)));
                        }
                    }
                } else {
                    proof {
                        assert forall|q: Seq<char>| has_atom(old_known.take(m + 1), q) <==> (has_atom(old_known.take(m as int), q) || q == old_known[m as int]@) by {
                            if has_atom(old_known.take(m + 1), q) {
                                let k = choose|k: int| 0 <= k < m + 1 && #[trigger] old_known.take(m + 1)[k]@ == q;
                                if k < m {
                                    assert(old_known.take(m as int)[k] == old_known.take(m + 1)[k]);
                                }
                            }
                            if has_atom(old_known.take(m as int), q) {
                                let k = choose|k: int| 0 <= k < m && #[trigger] old_known.take(m as int)[k]@ == q;
                                assert(old_known.take(m + 1)[k] == old_known.take(m as int)[k]);
                            }
                            if q == old_known[m as int]@ {
                                assert(old_known.take(m + 1)[m as int] == old_known[m as int]);
                            }
                        }
                        assert(!has_atom(w.true_propositions@, old_known[m as int]@));
                        assert forall|q: Seq<char>| string_views(kept@).contains(q) <==> (has_atom(old_known.take(m + 1), q) && has_atom(w.true_propositions@, q)) by {
                            assert(string_views(kept@).contains(q) <==> (has_atom(old_known.take(m as int), q) && has_atom(w.true_propositions@, q)));
                        }
                    }
                }
                m += 1;
            }
            proof {
                assert(old_known.take(old_known.len() as int) =~= old_known);
                let prev = acc@.take(idx as int);
                let nxt = acc@.take(idx + 1);
                assert(self.world_props(acc@[idx as int]) == Some(w.true_propositions@));
                assert forall|q: Seq<char>| string_views(kept@).contains(q) <==> self.common_atoms(nxt).contains(q) by {
                    if self.common_atoms(nxt).contains(q) {
                        assert forall|k: int| 0 <= k < prev.len() implies match self.world_props(#[trigger] prev[k]) {
                            Some(ps) => has_atom(ps, q),
                            None => false,
                        } by {
                            assert(nxt[k] == prev[k]);
                        }
                        assert(nxt[idx as int] == acc@[idx as int]);
                        assert(string_views(old_known).contains(q));
                    }
                    if string_views(kept@).contains(q) {
                        assert(string_views(old_known).contains(q));
                        assert(self.common_atoms(prev).contains(q));
                        assert forall|k: int| 0 <= k < nxt.len() implies match self.world_props(#[trigger] nxt[k]) {
                            Some(ps) => has_atom(ps, q),
                            None => false,
                        } by {
                            if k < idx {
                                assert(nxt[k] == prev[k]);
                            }
                        }
                    }
                }
                assert(string_views(kept@) =~= self.common_atoms(nxt));
                assert(self.world_known(acc@[idx as int])) by {
                    lemma_first_world(self.model.worlds@, acc@[idx as int]);
                }
            }
            known = kept;
            idx += 1;
        }
        proof {
            assert(acc@.take(acc@.len() as int) =~= acc@);
            self.lemma_missing_world(acc@, acc@.len() as int);
        }
        Ok(known)
    }
}

// ─── Laws ────────────────────────────────────────────────────────────────────

/// The result with its truth value flipped; errors stay as they are.
pub open spec fn flip(res: Result<bool, EpistemicError>) -> Result<bool, EpistemicError> {
    match res {
        Ok(b) => Ok(!b),
        Err(e) => Err(e),
    }
}

impl EpistemicLogicReasoner {
    pub proof fn lemma_all_hold_true(&self, phi: EpistemicFormula, ws: Seq<usize>)
        ensures
            self.all_hold(phi, ws) == Ok::<bool, EpistemicError>(true) <==> forall|k: int|
                0 <= k < ws.len() ==> self.eval_spec(phi, #[trigger] ws[k]) == Ok::<bool, EpistemicError>(
                    true,
                ),
        decreases ws.len(),
    {
        if ws.len() > 0 {
            self.lemma_all_hold_true(phi, ws.drop_first());
            assert forall|k: int| 1 <= k < ws.len() implies ws[k] == ws.drop_first()[k - 1] by {}
            if forall|k: int|
                0 <= k < ws.len() ==> self.eval_spec(phi, #[trigger] ws[k]) == Ok::<bool, EpistemicError>(true) {
                assert forall|k: int| 0 <= k < ws.drop_first().len() implies self.eval_spec(
                    phi,
                    #[trigger] ws.drop_first()[k],
                ) == Ok::<bool, EpistemicError>(true) by {
                    assert(ws.drop_first()[k] == ws[k + 1]);
                }
            }
        }
    }

    pub proof fn lemma_any_holds_is_flipped_all(&self, phi: EpistemicFormula, ws: Seq<usize>)
        ensures
            self.any_holds(phi, ws) == flip(
                self.all_hold(EpistemicFormula::Not(Box::new(phi)), ws),
            ),
        decreases ws.len(),
    {
        if ws.len() > 0 {
            self.lemma_any_holds_is_flipped_all(phi, ws.drop_first());
            assert(self.eval_spec(EpistemicFormula::Not(Box::new(phi)), ws[0]) == flip(
                self.eval_spec(phi, ws[0]),
            ));
        }
    }

    pub proof fn lemma_all_know_true(&self, phi: EpistemicFormula, ags: Seq<AgentId>, w: usize)
        requires
            forall|k: int|
                0 <= k < ags.len() ==> self.all_hold(phi, self.access((#[trigger] ags[k]).0@, w))
                    == Ok::<bool, EpistemicError>(true),
        ensures
            self.all_know(phi, ags, w) == Ok::<bool, EpistemicError>(true),
        decreases ags.len(),
    {
        if ags.len() > 0 {
            assert(self.all_hold(phi, self.access(ags[0].0@, w)) == Ok::<bool, EpistemicError>(true));
            assert forall|k: int| 0 <= k < ags.drop_first().len() implies self.all_hold(
                phi,
                self.access((#[trigger] ags.drop_first()[k]).0@, w),
            ) == Ok::<bool, EpistemicError>(true) by {
                assert(ags.drop_first()[k] == ags[k + 1]);
            }
            self.lemma_all_know_true(phi, ags.drop_first(), w);
        }
    }

    /// Possibility is dual to knowledge: M_i φ has exactly the value of ¬K_i ¬φ,
    /// errors included.
    pub proof fn law_possible_is_not_knows_not(&self, agent: AgentId, phi: EpistemicFormula, w: usize)
        ensures
            self.eval_spec(EpistemicFormula::Possible { agent, phi: Box::new(phi) }, w) == self.eval_spec(
                EpistemicFormula::Not(
                    Box::new(
                        EpistemicFormula::Knows {
                            agent,
                            phi: Box::new(EpistemicFormula::Not(Box::new(phi))),
                        },
                    ),
                ),
                w,
            ),
    {
        let acc = self.access(agent.0@, w);
        self.lemma_any_holds_is_flipped_all(phi, acc);
        let kn = EpistemicFormula::Knows { agent, phi: Box::new(EpistemicFormula::Not(Box::new(phi))) };
        assert(self.eval_spec(kn, w) == self.all_hold(EpistemicFormula::Not(Box::new(phi)), acc));
        assert(self.eval_spec(EpistemicFormula::Not(Box::new(kn)), w) == flip(self.eval_spec(kn, w)));
        assert(self.eval_spec(EpistemicFormula::Possible { agent, phi: Box::new(phi) }, w) == self.any_holds(phi, acc));
    }

    /// The T axiom: where an agent's relation is reflexive, what it knows at a
    /// world of the model is true there.
    pub proof fn law_knowledge_is_true_under_reflexivity(
        &self,
        agent: AgentId,
        phi: EpistemicFormula,
        w: usize,
    )
        requires
            reflexive_for(edge_set(self.kripke().relations@), agent.0@, self.kripke().worlds@),
            self.world_known(w),
            self.eval_spec(EpistemicFormula::Knows { agent, phi: Box::new(phi) }, w) == Ok::<
                bool,
                EpistemicError,
            >(true),
        ensures
            self.eval_spec(phi, w) == Ok::<bool, EpistemicError>(true),
    {
        let ws = self.kripke().worlds@;
        let i = choose|i: int| 0 <= i < ws.len() && #[trigger] ws[i].id.0 == w;
        assert(edge_set(self.kripke().relations@).contains((agent.0@, ws[i].id.0, ws[i].id.0)));
        lemma_targets(self.kripke().relations@, agent.0@, w);
        let acc = self.access(agent.0@, w);
        assert(acc.contains(w));
        let k = choose|k: int| 0 <= k < acc.len() && acc[k] == w;
        self.lemma_all_hold_true(phi, acc);
    }

    /// Common knowledge implies truth: C φ at w gives φ at w.
    pub proof fn law_common_knowledge_is_true(&self, phi: EpistemicFormula, w: usize)
        requires
            self.eval_spec(EpistemicFormula::CommonKnowledge(Box::new(phi)), w) == Ok::<
                bool,
                EpistemicError,
            >(true),
        ensures
            self.eval_spec(phi, w) == Ok::<bool, EpistemicError>(true),
    {
        let rels = self.kripke().relations@;
        let m = self.depth_bound();
        let set = reach_within(rels, w, (m - 1) as nat);
        lemma_reach_grows(rels, w, (m - 1) as nat);
        let q = ascending_listing(set);
        lemma_reach_finite(rels, w, (m - 1) as nat);
        lemma_listing_exists(set);
        assert(self.reach_spec(w) == Ok::<Seq<usize>, EpistemicError>(q));
        assert(q.contains(w));
        let k = choose|k: int| 0 <= k < q.len() && q[k] == w;
        self.lemma_all_hold_true(phi, q);
    }

    /// Common knowledge implies everyone's knowledge: C φ at w gives E φ at w.
    pub proof fn law_common_knowledge_gives_everyone_knows(&self, phi: EpistemicFormula, w: usize)
        requires
            self.eval_spec(EpistemicFormula::CommonKnowledge(Box::new(phi)), w) == Ok::<
                bool,
                EpistemicError,
            >(true),
        ensures
            self.eval_spec(EpistemicFormula::EveryoneKnows(Box::new(phi)), w) == Ok::<
                bool,
                EpistemicError,
            >(true),
    {
        let rels = self.kripke().relations@;
        let m = self.depth_bound();
        let set = reach_within(rels, w, (m - 1) as nat);
        lemma_reach_grows(rels, w, (m - 1) as nat);
        let q = ascending_listing(set);
        lemma_reach_finite(rels, w, (m - 1) as nat);
        lemma_listing_exists(set);
        assert(self.reach_spec(w) == Ok::<Seq<usize>, EpistemicError>(q));
        self.lemma_all_hold_true(phi, q);
        assert(reach_within(rels, w, m as nat) == set.union(successors(rels, set)));
        assert forall|k: int| 0 <= k < self.agent_list().len() implies self.all_hold(
            phi,
            self.access((#[trigger] self.agent_list()[k]).0@, w),
        ) == Ok::<bool, EpistemicError>(true) by {
            let a = self.agent_list()[k].0@;
            let acc = self.access(a, w);
            lemma_targets(rels, a, w);
            assert forall|j: int| 0 <= j < acc.len() implies self.eval_spec(phi, #[trigger] acc[j])
                == Ok::<bool, EpistemicError>(true) by {
                assert(edge_set(rels).contains((a, w, acc[j])));
                let l = choose|l: int| 0 <= l < rels.len() && edge_view(rels[l]) == (a, w, acc[j]);
                assert(set.contains(rels[l].from.0));
                assert(successors(rels, set).contains(acc[j]));
                assert(set.contains(acc[j]));
                assert(q.contains(acc[j]));
                let i = choose|i: int| 0 <= i < q.len() && q[i] == acc[j];
            }
            self.lemma_all_hold_true(phi, acc);
        }
        self.lemma_all_know_true(phi, self.agent_list(), w);
    }

    proof fn lemma_sat_filter_shape(&self, f: EpistemicFormula, ids: Seq<usize>)
        requires
            sat_filter(*self, f, ids) is Ok,
        ensures
            forall|k: int| 0 <= k < ids.len() ==> (#[trigger] self.eval_spec(f, ids[k])) is Ok,
            sat_filter(*self, f, ids)->Ok_0.len() <= ids.len(),
            sat_filter(*self, f, ids)->Ok_0.len() > 0 <==> exists|k: int|
                0 <= k < ids.len() && #[trigger] self.eval_spec(f, ids[k]) == Ok::<bool, EpistemicError>(true),
            sat_filter(*self, f, ids)->Ok_0.len() == ids.len() <==> forall|k: int|
                0 <= k < ids.len() ==> #[trigger] self.eval_spec(f, ids[k]) == Ok::<bool, EpistemicError>(true),
        decreases ids.len(),
    {
        if ids.len() > 0 {
            let pre = ids.drop_last();
            self.lemma_sat_filter_shape(f, pre);
            let n = ids.len() - 1;
            assert forall|k: int| 0 <= k < n implies #[trigger] self.eval_spec(f, ids[k]) == self.eval_spec(f, pre[k]) by {
                assert(ids[k] == pre[k]);
            }
            let q = sat_filter(*self, f, pre)->Ok_0;
            if exists|k: int| 0 <= k < ids.len() && #[trigger] self.eval_spec(f, ids[k]) == Ok::<bool, EpistemicError>(true) {
                let k = choose|k: int| 0 <= k < ids.len() && #[trigger] self.eval_spec(f, ids[k]) == Ok::<bool, EpistemicError>(true);
                if k < n {
                    assert(self.eval_spec(f, pre[k]) == Ok::<bool, EpistemicError>(true));
                }
            }
            if q.len() > 0 {
                let k = choose|k: int| 0 <= k < pre.len() && #[trigger] self.eval_spec(f, pre[k]) == Ok::<bool, EpistemicError>(true);
                assert(self.eval_spec(f, ids[k]) == Ok::<bool, EpistemicError>(true));
            }
            if forall|k: int| 0 <= k < ids.len() ==> #[trigger] self.eval_spec(f, ids[k]) == Ok::<bool, EpistemicError>(true) {
                assert forall|k: int| 0 <= k < pre.len() implies #[trigger] self.eval_spec(f, pre[k]) == Ok::<bool, EpistemicError>(true) by {
                    assert(self.eval_spec(f, ids[k]) == Ok::<bool, EpistemicError>(true));
                }
            }
            if sat_filter(*self, f, ids)->Ok_0.len() == ids.len() {
                assert(q.len() == n);
                assert forall|k: int| 0 <= k < ids.len() implies #[trigger] self.eval_spec(f, ids[k]) == Ok::<bool, EpistemicError>(true) by {
                    if k < n {
                        assert(self.eval_spec(f, pre[k]) == Ok::<bool, EpistemicError>(true));
                    }
                }
            }
        }
    }

    proof fn lemma_scans_without_error(&self, f: EpistemicFormula, ws: Seq<usize>)
        requires
            forall|k: int| 0 <= k < ws.len() ==> (#[trigger] self.eval_spec(f, ws[k])) is Ok,
        ensures
            self.any_holds(f, ws) == Ok::<bool, EpistemicError>(
                exists|k: int| 0 <= k < ws.len() && #[trigger] self.eval_spec(f, ws[k]) == Ok::<bool, EpistemicError>(true),
            ),
            self.all_hold(f, ws) == Ok::<bool, EpistemicError>(
                forall|k: int| 0 <= k < ws.len() ==> #[trigger] self.eval_spec(f, ws[k]) == Ok::<bool, EpistemicError>(true),
            ),
        decreases ws.len(),
    {
        if ws.len() > 0 {
            let rest = ws.drop_first();
            assert forall|k: int| 0 <= k < rest.len() implies #[trigger] self.eval_spec(f, rest[k]) == self.eval_spec(f, ws[k + 1]) by {
                assert(rest[k] == ws[k + 1]);
            }
            assert(self.eval_spec(f, ws[0]) is Ok);
            self.lemma_scans_without_error(f, rest);
            if exists|k: int| 0 <= k < ws.len() && #[trigger] self.eval_spec(f, ws[k]) == Ok::<bool, EpistemicError>(true) {
                let k = choose|k: int| 0 <= k < ws.len() && #[trigger] self.eval_spec(f, ws[k]) == Ok::<bool, EpistemicError>(true);
                if k > 0 {
                    assert(self.eval_spec(f, rest[k - 1]) == Ok::<bool, EpistemicError>(true));
                }
            }
            if exists|k: int| 0 <= k < rest.len() && #[trigger] self.eval_spec(f, rest[k]) == Ok::<bool, EpistemicError>(true) {
                let k = choose|k: int| 0 <= k < rest.len() && #[trigger] self.eval_spec(f, rest[k]) == Ok::<bool, EpistemicError>(true);
                assert(self.eval_spec(f, ws[k + 1]) == Ok::<bool, EpistemicError>(true));
            }
            if forall|k: int| 0 <= k < rest.len() ==> #[trigger] self.eval_spec(f, rest[k]) == Ok::<bool, EpistemicError>(true) {
                if self.eval_spec(f, ws[0]) == Ok::<bool, EpistemicError>(true) {
                    assert forall|k: int| 0 <= k < ws.len() implies #[trigger] self.eval_spec(f, ws[k]) == Ok::<bool, EpistemicError>(true) by {
                        if k > 0 {
                            assert(self.eval_spec(f, rest[k - 1]) == Ok::<bool, EpistemicError>(true));
                        }
                    }
                }
            } else {
                let k = choose|k: int| 0 <= k < rest.len() && !(#[trigger] self.eval_spec(f, rest[k]) == Ok::<bool, EpistemicError>(true));
                assert(!(self.eval_spec(f, ws[k + 1]) == Ok::<bool, EpistemicError>(true)));
            }
        }
    }

    /// When the satisfying worlds of `phi` can be listed, `phi` is satisfiable
    /// exactly when that list is not empty, and valid exactly when it holds
    /// every world.
    pub proof fn law_satisfiable_iff_some_satisfying_world(&self, phi: EpistemicFormula)
        requires
            sat_filter(*self, phi, self.all_world_ids()) is Ok,
        ensures
            self.any_holds(phi, self.all_world_ids()) == Ok::<bool, EpistemicError>(
                sat_filter(*self, phi, self.all_world_ids())->Ok_0.len() > 0,
            ),
            self.all_hold(phi, self.all_world_ids()) == Ok::<bool, EpistemicError>(
                sat_filter(*self, phi, self.all_world_ids())->Ok_0.len() == self.all_world_ids().len(),
            ),
    {
        let ids = self.all_world_ids();
        self.lemma_sat_filter_shape(phi, ids);
        self.lemma_scans_without_error(phi, ids);
    }

    /// A formula valid in a non-empty model is satisfiable in it.
    pub proof fn law_valid_implies_satisfiable(&self, phi: EpistemicFormula)
        requires
            self.kripke().worlds@.len() > 0,
            self.all_hold(phi, self.all_world_ids()) == Ok::<bool, EpistemicError>(true),
        ensures
            self.any_holds(phi, self.all_world_ids()) == Ok::<bool, EpistemicError>(true),
    {
        let ids = self.all_world_ids();
        self.lemma_all_hold_true(phi, ids);
        assert(self.eval_spec(phi, ids[0]) == Ok::<bool, EpistemicError>(true));
    }

    pub proof fn lemma_ck_iter_stable(&self, s: Set<usize>, k: nat)
        requires
            self.ck_iter(s, k) is Ok,
        ensures
            self.ck_iter(s, k)->Ok_0.subset_of(s),
            self.ck_step(self.ck_iter(s, k)->Ok_0) == self.ck_iter(s, k)->Ok_0,
        decreases k,
    {
        if self.ck_step(s) != s {
            self.lemma_ck_iter_stable(self.ck_step(s), (k - 1) as nat);
        }
    }

    pub proof fn lemma_sat_filter_holds(&self, f: EpistemicFormula, ids: Seq<usize>)
        requires
            sat_filter(*self, f, ids) is Ok,
        ensures
            forall|v: usize|
                sat_filter(*self, f, ids)->Ok_0.contains(v) ==> self.eval_spec(f, v) == Ok::<
                    bool,
                    EpistemicError,
                >(true),
        decreases ids.len(),
    {
        if ids.len() > 0 {
            self.lemma_sat_filter_holds(f, ids.drop_last());
            let q = sat_filter(*self, f, ids.drop_last())->Ok_0;
            assert forall|v: usize| sat_filter(*self, f, ids)->Ok_0.contains(v) implies self.eval_spec(
                f,
                v,
            ) == Ok::<bool, EpistemicError>(true) by {
                let r = sat_filter(*self, f, ids)->Ok_0;
                let k = choose|k: int| 0 <= k < r.len() && r[k] == v;
                if k < q.len() {
                    assert(q[k] == r[k]);
                    assert(q.contains(v));
                }
            }
        }
    }

    /// The common-knowledge worlds of φ satisfy φ, and no agent reaches outside
    /// them in one step.
    pub proof fn law_common_knowledge_worlds_are_stable(&self, phi: EpistemicFormula)
        requires
            self.ck_worlds_spec(phi) is Ok,
        ensures
            self.ck_step(self.ck_worlds_spec(phi)->Ok_0) == self.ck_worlds_spec(phi)->Ok_0,
            forall|v: usize|
                self.ck_worlds_spec(phi)->Ok_0.contains(v) ==> self.eval_spec(phi, v) == Ok::<
                    bool,
                    EpistemicError,
                >(true),
    {
        let q = sat_filter(*self, phi, self.all_world_ids())->Ok_0;
        self.lemma_ck_iter_stable(q.to_set(), self.depth_bound() as nat);
        self.lemma_sat_filter_holds(phi, self.all_world_ids());
    }

    pub proof fn lemma_all_atoms(&self, ws: Seq<usize>, p: String)
        requires
            self.missing_world(ws) is None,
        ensures
            self.all_hold(EpistemicFormula::Atom(p), ws) == Ok::<bool, EpistemicError>(true)
                <==> forall|k: int|
                0 <= k < ws.len() ==> has_atom(self.world_props(#[trigger] ws[k])->Some_0, p@),
            self.all_hold(EpistemicFormula::Atom(p), ws) is Ok,
            forall|k: int| 0 <= k < ws.len() ==> self.world_props(#[trigger] ws[k]) is Some,
        decreases ws.len(),
    {
        if ws.len() > 0 {
            lemma_first_world(self.kripke().worlds@, ws[0]);
            assert(self.world_known(ws[0]));
            assert(self.missing_world(ws.drop_first()) is None);
            assert(self.world_props(ws[0]) is Some);
            assert(self.eval_spec(EpistemicFormula::Atom(p), ws[0]) == Ok::<bool, EpistemicError>(
                has_atom(self.world_props(ws[0])->Some_0, p@),
            ));
            self.lemma_all_atoms(ws.drop_first(), p);
            assert forall|k: int| 1 <= k < ws.len() implies ws[k] == ws.drop_first()[k - 1] by {}
            assert forall|k: int| 0 <= k < ws.len() implies self.world_props(#[trigger] ws[k]) is Some by {
                if k > 0 {
                    assert(ws[k] == ws.drop_first()[k - 1]);
                }
            }
        }
    }

    /// `knowledge_set` and the K operator agree: an atom is in what the agent
    /// knows exactly when K_i(atom) holds (for an agent that accesses some world).
    pub proof fn law_knowledge_set_matches_knows(&self, agent: AgentId, w: usize, p: String)
        requires
            self.knowledge_spec(agent, w) is Ok,
            self.access(agent.0@, w).len() > 0,
        ensures
            self.knowledge_spec(agent, w)->Ok_0.contains(p@) <==> self.eval_spec(
                EpistemicFormula::Knows { agent, phi: Box::new(EpistemicFormula::Atom(p)) },
                w,
            ) == Ok::<bool, EpistemicError>(true),
    {
        let acc = self.access(agent.0@, w);
        self.lemma_all_atoms(acc, p);
    }
}

/// After `make_reflexive`, every registered agent satisfies the T axiom.
pub proof fn law_reflexive_closure_gives_t_axiom(
    agents: Seq<AgentId>,
    ws: Seq<PossibleWorld>,
    rels: Seq<AccessibilityRelation>,
    a: Seq<char>,
)
    requires
        reflexive_edges(agents, ws).subset_of(edge_set(rels)),
        agent_listed(agents, a),
    ensures
        reflexive_for(edge_set(rels), a, ws),
{
    assert forall|i: int| 0 <= i < ws.len() implies edge_set(rels).contains(
        (a, (#[trigger] ws[i]).id.0, ws[i].id.0),
    ) by {
        assert(reflexive_edges(agents, ws).contains((a, ws[i].id.0, ws[i].id.0)));
    }
}

/// `make_reflexive` is idempotent: run on relations that already hold every
/// reflexive edge, its contract leaves the relation list unchanged.
pub proof fn law_make_reflexive_idempotent(
    agents: Seq<AgentId>,
    ws: Seq<PossibleWorld>,
    before: Seq<AccessibilityRelation>,
    after: Seq<AccessibilityRelation>,
)
    requires
        reflexive_edges(agents, ws).subset_of(edge_set(before)),
        before.len() <= after.len(),
        after.subrange(0, before.len() as int) == before,
        fresh_from(after, before.len() as int),
        forall|l: int|
            before.len() <= l < after.len() ==> reflexive_edges(agents, ws).contains(
                edge_view(#[trigger] after[l]),
            ),
    ensures
        after == before,
{
    if after.len() > before.len() {
        let l = before.len() as int;
        assert(reflexive_edges(agents, ws).contains(edge_view(after[l])));
        let k = choose|k: int| 0 <= k < before.len() && edge_view(before[k]) == edge_view(after[l]);
        assert(after[k] == before[k]);
    }
    assert(after =~= before);
}

/// After `make_transitive`, every agent satisfies the 4 axiom.
pub proof fn law_transitive_closure_gives_4_axiom(rels: Seq<AccessibilityRelation>, a: Seq<char>)
    requires
        transitive_edges(edge_set(rels)),
    ensures
        transitive_for(edge_set(rels), a),
{
}

} // verus!
