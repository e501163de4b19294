use vstd::prelude::*;
use crate::actions::Action;
use crate::backtracking::Backtracking;
use crate::backtracking::SENTINEL;
use crate::quality_upper_bound_solver::QualityUpperBoundSolver;
use crate::quality_upper_bound_solver::SolverContext;
use crate::quality_upper_bound_solver::is_bound;
use crate::quality_upper_bound_solver::lemma_bound_unique;
use crate::score::Score;
use crate::search_queue::SearchNode;
use crate::search_queue::SearchQueue;
use crate::search_queue::SearchTrace;
use crate::search_queue::node_dominates;
use crate::search_queue::outclasses;
use crate::search_queue::spec_pareto_key;
use crate::settings::Settings;
use crate::state::Condition;
use crate::state::SimulationState;

verus! {

/// What one step of the search did.
#[derive(Debug, Clone, Copy, PartialEq, Eq, Structural)]
pub enum SearchStatus {
    /// A node was expanded and the best macro stayed as it was.
    Working,
    /// A node was expanded and a better macro was found.
    Improved,
    /// Nothing is left to expand.
    Finished,
}

/// The seconds that a macro takes.
pub open spec fn spec_duration(actions: Seq<Action>) -> nat
    decreases actions.len(),
{
    if actions.len() == 0 {
        0
    } else {
        spec_duration(actions.drop_last()) + actions.last().spec_time_cost() as nat
    }
}

/// `v` as far as 8 bits hold it.
pub open spec fn spec_saturate(v: nat) -> u8 {
    if v > 255 {
        255u8
    } else {
        v as u8
    }
}

/// The seconds that a macro takes, as far as 8 bits hold them.
pub fn duration(actions: &Vec<Action>) -> (r: u8)
    ensures
        r == spec_saturate(spec_duration(actions@)),
{
    let mut total: u8 = 0;
    let mut i: usize = 0;
    assert(actions@.take(0) =~= Seq::<Action>::empty());
    while i < actions.len()
        invariant
            i <= actions.len(),
            total == spec_saturate(spec_duration(actions@.take(i as int))),
        decreases actions.len() - i,
    {
        let cost = actions[i].time_cost();
        proof {
            assert(actions@.take(i + 1).drop_last() =~= actions@.take(i as int));
            assert(actions@.take(i + 1).last() == actions@[i as int]);
        }
        total = if total > 255 - cost {
            255
        } else {
            total + cost
        };
        i += 1;
    }
    assert(actions@.take(actions@.len() as int) =~= actions@);
    total
}

/// Running a macro and then one more move is running the macro with the
/// move appended.
pub proof fn lemma_replay_push(
    from: SimulationState,
    actions: Seq<Action>,
    action: Action,
    settings: Settings,
)
    ensures
        from.spec_replay(actions.push(action), settings) == (match from.spec_replay(
            actions,
            settings,
        ) {
            Ok(state) => state.spec_use_action(action, Condition::Normal, settings),
            Err(e) => Err(e),
        }),
    decreases actions.len(),
{
    if actions.len() == 0 {
        assert(actions.push(action).skip(1) =~= Seq::<Action>::empty());
        match from.spec_use_action(action, Condition::Normal, settings) {
            Ok(next) => {
                assert(next.spec_replay(Seq::<Action>::empty(), settings) == Ok::<
                    SimulationState,
                    crate::state::ActionError,
                >(next));
            },
            Err(_) => {},
        }
    } else {
        assert(actions.push(action).skip(1) =~= actions.skip(1).push(action));
        assert(actions.push(action)[0] == actions[0]);
        match from.spec_use_action(actions[0], Condition::Normal, settings) {
            Ok(next) => {
                lemma_replay_push(next, actions.skip(1), action, settings);
            },
            Err(_) => {},
        }
    }
}

/// The moves that the arena reads back for a node.
pub open spec fn moves_in(arena: Backtracking<Action>, node: SearchNode) -> Seq<Action> {
    match node.trace {
        None => Seq::empty(),
        Some(trace) => trace.spec_actions(&arena),
    }
}

/// `node` holds the state that one move from `state` leads to, a craft that
/// goes on, and the arena reads back `moves` and that move for it.
pub open spec fn follows_in(
    arena: Backtracking<Action>,
    settings: Settings,
    state: SimulationState,
    moves: Seq<Action>,
    node: SearchNode,
) -> bool {
    exists|a: Action| #[trigger]
        state.spec_use_action(a, Condition::Normal, settings) == Ok::<
            SimulationState,
            crate::state::ActionError,
        >(node.state) && !node.state.spec_is_final(settings) && moves_in(arena, node)
            == moves.push(a)
}

/// The node of what `action` leads to from `state`, linked to the entry
/// `index` of the arena.
pub open spec fn successor_of(
    state: SimulationState,
    index: u32,
    action: Action,
    settings: Settings,
) -> SearchNode {
    SearchNode {
        state: state.spec_use_action(action, Condition::Normal, settings).unwrap(),
        trace: Some(SearchTrace { parent: index, action }),
    }
}

fn saturate_len(n: usize) -> (r: u8)
    ensures
        r == spec_saturate(n as nat),
{
    if n > 255 {
        255
    } else {
        n as u8
    }
}

fn is_complete(state: &SimulationState, settings: &Settings) -> (r: bool)
    ensures
        r == (state.progress >= settings.max_progress),
{
    state.progress >= settings.max_progress as u32
}

/// The search for the macro of the best score: best-first over the nodes
/// of a queue, pruned by the bound on the quality that can still be made.
pub struct MacroSolver {
    settings: Settings,
    initial: SimulationState,
    bound_solver: QualityUpperBoundSolver,
    queue: SearchQueue,
    arena: Backtracking<Action>,
    found: bool,
    best_actions: Vec<Action>,
    best_score: Score,
    best_quality: u16,
}

/// `action`, made in `state`, fills the progress bar.
pub open spec fn completing(state: SimulationState, action: Action, settings: Settings) -> bool {
    state.spec_use_action(action, Condition::Normal, settings) is Ok && state.spec_use_action(
        action,
        Condition::Normal,
        settings,
    ).unwrap().progress >= settings.max_progress
}

/// `actions`, made from `from`, end in a craft whose progress bar is full.
pub open spec fn completes(from: SimulationState, actions: Seq<Action>, settings: Settings) -> bool {
    from.spec_replay(actions, settings) is Ok && from.spec_replay(
        actions,
        settings,
    ).unwrap().progress >= settings.max_progress
}

impl MacroSolver {
    /// The settings of the craft.
    pub closed spec fn settings(&self) -> Settings {
        self.settings
    }

    /// The state from which the search set out.
    pub closed spec fn initial(&self) -> SimulationState {
        self.initial
    }

    /// The best macro found so far; empty if none was found.
    pub closed spec fn best(&self) -> Seq<Action> {
        self.best_actions@
    }

    /// Whether a macro that fills the progress bar was found.
    pub closed spec fn found(&self) -> bool {
        self.found
    }

    /// The quality of the best macro found so far; zero if none was found.
    pub closed spec fn best_quality(&self) -> u16 {
        self.best_quality
    }

    /// The score of the best macro found so far.
    pub closed spec fn best_score(&self) -> Score {
        self.best_score
    }

    /// Whether nothing is left to expand.
    pub closed spec fn drained(&self) -> bool {
        self.queue.ready().len() == 0 && self.queue.bucket_count() == 0
    }

    /// The number of amounts of crafting points that have not been served.
    pub closed spec fn buckets_left(&self) -> nat {
        self.queue.bucket_count()
    }

    /// `node` waits in the queue.
    pub closed spec fn queued(&self, node: SearchNode) -> bool {
        self.queue.contains(node)
    }

    /// `node` has been let through and waits to be handed out.
    pub closed spec fn is_ready(&self, node: SearchNode) -> bool {
        self.queue.ready().contains(node)
    }

    /// Whether the way to one more node can be recorded.
    pub closed spec fn has_room(&self) -> bool {
        self.arena@.len() < SENTINEL
    }

    /// The best macro is at least as good as every macro made of `moves`
    /// and one more move that fills the progress bar from `state`.
    pub open spec fn keeps_best_of(&self, state: SimulationState, moves: Seq<Action>) -> bool {
        forall|a: Action| #[trigger]
            completing(state, a, self.settings()) ==> self.found() && !spec_score_of(
                self.initial(),
                moves.push(a),
                self.settings(),
            ).beats(self.best_score())
    }

    /// `node` holds the state that one move from `state` leads to, a craft
    /// that goes on, and the moves recorded for it are `moves` and that move.
    pub open spec fn follows(
        &self,
        state: SimulationState,
        moves: Seq<Action>,
        node: SearchNode,
    ) -> bool {
        exists|a: Action| #[trigger]
            state.spec_use_action(a, Condition::Normal, self.settings()) == Ok::<
                SimulationState,
                crate::state::ActionError,
            >(node.state) && !node.state.spec_is_final(self.settings()) && self.moves_of(node)
                == moves.push(a)
    }

    /// The best macro is the one of `before`, or `moves` and one more move
    /// that fills the progress bar from `state`.
    pub open spec fn best_comes_from(
        &self,
        before: &MacroSolver,
        state: SimulationState,
        moves: Seq<Action>,
    ) -> bool {
        self.best() == before.best() || exists|a: Action| #[trigger]
            completing(state, a, self.settings()) && self.best() == moves.push(a)
    }

    /// The settings and prices under which the bound is computed.
    pub closed spec fn bound_context(&self) -> SolverContext {
        self.bound_solver.context()
    }

    /// A value let through in the class of `node` dominates `node`: the
    /// node, or one at least as good in its class, has been handed out or
    /// is ready to be.
    pub closed spec fn seen_dominates(&self, node: SearchNode) -> bool {
        self.queue.seen_dominates(node)
    }

    /// The nodes that have been taken from the queue and expanded, in the
    /// order in which they came.
    pub closed spec fn expanded_nodes(&self) -> Seq<SearchNode> {
        self.queue.handed_out()
    }

    /// `node` waits in the queue, or a node of its amount and class that
    /// waits dominates it, or a value let through in its class does.
    pub closed spec fn covered(&self, node: SearchNode) -> bool {
        self.queue.covers(node)
    }

    /// The quality of the craft that `action` completes from `state`.
    pub open spec fn completed_quality(&self, state: SimulationState, action: Action) -> u16 {
        state.spec_use_action(action, Condition::Normal, self.settings()).unwrap().spec_get_quality()
    }

    /// `action` leads from `state` to a craft that goes on and whose bound
    /// `bound` exceeds the quality of the best macro of `self` and of every
    /// macro that one move from `state` completes: no best macro of the
    /// step could have had the move pruned.
    pub open spec fn promising(&self, state: SimulationState, action: Action, bound: u16) -> bool {
        &&& state.spec_use_action(action, Condition::Normal, self.settings()) is Ok
        &&& !state.spec_use_action(
            action,
            Condition::Normal,
            self.settings(),
        ).unwrap().spec_is_final(self.settings())
        &&& is_bound(
            self.bound_context(),
            state.spec_use_action(action, Condition::Normal, self.settings()).unwrap(),
            bound,
        )
        &&& bound > self.best_quality()
        &&& forall|a: Action| #[trigger]
            completing(state, a, self.settings()) ==> bound > self.completed_quality(state, a)
    }

    /// A node that holds what `action` leads to from `state`, with `moves`
    /// and that move recorded for it, waits in the queue or is dominated
    /// there.
    pub open spec fn successor_covered(
        &self,
        state: SimulationState,
        moves: Seq<Action>,
        action: Action,
    ) -> bool {
        exists|m: SearchNode| #[trigger]
            self.covered(m) && state.spec_use_action(action, Condition::Normal, self.settings())
                == Ok::<SimulationState, crate::state::ActionError>(m.state) && self.moves_of(m)
                == moves.push(action)
    }

    /// `self` is what expanding `node` makes of `before`: unless the way to
    /// the node could not be recorded, the best macro is at least as good as
    /// every macro that one move from the node completes; the best macro is
    /// the one before or such a macro; the queue has gained only nodes
    /// that one move from the node leads to; every move from the node that
    /// leads to a craft that goes on and whose bound is out of reach of the
    /// best macros has its node waiting or dominated afterwards; and what
    /// the queue covered it still covers.
    pub open spec fn expanded(&self, before: &MacroSolver, node: SearchNode) -> bool {
        &&& node.trace is None || before.has_room() ==> self.keeps_best_of(
            node.state,
            before.moves_of(node),
        )
        &&& self.best_comes_from(before, node.state, before.moves_of(node))
        &&& forall|m: SearchNode| #[trigger]
            self.queued(m) ==> before.queued(m) || self.follows(
                node.state,
                before.moves_of(node),
                m,
            )
        &&& node.trace is None || before.has_room() ==> forall|a: Action, bound: u16| #[trigger]
            before.promising(node.state, a, bound) ==> self.successor_covered(
                node.state,
                before.moves_of(node),
                a,
            )
        &&& forall|m: SearchNode| #[trigger] before.covered(m) ==> self.covered(m)
    }

    /// Of two nodes of one class (combo, durability and effects) that were
    /// expanded, the one that came first has not both at least the progress
    /// and at least the quality of the one that came later.
    pub proof fn lemma_expanded_in_order(&self, i: int, j: int)
        requires
            self.wf(),
            0 <= i < j < self.expanded_nodes().len(),
            spec_pareto_key(self.expanded_nodes()[i].state) == spec_pareto_key(
                self.expanded_nodes()[j].state,
            ),
        ensures
            !node_dominates(self.expanded_nodes()[i], self.expanded_nodes()[j]),
    {
        self.queue.lemma_out_in_order(i, j);
    }

    /// When nothing is left to expand, every node that ever waited or was
    /// turned away for a better one has been expanded, or a node of its
    /// class with at least its progress and its quality has.
    pub proof fn lemma_drained_has_expanded(&self, m: SearchNode)
        requires
            self.wf(),
            self.drained(),
            self.covered(m),
        ensures
            exists|h: SearchNode| self.expanded_nodes().contains(h) && #[trigger] outclasses(h, m),
    {
        self.queue.lemma_drained_has_served(m);
    }

    /// Every node that waits was reached by the moves that are recorded
    /// for it: made from the initial state, in the order in which the arena
    /// reads them back, they give the state of the node.
    pub proof fn lemma_queued_nodes_are_reached(&self, node: SearchNode)
        requires
            self.wf(),
            self.queued(node),
        ensures
            self.initial().spec_replay(self.moves_of(node), self.settings()) == Ok::<
                SimulationState,
                crate::state::ActionError,
            >(node.state),
            node.state.effects.valid(),
    {
        assert(self.is_reached(node));
    }

    /// The best macro, if one was found, fills the progress bar when it is
    /// made from the initial state, and the quality and the score kept for
    /// it are those of the state it leads to.
    pub open spec fn best_is_replayable(&self) -> bool {
        self.found() ==> completes(self.initial(), self.best(), self.settings())
            && self.best_quality() == self.initial().spec_replay(
            self.best(),
            self.settings(),
        ).unwrap().spec_get_quality() && self.best_score() == spec_score_of(
            self.initial(),
            self.best(),
            self.settings(),
        )
    }

    /// A well-formed search keeps a best macro that can be replayed.
    pub proof fn lemma_best_is_replayable(&self)
        requires
            self.wf(),
        ensures
            self.best_is_replayable(),
            !self.found() ==> self.best().len() == 0,
    {
    }

    /// The moves that led to a node.
    pub closed spec fn moves_of(&self, node: SearchNode) -> Seq<Action> {
        moves_in(self.arena, node)
    }

    /// The arena knows the way to the node, and the moves on it, made
    /// from the initial state, give the state of the node.
    pub closed spec fn is_reached(&self, node: SearchNode) -> bool {
        &&& node.state.effects.valid()
        &&& node.trace matches Some(trace) ==> trace.parent == SENTINEL || trace.parent
            < self.arena@.len()
        &&& self.initial.spec_replay(self.moves_of(node), self.settings) == Ok::<
            SimulationState,
            crate::state::ActionError,
        >(node.state)
    }

    /// The parts are well-formed, every node that waits was reached by the
    /// moves recorded for it, and the best macro found fills the progress
    /// bar and has the quality and the score that are kept for it.
    pub closed spec fn wf(&self) -> bool {
        &&& self.settings.valid()
        &&& self.initial.effects.valid()
        &&& self.bound_solver.wf()
        &&& self.queue.wf()
        &&& self.arena.wf()
        &&& forall|node: SearchNode| #[trigger] self.queue.contains(node) ==> self.is_reached(node)
        &&& self.found ==> completes(self.initial, self.best_actions@, self.settings)
            && self.best_quality == self.initial.spec_replay(
            self.best_actions@,
            self.settings,
        ).unwrap().spec_get_quality() && self.best_score == spec_score_of(
            self.initial,
            self.best_actions@,
            self.settings,
        )
        &&& !self.found ==> self.best_actions@.len() == 0 && self.best_quality == 0
    }

    /// A search that sets out from `initial`.
    pub fn new(settings: Settings, initial: SimulationState) -> (r: MacroSolver)
        requires
            settings.valid(),
            initial.effects.valid(),
        ensures
            r.wf(),
            r.settings() == settings,
            r.initial() == initial,
            !r.found(),
            r.best().len() == 0,
            r.expanded_nodes().len() == 0,
            forall|node: SearchNode| #[trigger]
                r.queued(node) <==> !initial.spec_is_final(settings) && node == (SearchNode {
                    state: initial,
                    trace: None,
                }),
            forall|node: SearchNode|
                #![trigger r.seen_dominates(node)]
                #![trigger r.queued(node)]
                !r.seen_dominates(node) || (initial.cp < 0 || initial.cp > settings.max_cp),
            forall|node: SearchNode|
                #![trigger r.is_ready(node)]
                #![trigger r.queued(node)]
                r.is_ready(node) <==> r.queued(node) && (initial.cp < 0 || initial.cp
                    > settings.max_cp),
    {
        let mut queue = SearchQueue::new(settings);
        let ghost empty = queue;
        let root = SearchNode { state: initial, trace: None };
        if !initial.is_final(&settings) {
            queue.push(root);
        }
        let solver = MacroSolver {
            settings,
            initial,
            bound_solver: QualityUpperBoundSolver::new(settings),
            queue,
            arena: Backtracking::new(),
            found: false,
            best_actions: Vec::new(),
            best_score: Score { quality: 0, duration: 0, steps: 0, quality_overflow: 0 },
            best_quality: 0,
        };
        proof {
            assert forall|node: SearchNode| #[trigger]
                solver.queue.contains(node) implies solver.is_reached(node) by {
                assert(!empty.contains(node)) by {
                    assert(empty.ready().len() == 0);
                    assert(!empty.waiting(node));
                }
                assert(node == root);
                assert(solver.moves_of(node) =~= Seq::<Action>::empty());
            }
            assert forall|node: SearchNode| !empty.contains(node) by {
                assert(empty.ready().len() == 0);
                assert(!empty.waiting(node));
            }
            if !initial.spec_is_final(settings) {
                if 0 <= initial.cp < empty.bucket_count() {
                    assert(!empty.blocked(root)) by {
                        if empty.blocked(root) {
                            let m = choose|m: SearchNode| #[trigger]
                                empty.waiting_at(root.state.cp as int, m)
                                    && crate::search_queue::spec_pareto_key(m.state)
                                    == crate::search_queue::spec_pareto_key(root.state)
                                    && crate::search_queue::node_dominates(m, root);
                            assert(empty.waiting(m));
                        }
                    }
                    assert(solver.queue.waiting_at(initial.cp as int, root));
                    assert(solver.queue.waiting(root));
                } else {
                    assert(!empty.seen_dominates(root)) by {
                        assert(empty.seen(crate::search_queue::spec_pareto_key(root.state))
                            == Set::<crate::search_queue::QueueValue>::empty());
                    }
                    assert(solver.queue.ready() == empty.ready().push(root));
                    assert(solver.queue.ready()[0] == root);
                }
                assert(solver.queue.contains(root));
            }
        }
        solver
    }

    /// The best macro found so far; empty if none was found.
    pub fn best_actions(&self) -> (r: &Vec<Action>)
        ensures
            r@ == self.best(),
    {
        &self.best_actions
    }

    /// Whether a macro that fills the progress bar was found.
    pub fn has_solution(&self) -> (r: bool)
        ensures
            r == self.found(),
    {
        self.found
    }

    /// Whether nothing is left to expand.
    pub fn is_finished(&self) -> (r: bool)
        ensures
            r == self.drained(),
    {
        self.queue.is_drained()
    }

    /// One step of the search: the next node is taken from the queue and
    /// every allowed move is tried on it. A move that fills the progress
    /// bar gives a macro, which is kept if its score beats the best so far;
    /// a move after which the craft goes on gives a node, which waits in
    /// the queue unless the quality that can still be made from it is at
    /// most the quality of the best macro.
    pub fn step(&mut self) -> (r: SearchStatus)
        requires
            old(self).wf(),
        ensures
            final(self).wf(),
            final(self).settings() == old(self).settings(),
            final(self).initial() == old(self).initial(),
            old(self).found() ==> final(self).found(),
            final(self).found() ==> completes(
                final(self).initial(),
                final(self).best(),
                final(self).settings(),
            ),
            r == SearchStatus::Finished ==> final(self).drained() && final(self).best() == old(self).best(),
            old(self).drained() ==> r == SearchStatus::Finished,
            final(self).best_is_replayable(),
            final(self).buckets_left() <= old(self).buckets_left(),
            r == SearchStatus::Working ==> final(self).best() == old(self).best(),
            r == SearchStatus::Improved ==> final(self).found() && (old(self).found()
                ==> final(self).best_score().beats(old(self).best_score())),
            r != SearchStatus::Finished ==> exists|node: SearchNode| #[trigger]
                old(self).queued(node) && final(self).expanded(old(self), node),
            r != SearchStatus::Finished ==> final(self).expanded_nodes().len() > 0 && old(
                self,
            ).queued(final(self).expanded_nodes().last()) && final(self).expanded(
                old(self),
                final(self).expanded_nodes().last(),
            ) && final(self).expanded_nodes().drop_last() == old(self).expanded_nodes(),
            r == SearchStatus::Finished ==> final(self).expanded_nodes() == old(
                self,
            ).expanded_nodes(),
            r == SearchStatus::Finished ==> forall|m: SearchNode| #[trigger]
                old(self).queued(m) ==> old(self).seen_dominates(m) && !old(self).is_ready(m),
            final(self).bound_context() == old(self).bound_context(),
            forall|m: SearchNode| #[trigger] old(self).covered(m) ==> final(self).covered(m),
    {
        proof {
            if self.drained() {
                self.queue.lemma_drained_is_empty();
            }
        }
        match self.queue.pop() {
            None => {
                proof {
                    assert forall|m: SearchNode| #[trigger] old(self).queued(m) implies old(self).seen_dominates(m)
                        && !old(self).is_ready(m) by {
                        assert(old(self).queue.waiting(m));
                    }
                }
                SearchStatus::Finished
            },
            Some(node) => {
                let ghost popped = *self;
                let r = self.expand(node);
                proof {
                    assert(popped.moves_of(node) == old(self).moves_of(node));
                    assert(popped.has_room() == old(self).has_room());
                    assert(popped.best() == old(self).best());
                    assert(old(self).queued(node));
                    assert forall|a: Action, bound: u16| #[trigger]
                        old(self).promising(node.state, a, bound) implies popped.promising(
                        node.state,
                        a,
                        bound,
                    ) by {}
                    assert(self.expanded(&popped, node));
                    assert forall|m: SearchNode| #[trigger] old(self).covered(m) implies self.covered(
                        m,
                    ) by {
                        assert(popped.covered(m));
                    }
                    assert forall|m: SearchNode| #[trigger] self.queued(m) implies old(self).queued(
                        m,
                    ) || self.follows(node.state, old(self).moves_of(node), m) by {
                    }
                    if node.trace is None || old(self).has_room() {
                        assert forall|a: Action, bound: u16| #[trigger]
                            old(self).promising(
                                node.state,
                                a,
                                bound,
                            ) implies self.successor_covered(
                            node.state,
                            old(self).moves_of(node),
                            a,
                        ) by {
                            assert(popped.promising(node.state, a, bound));
                        }
                    }
                    assert(self.expanded(old(self), node));
                    assert(self.expanded_nodes() == old(self).expanded_nodes().push(node));
                    assert(self.expanded_nodes().drop_last() =~= old(self).expanded_nodes());
                }
                r
            },
        }
    }

    /// Lets the node of a craft that goes on wait in the queue, unless the
    /// quality that can still be made from it is at most the quality of
    /// the best macro.
    fn offer(&mut self, child: SimulationState, trace: SearchTrace)
        requires
            old(self).wf(),
            child.effects.valid(),
            trace.parent == SENTINEL || trace.parent < old(self).arena@.len(),
            old(self).initial.spec_replay(trace.spec_actions(&old(self).arena), old(self).settings)
                == Ok::<SimulationState, crate::state::ActionError>(child),
        ensures
            final(self).wf(),
            final(self).settings == old(self).settings,
            final(self).initial == old(self).initial,
            final(self).arena == old(self).arena,
            final(self).found == old(self).found,
            final(self).best_actions == old(self).best_actions,
            final(self).best_score == old(self).best_score,
            final(self).best_quality == old(self).best_quality,
            final(self).queue.bucket_count() == old(self).queue.bucket_count(),
            final(self).queue.handed_out() == old(self).queue.handed_out(),
            final(self).bound_solver.context() == old(self).bound_solver.context(),
            forall|m: SearchNode| #[trigger]
                final(self).queue.contains(m) ==> old(self).queue.contains(m) || m == (SearchNode {
                    state: child,
                    trace: Some(trace),
                }),
            forall|m: SearchNode| #[trigger]
                old(self).queue.covers(m) ==> final(self).queue.covers(m),
            forall|bound: u16| #[trigger]
                is_bound(old(self).bound_solver.context(), child, bound) && bound > old(self).best_quality ==> final(self).queue.covers(
                    SearchNode { state: child, trace: Some(trace) },
                ),
    {
        let bound = self.bound_solver.quality_upper_bound(child);
        proof {
            assert forall|b: u16| #[trigger]
                is_bound(old(self).bound_solver.context(), child, b) implies b == bound by {
                lemma_bound_unique(old(self).bound_solver.context(), child, b, bound);
            }
        }
        if bound > self.best_quality {
            let ghost queue_before = self.queue;
            let successor = SearchNode { state: child, trace: Some(trace) };
            self.queue.push(successor);
            proof {
                assert forall|m: SearchNode| #[trigger]
                    self.queue.contains(m) implies self.is_reached(m) by {
                    if queue_before.contains(m) {
                        assert(old(self).is_reached(m));
                    } else {
                        assert(m == successor);
                    }
                }
            }
        }
    }

    /// Keeps `candidate`, which fills the progress bar with the quality
    /// `quality`, as the best macro if its score beats the best so far.
    /// Returns whether it was kept.
    fn consider(&mut self, candidate: Vec<Action>, quality: u16) -> (kept: bool)
        requires
            old(self).wf(),
            completes(old(self).initial, candidate@, old(self).settings),
            quality == old(self).initial.spec_replay(
                candidate@,
                old(self).settings,
            ).unwrap().spec_get_quality(),
        ensures
            final(self).wf(),
            final(self).settings == old(self).settings,
            final(self).initial == old(self).initial,
            final(self).arena == old(self).arena,
            final(self).queue == old(self).queue,
            final(self).bound_solver.context() == old(self).bound_solver.context(),
            final(self).found,
            kept == (!old(self).found || spec_score_of(
                old(self).initial,
                candidate@,
                old(self).settings,
            ).beats(old(self).best_score)),
            kept ==> final(self).best_actions@ == candidate@ && final(self).best_quality == quality
                && final(self).best_score == spec_score_of(
                old(self).initial,
                candidate@,
                old(self).settings,
            ),
            !kept ==> final(self).best_actions == old(self).best_actions && final(self).best_quality
                == old(self).best_quality && final(self).best_score == old(self).best_score,
    {
        let steps: u8 = saturate_len(candidate.len());
        let score = Score::new(quality, duration(&candidate), steps, &self.settings);
        let better = if self.found {
            score.is_better_than(&self.best_score)
        } else {
            true
        };
        if better {
            self.best_actions = candidate;
            self.best_score = score;
            self.best_quality = quality;
            self.found = true;
        }
        better
    }

    /// Tries every allowed move on `node`.
    fn expand(&mut self, node: SearchNode) -> (r: SearchStatus)
        requires
            old(self).wf(),
            old(self).is_reached(node),
        ensures
            final(self).wf(),
            final(self).settings() == old(self).settings(),
            final(self).initial() == old(self).initial(),
            old(self).found() ==> final(self).found(),
            final(self).buckets_left() == old(self).buckets_left(),
            r != SearchStatus::Finished,
            r == SearchStatus::Working ==> final(self).best() == old(self).best(),
            r == SearchStatus::Improved ==> final(self).found() && (old(self).found()
                ==> final(self).best_score().beats(old(self).best_score())),
            final(self).expanded(old(self), node),
            final(self).expanded_nodes() == old(self).expanded_nodes(),
            final(self).bound_context() == old(self).bound_context(),
    {
        let ghost moves = self.moves_of(node);
        let index = match node.trace {
            None => SENTINEL,
            Some(trace) => {
                if !self.arena.has_room() {
                    return SearchStatus::Working;
                }
                let ghost arena_before = self.arena;
                let index = self.arena.push(trace.action, trace.parent);
                proof {
                    assert forall|m: SearchNode| #[trigger]
                        self.queue.contains(m) implies self.is_reached(m) by {
                        assert(old(self).is_reached(m));
                        match m.trace {
                            None => {},
                            Some(t) => {
                                assert(self.arena.path(t.parent) == arena_before.path(t.parent));
                            },
                        }
                    }
                }
                index
            },
        };
        assert(self.arena.path(index) == moves);
        let ghost arena = self.arena;
        let actions = self.settings.allowed_actions.actions_iter();
        let mut improved = false;
        let mut i: usize = 0;
        while i < actions.len()
            invariant
                i <= actions.len(),
                self.wf(),
                self.arena == arena,
                self.settings == old(self).settings,
                self.initial == old(self).initial,
                self.queue.bucket_count() == old(self).queue.bucket_count(),
                self.queue.handed_out() == old(self).queue.handed_out(),
                self.bound_solver.context() == old(self).bound_solver.context(),
                node.state.effects.valid(),
                index == SENTINEL || index < self.arena@.len(),
                self.arena.path(index) == moves,
                self.initial.spec_replay(moves, self.settings) == Ok::<
                    SimulationState,
                    crate::state::ActionError,
                >(node.state),
                old(self).found ==> self.found,
                improved ==> self.found && (old(self).found ==> self.best_score.beats(
                    old(self).best_score,
                )),
                !improved ==> self.best_actions@ == old(self).best_actions@ && self.best_score
                    == old(self).best_score && self.found == old(self).found && self.best_quality
                    == old(self).best_quality,
                forall|j: int|
                    0 <= j < i && completing(node.state, #[trigger] actions@[j], self.settings)
                        ==> self.found && !spec_score_of(
                        self.initial,
                        moves.push(actions@[j]),
                        self.settings,
                    ).beats(self.best_score),
                self.best_comes_from(old(self), node.state, moves),
                self.best_quality == old(self).best_quality || exists|a: Action| #[trigger]
                    completing(node.state, a, self.settings) && self.best_quality
                        == self.completed_quality(node.state, a),
                forall|m: SearchNode| #[trigger]
                    self.queue.contains(m) ==> old(self).queue.contains(m) || follows_in(
                        arena,
                        self.settings,
                        node.state,
                        moves,
                        m,
                    ),
                forall|m: SearchNode| #[trigger] old(self).queue.covers(m) ==> self.queue.covers(m),
                forall|j: int, bound: u16|
                    0 <= j < i && #[trigger] old(self).promising(node.state, actions@[j], bound)
                        ==> self.queue.covers(successor_of(node.state, index, actions@[j], self.settings)),
            decreases actions.len() - i,
        {
            let action = actions[i];
            let ghost before = *self;
            i += 1;
            let outcome = node.state.use_action(action, Condition::Normal, &self.settings);
            if outcome.is_err() {
                continue ;
            }
            let child = outcome.unwrap();
            let trace = SearchTrace { parent: index, action };
            proof {
                lemma_replay_push(self.initial, moves, action, self.settings);
            }
            if child.is_final(&self.settings) {
                if is_complete(&child, &self.settings) {
                    let candidate = trace.actions(&self.arena);
                    assert(completing(node.state, action, self.settings));
                    let kept = self.consider(candidate, child.get_quality());
                    proof {
                        if kept {
                            assert(self.best() == moves.push(action));
                            assert(self.best_quality == self.completed_quality(node.state, action));
                            if improved && old(self).found {
                                crate::score::lemma_beats_transitive(
                                    old(self).best_score,
                                    before.best_score,
                                    self.best_score,
                                );
                            }
                            assert forall|j: int|
                                0 <= j < i && completing(
                                    node.state,
                                    #[trigger] actions@[j],
                                    self.settings,
                                ) implies !spec_score_of(
                                self.initial,
                                moves.push(actions@[j]),
                                self.settings,
                            ).beats(self.best_score) by {
                                if j < i - 1 {
                                    crate::score::lemma_not_beaten_stays(
                                        spec_score_of(
                                            self.initial,
                                            moves.push(actions@[j]),
                                            self.settings,
                                        ),
                                        before.best_score,
                                        self.best_score,
                                    );
                                }
                            }
                        }
                    }
                    proof {
                        if !kept {
                            assert(self.best() == before.best());
                            if before.best() != old(self).best() {
                                let a = choose|a: Action| #[trigger]
                                    completing(node.state, a, before.settings()) && before.best()
                                        == moves.push(a);
                                assert(completing(node.state, a, self.settings()) && self.best()
                                    == moves.push(a));
                            }
                        }
                        assert(self.best_comes_from(old(self), node.state, moves));
                    }
                    if kept {
                        improved = true;
                    }
                }
            } else {
                self.offer(child, trace);
                proof {
                    let successor = SearchNode { state: child, trace: Some(trace) };
                    assert(successor == successor_of(node.state, index, action, self.settings));
                    assert(follows_in(arena, self.settings, node.state, moves, successor));
                    assert forall|bound: u16| #[trigger]
                        old(self).promising(node.state, action, bound) implies self.queue.covers(
                        successor,
                    ) by {
                        assert(is_bound(before.bound_solver.context(), child, bound));
                        if before.best_quality != old(self).best_quality {
                            let a = choose|a: Action| #[trigger]
                                completing(node.state, a, before.settings) && before.best_quality
                                    == before.completed_quality(node.state, a);
                            assert(bound > old(self).completed_quality(node.state, a));
                        }
                        assert(bound > before.best_quality);
                    }
                    assert(self.best() == before.best());
                    if before.best() != old(self).best() {
                        let a = choose|a: Action| #[trigger]
                            completing(node.state, a, before.settings()) && before.best()
                                == moves.push(a);
                        assert(completing(node.state, a, self.settings()) && self.best()
                            == moves.push(a));
                    }
                    assert(self.best_comes_from(old(self), node.state, moves));
                }
            }
        }
        proof {
            assert forall|a: Action| #[trigger]
                completing(node.state, a, self.settings) implies self.found && !spec_score_of(
                self.initial,
                moves.push(a),
                self.settings,
            ).beats(self.best_score) by {
                if !self.settings.allowed_actions.spec_has(a) {
                    crate::state::lemma_not_allowed_is_rejected(
                        node.state,
                        a,
                        Condition::Normal,
                        self.settings,
                    );
                }
                assert(actions@.contains(a));
                let j = choose|j: int| 0 <= j < actions@.len() && actions@[j] == a;
                assert(completing(node.state, actions@[j], self.settings));
            }
            assert forall|m: SearchNode| old(self).queued(m) implies self.moves_of(m) == old(self).moves_of(m) by {
                assert(old(self).is_reached(m));
            }
            assert forall|m: SearchNode| #[trigger] self.queued(m) implies old(self).queued(m)
                || self.follows(node.state, moves, m) by {
                if !old(self).queue.contains(m) {
                    assert(follows_in(arena, self.settings, node.state, moves, m));
                    let a = choose|a: Action| #[trigger]
                        node.state.spec_use_action(a, Condition::Normal, self.settings) == Ok::<
                            SimulationState,
                            crate::state::ActionError,
                        >(m.state) && !m.state.spec_is_final(self.settings) && moves_in(arena, m)
                            == moves.push(a);
                    assert(self.moves_of(m) == moves.push(a));
                }
            }
            assert forall|a: Action, bound: u16| #[trigger]
                old(self).promising(node.state, a, bound) implies self.successor_covered(
                node.state,
                moves,
                a,
            ) by {
                if !self.settings.allowed_actions.spec_has(a) {
                    crate::state::lemma_not_allowed_is_rejected(
                        node.state,
                        a,
                        Condition::Normal,
                        self.settings,
                    );
                }
                assert(actions@.contains(a));
                let j = choose|j: int| 0 <= j < actions@.len() && actions@[j] == a;
                assert(old(self).promising(node.state, actions@[j], bound));
                let m = successor_of(node.state, index, a, self.settings);
                assert(self.covered(m));
                assert(self.moves_of(m) == moves.push(a));
            }
        }
        if improved {
            SearchStatus::Improved
        } else {
            SearchStatus::Working
        }
    }

    /// The best macro is the one of `before`, or a macro was found whose
    /// score beats the one of `before`.
    pub open spec fn best_kept_or_beaten(&self, before: &MacroSolver) -> bool {
        self.best() == before.best() || (self.found() && (before.found()
            ==> self.best_score().beats(before.best_score())))
    }

    /// Nothing has been done since `before`: the best macro, the queue and
    /// the amounts to serve are the same.
    pub open spec fn same_search_as(&self, before: &MacroSolver) -> bool {
        &&& self.found() == before.found()
        &&& self.best() == before.best()
        &&& self.best_score() == before.best_score()
        &&& self.buckets_left() == before.buckets_left()
        &&& self.drained() == before.drained()
        &&& forall|m: SearchNode| self.queued(m) == before.queued(m)
    }

    /// The first step since `before` expanded a node that waited, and the
    /// best macro is at least as good as every macro that one move from
    /// that node completes (unless the way to the node could not be
    /// recorded).
    pub open spec fn first_expansion_kept(&self, before: &MacroSolver) -> bool {
        exists|node: SearchNode| #[trigger]
            before.queued(node) && (node.trace is None || before.has_room()
                ==> self.keeps_best_of(node.state, before.moves_of(node)))
    }

    /// Runs the search for at most `max_steps` steps, one after the other,
    /// and stops early when a step finds nothing left to expand. Returns
    /// whether nothing is left to expand. With no step allowed nothing
    /// changes. Else, unless the very first step found nothing to expand, a
    /// node that waited was expanded and the best macro at the end is at
    /// least as good as what one move from that node completes. The best
    /// macro at the end is the one from before or one of a better score.
    /// Unless nothing is left to expand, every step that was allowed
    /// expanded a node.
    pub fn run(&mut self, max_steps: u64) -> (finished: bool)
        requires
            old(self).wf(),
        ensures
            final(self).wf(),
            final(self).settings() == old(self).settings(),
            final(self).initial() == old(self).initial(),
            old(self).found() ==> final(self).found(),
            final(self).found() ==> completes(
                final(self).initial(),
                final(self).best(),
                final(self).settings(),
            ),
            final(self).best_is_replayable(),
            finished == final(self).drained(),
            final(self).buckets_left() <= old(self).buckets_left(),
            final(self).best_kept_or_beaten(old(self)),
            max_steps == 0 ==> final(self).same_search_as(old(self)),
            max_steps > 0 ==> (final(self).drained() && final(self).best() == old(self).best())
                || final(self).first_expansion_kept(old(self)),
            final(self).bound_context() == old(self).bound_context(),
            forall|m: SearchNode| #[trigger] old(self).covered(m) ==> final(self).covered(m),
            finished ==> forall|m: SearchNode| #[trigger]
                old(self).queued(m) ==> final(self).seen_dominates(m),
            final(self).expanded_nodes().len() <= old(self).expanded_nodes().len() + max_steps,
            finished || final(self).expanded_nodes().len() == old(self).expanded_nodes().len()
                + max_steps,
            final(self).expanded_nodes().take(old(self).expanded_nodes().len() as int) == old(
                self,
            ).expanded_nodes(),
    {
        let mut left = max_steps;
        let ghost mut first: Option<SearchNode> = None;
        proof {
            self.lemma_best_is_replayable();
            assert(self.expanded_nodes().take(self.expanded_nodes().len() as int)
                =~= self.expanded_nodes());
        }
        while left > 0
            invariant
                self.wf(),
                self.settings == old(self).settings,
                self.initial == old(self).initial,
                old(self).wf(),
                old(self).found ==> self.found,
                self.buckets_left() <= old(self).buckets_left(),
                self.best_kept_or_beaten(old(self)),
                left <= max_steps,
                first is None <==> left == max_steps,
                first is None ==> *self == *old(self),
                first matches Some(node) ==> old(self).queued(node) && (node.trace is None || old(self).has_room() ==> self.keeps_best_of(node.state, old(self).moves_of(node))),
                self.bound_context() == old(self).bound_context(),
                forall|m: SearchNode| #[trigger] old(self).covered(m) ==> self.covered(m),
                self.expanded_nodes().len() == old(self).expanded_nodes().len() + (max_steps
                    - left),
                self.expanded_nodes().take(old(self).expanded_nodes().len() as int) == old(
                    self,
                ).expanded_nodes(),
            decreases left,
        {
            left -= 1;
            let ghost before = *self;
            let r = self.step();
            proof {
                if r != SearchStatus::Finished {
                    assert(self.expanded_nodes().take(old(self).expanded_nodes().len() as int)
                        =~= self.expanded_nodes().drop_last().take(
                        old(self).expanded_nodes().len() as int,
                    ));
                }
                before.lemma_best_is_replayable();
                old(self).lemma_best_is_replayable();
                self.lemma_best_is_replayable();
                // the score follows the best macro, and a better one beats what the old one beat
                if r == SearchStatus::Improved {
                    if old(self).found() && before.best() != old(self).best() {
                        crate::score::lemma_beats_transitive(
                            old(self).best_score(),
                            before.best_score(),
                            self.best_score(),
                        );
                    }
                } else {
                    assert(self.best() == before.best());
                }
                assert(self.best_kept_or_beaten(old(self)));
                match first {
                    None => {
                        if r != SearchStatus::Finished {
                            let node = choose|node: SearchNode| #[trigger]
                                before.queued(node) && self.expanded(&before, node);
                            first = Some(node);
                        }
                    },
                    Some(node) => {
                        let moves = old(self).moves_of(node);
                        if node.trace is None || old(self).has_room() {
                            assert forall|a: Action| #[trigger]
                                completing(node.state, a, self.settings()) implies self.found()
                                && !spec_score_of(
                                self.initial(),
                                moves.push(a),
                                self.settings(),
                            ).beats(self.best_score()) by {
                                assert(before.found());
                                if r == SearchStatus::Improved {
                                    crate::score::lemma_not_beaten_stays(
                                        spec_score_of(
                                            self.initial(),
                                            moves.push(a),
                                            self.settings(),
                                        ),
                                        before.best_score(),
                                        self.best_score(),
                                    );
                                }
                            }
                        }
                    },
                }
            }
            match r {
                SearchStatus::Finished => {
                    proof {
                        self.queue.lemma_drained_is_empty();
                        assert forall|m: SearchNode| #[trigger] old(self).queued(m) implies self.seen_dominates(
                            m,
                        ) by {
                            assert(old(self).covered(m));
                        }
                        if first is None {
                            assert(self.drained() && self.best() == old(self).best());
                        } else {
                            assert(self.first_expansion_kept(old(self)));
                        }
                    }
                    return true;
                },
                _ => {},
            }
        }
        proof {
            if max_steps > 0 {
                assert(self.first_expansion_kept(old(self)));
            }
            if self.drained() {
                self.queue.lemma_drained_is_empty();
                assert forall|m: SearchNode| #[trigger] old(self).queued(m) implies self.seen_dominates(
                    m,
                ) by {
                    assert(old(self).covered(m));
                }
            }
        }
        self.queue.is_drained()
    }

    /// How far the search has come: the amounts of crafting points that
    /// have been served, and how many there are.
    pub fn progress(&self) -> (r: (u32, u32))
        requires
            self.wf(),
        ensures
            r.1 == self.settings().max_cp + 1,
            r.0 == (if self.buckets_left() >= r.1 {
                0
            } else {
                r.1 - self.buckets_left()
            }),
    {
        let total: u32 = self.settings.max_cp as u32 + 1;
        let left = self.queue.buckets_left();
        if left as u64 >= total as u64 {
            (0, total)
        } else {
            (total - left as u32, total)
        }
    }
}

/// The score of a macro that fills the progress bar: its quality, its
/// seconds and the number of its moves, the latter two as far as 8 bits
/// hold them.
pub open spec fn spec_score_of(from: SimulationState, actions: Seq<Action>, settings: Settings) -> Score {
    let quality = from.spec_replay(actions, settings).unwrap().spec_get_quality();
    Score {
        quality: if quality <= settings.max_quality {
            quality
        } else {
            settings.max_quality
        },
        duration: spec_saturate(spec_duration(actions)),
        steps: spec_saturate(actions.len()),
        quality_overflow: if quality <= settings.max_quality {
            0
        } else {
            (quality - settings.max_quality) as u16
        },
    }
}

} // verus!
