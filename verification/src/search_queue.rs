use vstd::prelude::*;
use std::collections::HashMap;
use pareto_front::ParetoFront;
use crate::actions::Action;
use crate::backtracking::Backtracking;
use crate::backtracking::SENTINEL;
use crate::reduced_state::combo_code;
use crate::reduced_state::spec_combo_code;
use crate::settings::Settings;
use crate::state::SimulationState;

verus! {

broadcast use vstd::std_specs::hash::group_hash_axioms;

/// How a node was reached: the entry of the arena that stands for the path
/// to its parent (the sentinel for the root), and the move made from there.
#[derive(Debug, Clone, Copy)]
pub struct SearchTrace {
    pub parent: u32,
    pub action: Action,
}

impl SearchTrace {
    /// The moves from the root to the node, in the order in which they
    /// were made.
    pub open spec fn spec_actions(self, arena: &Backtracking<Action>) -> Seq<Action> {
        arena.path(self.parent).push(self.action)
    }

    pub fn actions(self, arena: &Backtracking<Action>) -> (r: Vec<Action>)
        requires
            arena.wf(),
            self.parent == SENTINEL || self.parent < arena@.len(),
        ensures
            r@ == self.spec_actions(arena),
    {
        let mut actions: Vec<Action> = Vec::new();
        self.do_trace(arena, &mut actions);
        let ghost collected = actions@;
        let n = actions.len();
        let mut i: usize = 0;
        let mut j: usize = n;
        while j - i >= 2
            invariant
                n == actions@.len(),
                n == collected.len(),
                i <= j,
                i + j == n,
                forall|x: int| 0 <= x < i ==> actions@[x] == collected[n - 1 - x],
                forall|x: int| j <= x < n ==> actions@[x] == collected[n - 1 - x],
                forall|x: int| i <= x < j ==> actions@[x] == collected[x],
            decreases j - i,
        {
            let low = actions[i];
            let high = actions[j - 1];
            actions.set(i, high);
            actions.set(j - 1, low);
            i += 1;
            j -= 1;
        }
        proof {
            assert(actions@ =~= collected.reverse());
            assert(collected.reverse().reverse() =~= collected);
        }
        actions
    }

    /// Appends the moves from the node back to the root.
    pub fn do_trace(self, arena: &Backtracking<Action>, actions: &mut Vec<Action>)
        requires
            arena.wf(),
            self.parent == SENTINEL || self.parent < arena@.len(),
        ensures
            final(actions)@ == old(actions)@ + self.spec_actions(arena).reverse(),
    {
        let ghost before = actions@;
        actions.push(self.action);
        let mut at = self.parent;
        proof {
            assert(seq![self.action] + arena.path(at).reverse() =~= arena.path(at).push(
                self.action,
            ).reverse());
            assert(actions@ + arena.path(at).reverse() =~= before + self.spec_actions(
                arena,
            ).reverse());
        }
        while at != SENTINEL
            invariant
                arena.wf(),
                at == SENTINEL || at < arena@.len(),
                actions@ + arena.path(at).reverse() == before + self.spec_actions(arena).reverse(),
            decreases
                    (if at == SENTINEL {
                        0
                    } else {
                        at + 1
                    }),
        {
            let entry = arena.entry(at);
            let ghost so_far = actions@;
            actions.push(entry.0);
            proof {
                let rest = arena.path(entry.1);
                assert(arena.path(at) == rest.push(entry.0));
                assert(rest.push(entry.0).reverse() =~= seq![entry.0] + rest.reverse());
                assert(so_far + arena.path(at).reverse() =~= actions@ + rest.reverse());
            }
            at = entry.1;
        }
        proof {
            assert(arena.path(SENTINEL) =~= Seq::<Action>::empty());
            assert(actions@ + Seq::<Action>::empty().reverse() =~= actions@);
        }
    }
}

/// A state that waits to be expanded, with the way that led to it.
#[derive(Debug, Clone, Copy)]
pub struct SearchNode {
    pub state: SimulationState,
    pub trace: Option<SearchTrace>,
}

/// The progress and quality of a node that has been let through.
#[derive(Debug, Clone, Copy, PartialEq, Eq, Structural)]
pub struct QueueValue {
    pub progress: u32,
    pub quality: u16,
}

/// `a` has at least the progress and the quality of `b`.
pub open spec fn node_dominates(a: SearchNode, b: SearchNode) -> bool {
    a.state.progress >= b.state.progress && a.state.spec_get_quality()
        >= b.state.spec_get_quality()
}

/// Whether `a` has at least the progress and the quality of `b`.
pub fn node_dominate(a: &SearchNode, b: &SearchNode) -> (r: bool)
    ensures
        r == node_dominates(*a, *b),
{
    a.state.progress >= b.state.progress && a.state.get_quality() >= b.state.get_quality()
}

/// `a` has at least the progress and the quality of `b`.
pub open spec fn value_dominates(a: QueueValue, b: QueueValue) -> bool {
    a.progress >= b.progress && a.quality >= b.quality
}

/// Whether `a` has at least the progress and the quality of `b`.
pub fn value_dominate(a: &QueueValue, b: &QueueValue) -> (r: bool)
    ensures
        r == value_dominates(*a, *b),
{
    a.progress >= b.progress && a.quality >= b.quality
}

impl pareto_front::Dominate for SearchNode {
    fn dominate(&self, other: &Self) -> (r: bool)
        ensures
            r == node_dominates(*self, *other),
    {
        node_dominate(self, other)
    }
}

impl pareto_front::Dominate for QueueValue {
    fn dominate(&self, other: &Self) -> (r: bool)
        ensures
            r == value_dominates(*self, *other),
    {
        value_dominate(self, other)
    }
}

/// The progress and quality of a node.
pub open spec fn spec_value_of(node: SearchNode) -> QueueValue {
    QueueValue { progress: node.state.progress, quality: node.state.spec_get_quality() }
}

fn value_of(node: &SearchNode) -> (r: QueueValue)
    ensures
        r == spec_value_of(*node),
{
    QueueValue { progress: node.state.progress, quality: node.state.get_quality() }
}

/// The class within which nodes are compared: combo, durability and buffs,
/// as one number.
pub open spec fn spec_pareto_key(state: SimulationState) -> u64 {
    (state.effects.spec_bits() + 0x4000_0000 * spec_combo_code(state.combo) + 0x1_0000_0000 * (
    state.durability + 0x80)) as u64
}

pub fn pareto_key(state: &SimulationState) -> (r: u64)
    requires
        state.effects.valid(),
    ensures
        r == spec_pareto_key(*state),
{
    let wear: u64 = (state.durability as i32 + 0x80) as u64;
    state.effects.to_bits() as u64 + 0x4000_0000 * combo_code(state.combo) + 0x1_0000_0000 * wear
}

/// A front of nodes: a `ParetoFront` of `pareto_front`, which keeps of the
/// nodes pushed into it those that no other dominates.
#[verifier::external_body]
pub struct NodeFront {
    front: ParetoFront<SearchNode>,
}

/// A front of values: a `ParetoFront` of `pareto_front`.
#[verifier::external_body]
pub struct ValueFront {
    front: ParetoFront<QueueValue>,
}

/// The nodes that a front holds.
pub uninterp spec fn front_nodes(front: NodeFront) -> Set<SearchNode>;

/// The values that a front holds.
pub uninterp spec fn front_values(front: ValueFront) -> Set<QueueValue>;

/// `ParetoFront::new` of `pareto_front`: a front that holds nothing.
#[verifier::external_body]
fn node_front_new() -> (front: NodeFront)
    ensures
        front_nodes(front) == Set::<SearchNode>::empty(),
{
    NodeFront { front: ParetoFront::new() }
}

/// `ParetoFront::push` of `pareto_front`: the node is refused if a node of
/// the front dominates it, and the front stays as it is; else the nodes
/// that it dominates leave the front and it enters.
#[verifier::external_body]
fn node_front_push(front: &mut NodeFront, node: SearchNode) -> (kept: bool)
    ensures
        kept == !(exists|m: SearchNode| front_nodes(*old(front)).contains(m) && node_dominates(m, node)),
        kept ==> front_nodes(*final(front)) == front_nodes(*old(front)).filter(
            |m: SearchNode| !node_dominates(node, m),
        ).insert(node),
        !kept ==> front_nodes(*final(front)) == front_nodes(*old(front)),
{
    front.front.push(node)
}

/// `Vec::from` on a `ParetoFront` of `pareto_front`: the nodes of the
/// front, in the order in which the front holds them.
#[verifier::external_body]
fn node_front_into_vec(front: NodeFront) -> (nodes: Vec<SearchNode>)
    ensures
        nodes@.to_set() == front_nodes(front),
{
    front.front.into()
}

/// `ParetoFront::new` of `pareto_front`: a front that holds nothing.
#[verifier::external_body]
fn value_front_new() -> (front: ValueFront)
    ensures
        front_values(front) == Set::<QueueValue>::empty(),
{
    ValueFront { front: ParetoFront::new() }
}

/// `ParetoFront::push` of `pareto_front`: the value is refused if a value
/// of the front dominates it, and the front stays as it is; else the values
/// that it dominates leave the front and it enters.
#[verifier::external_body]
fn value_front_push(front: &mut ValueFront, value: QueueValue) -> (kept: bool)
    ensures
        kept == !(exists|v: QueueValue| front_values(*old(front)).contains(v) && value_dominates(v, value)),
        kept ==> front_values(*final(front)) == front_values(*old(front)).filter(
            |v: QueueValue| !value_dominates(value, v),
        ).insert(value),
        !kept ==> front_values(*final(front)) == front_values(*old(front)),
{
    front.front.push(value)
}

/// No node of `nodes` dominates another.
pub open spec fn is_antichain(nodes: Set<SearchNode>) -> bool {
    forall|a: SearchNode, b: SearchNode|
        nodes.contains(a) && nodes.contains(b) && a != b ==> !node_dominates(a, b)
}

/// The nodes that wait with one amount of crafting points, a front of
/// them for each class, and the classes in the order in which they came.
pub struct Bucket {
    keys: Vec<u64>,
    fronts: HashMap<u64, NodeFront>,
}

impl Bucket {
    /// The list of classes names each class of the map once, and in no
    /// class a node that waits dominates another.
    pub closed spec fn wf(&self) -> bool {
        &&& self.keys@.no_duplicates()
        &&& forall|k: u64| self.keys@.contains(k) <==> #[trigger] self.fronts@.contains_key(k)
        &&& forall|k: u64| #[trigger]
            self.fronts@.contains_key(k) ==> is_antichain(front_nodes(self.fronts@[k]))
    }

    /// `node` waits in the class `key`.
    pub closed spec fn holds(&self, key: u64, node: SearchNode) -> bool {
        self.fronts@.contains_key(key) && front_nodes(self.fronts@[key]).contains(node)
    }

    /// Some node of the class `key` that waits dominates `node`.
    pub open spec fn dominated_in(&self, key: u64, node: SearchNode) -> bool {
        exists|m: SearchNode| #[trigger] self.holds(key, m) && node_dominates(m, node)
    }

    pub fn new() -> (r: Bucket)
        ensures
            r.wf(),
            forall|key: u64, node: SearchNode| !r.holds(key, node),
    {
        let r = Bucket { keys: Vec::new(), fronts: HashMap::new() };
        assert(r.keys@ =~= Seq::<u64>::empty());
        r
    }

    /// Lets `node` wait in the class `key`, unless a node that waits there
    /// dominates it; the nodes there that it dominates wait no longer.
    pub fn push(&mut self, key: u64, node: SearchNode) -> (kept: bool)
        requires
            old(self).wf(),
        ensures
            final(self).wf(),
            kept == !old(self).dominated_in(key, node),
            forall|k: u64, m: SearchNode| #[trigger]
                final(self).holds(k, m) <==> (if k == key && kept {
                    m == node || (old(self).holds(k, m) && !node_dominates(node, m))
                } else {
                    old(self).holds(k, m)
                }),
    {
        let ghost before = self.fronts@;
        let existing = self.fronts.remove(&key);
        let mut front = match existing {
            Some(f) => f,
            None => {
                let ghost names = self.keys@;
                self.keys.push(key);
                proof {
                    assert(!names.contains(key));
                    assert forall|i: int, j: int|
                        0 <= i < self.keys@.len() && 0 <= j < self.keys@.len() && i
                            != j implies self.keys@[i] != self.keys@[j] by {
                        if i < names.len() && j < names.len() {
                            assert(names[i] != names[j]);
                        } else if i < names.len() {
                            assert(names.contains(names[i]));
                        } else if j < names.len() {
                            assert(names.contains(names[j]));
                        }
                    }
                    assert forall|k: u64|
                        self.keys@.contains(k) <==> (names.contains(k) || k == key) by {
                        if names.contains(k) {
                            let i = choose|i: int| 0 <= i < names.len() && names[i] == k;
                            assert(self.keys@[i] == k);
                        }
                        if k == key {
                            assert(self.keys@[names.len() as int] == k);
                        }
                        if self.keys@.contains(k) {
                            let i = choose|i: int| 0 <= i < self.keys@.len() && self.keys@[i] == k;
                            if i < names.len() {
                                assert(names[i] == k);
                            }
                        }
                    }
                }
                node_front_new()
            },
        };
        let ghost held = front_nodes(front);
        let kept = node_front_push(&mut front, node);
        self.fronts.insert(key, front);
        proof {
            assert(self.fronts@ == before.insert(key, front));
            assert forall|m: SearchNode| held.contains(m) <==> old(self).holds(key, m) by {}
            assert(kept == !old(self).dominated_in(key, node)) by {
                if old(self).dominated_in(key, node) {
                    let m = choose|m: SearchNode| #[trigger]
                        old(self).holds(key, m) && node_dominates(m, node);
                    assert(held.contains(m));
                } else if !kept {
                    let m = choose|m: SearchNode| held.contains(m) && node_dominates(m, node);
                    assert(old(self).holds(key, m));
                }
            }
            assert forall|k: u64, m: SearchNode| #[trigger]
                self.holds(k, m) <==> (if k == key && kept {
                    m == node || (old(self).holds(k, m) && !node_dominates(node, m))
                } else {
                    old(self).holds(k, m)
                }) by {
                if k != key {
                    assert(self.fronts@.contains_key(k) == before.contains_key(k));
                }
            }
            assert forall|k: u64| self.keys@.contains(k) <==> #[trigger] self.fronts@.contains_key(
                k,
            ) by {}
            assert(is_antichain(held)) by {
                if before.contains_key(key) {
                    assert(old(self).fronts@.contains_key(key));
                }
            }
            assert(is_antichain(front_nodes(front)));
            assert forall|k: u64| #[trigger] self.fronts@.contains_key(k) implies is_antichain(
                front_nodes(self.fronts@[k]),
            ) by {
                if k != key {
                    assert(before.contains_key(k));
                    assert(old(self).fronts@.contains_key(k));
                }
            }
        }
        kept
    }
}

/// The values seen after `value` has been let through: those that it
/// does not dominate, and itself.
pub open spec fn spec_seen_with(values: Set<QueueValue>, value: QueueValue) -> Set<QueueValue> {
    values.filter(|v: QueueValue| !value_dominates(value, v)).insert(value)
}

/// Some value of `values` dominates `w`.
pub open spec fn dominated_by(values: Set<QueueValue>, w: QueueValue) -> bool {
    exists|v: QueueValue| #[trigger] values.contains(v) && value_dominates(v, w)
}

/// `node` stands in `ready` at or after the position `from`.
pub open spec fn let_through(ready: Seq<SearchNode>, from: int, node: SearchNode) -> bool {
    exists|i: int| from <= i < ready.len() && #[trigger] ready[i] == node
}

/// A node of the class of `node` that dominates it stands in `ready` at or
/// after the position `from`.
pub open spec fn let_through_dominates(ready: Seq<SearchNode>, from: int, node: SearchNode) -> bool {
    exists|i: int|
        from <= i < ready.len() && spec_pareto_key((#[trigger] ready[i]).state) == spec_pareto_key(
            node.state,
        ) && node_dominates(ready[i], node)
}

/// A node of the value `v` stands in `ready` at or after the position `from`.
pub open spec fn value_let_through(ready: Seq<SearchNode>, from: int, v: QueueValue) -> bool {
    exists|i: int| from <= i < ready.len() && spec_value_of(#[trigger] ready[i]) == v
}

/// `node` and `m` are of one class, and `node` has at least the progress
/// and the quality of `m`.
pub open spec fn outclasses(node: SearchNode, m: SearchNode) -> bool {
    spec_pareto_key(m.state) == spec_pareto_key(node.state) && node_dominates(node, m)
}

/// Of two different nodes of `ready` in one class neither dominates the
/// other.
#[verifier::opaque]
pub open spec fn is_apart(ready: Seq<SearchNode>) -> bool {
    forall|a: SearchNode, b: SearchNode|
        #![trigger ready.contains(a), ready.contains(b)]
        ready.contains(a) && ready.contains(b) && a != b ==> !outclasses(a, b)
}

/// `ready` without the nodes that `node` outclasses, in their order.
pub open spec fn spec_without_outclassed(ready: Seq<SearchNode>, node: SearchNode) -> Seq<
    SearchNode,
>
    decreases ready.len(),
{
    if ready.len() == 0 {
        ready
    } else {
        let rest = spec_without_outclassed(ready.drop_last(), node);
        if outclasses(node, ready.last()) {
            rest
        } else {
            rest.push(ready.last())
        }
    }
}

/// What is left holds exactly the nodes that were not outclassed, and
/// none of them twice if none stood twice before.
pub proof fn lemma_without_outclassed(ready: Seq<SearchNode>, node: SearchNode)
    ensures
        forall|m: SearchNode| #[trigger]
            spec_without_outclassed(ready, node).contains(m) <==> ready.contains(m) && !outclasses(
                node,
                m,
            ),
        ready.no_duplicates() ==> spec_without_outclassed(ready, node).no_duplicates(),
        spec_without_outclassed(ready, node).len() <= ready.len(),
    decreases ready.len(),
{
    let left = spec_without_outclassed(ready, node);
    if ready.len() == 0 {
    } else {
        let front = ready.drop_last();
        let rest = spec_without_outclassed(front, node);
        let last = ready.last();
        lemma_without_outclassed(front, node);
        assert forall|m: SearchNode| #[trigger] left.contains(m) <==> ready.contains(m)
            && !outclasses(node, m) by {
            if left.contains(m) {
                let x = choose|x: int| 0 <= x < left.len() && left[x] == m;
                if x < rest.len() {
                    assert(rest[x] == m);
                    assert(rest.contains(m));
                    let y = choose|y: int| 0 <= y < front.len() && front[y] == m;
                    assert(ready[y] == m);
                } else {
                    assert(m == last);
                    assert(ready[ready.len() - 1] == m);
                }
            }
            if ready.contains(m) && !outclasses(node, m) {
                let y = choose|y: int| 0 <= y < ready.len() && ready[y] == m;
                if y < front.len() {
                    assert(front[y] == m);
                    assert(front.contains(m));
                    assert(rest.contains(m));
                    let x = choose|x: int| 0 <= x < rest.len() && rest[x] == m;
                    assert(left[x] == m);
                } else {
                    assert(m == last);
                    assert(left[left.len() - 1] == m);
                }
            }
        }
        if ready.no_duplicates() {
            assert(front.no_duplicates());
            if !outclasses(node, last) {
                assert forall|x: int, y: int|
                    0 <= x < left.len() && 0 <= y < left.len() && x != y implies left[x]
                    != left[y] by {
                    if x < rest.len() && y < rest.len() {
                        assert(rest[x] != rest[y]);
                    } else {
                        let inner = if x < rest.len() {
                            x
                        } else {
                            y
                        };
                        assert(rest.contains(rest[inner]));
                        let z = choose|z: int| 0 <= z < front.len() && front[z] == rest[inner];
                        assert(ready[z] != ready[ready.len() - 1]);
                    }
                }
            }
        }
    }
}

/// Of nodes none of which outclasses another, those that are left when
/// some are taken away are such nodes too.
pub proof fn lemma_apart_of_fewer(ready: Seq<SearchNode>, fewer: Seq<SearchNode>)
    requires
        is_apart(ready),
        forall|m: SearchNode| #[trigger] fewer.contains(m) ==> ready.contains(m),
    ensures
        is_apart(fewer),
{
    reveal(is_apart);
}

/// Takes out of `ready` the nodes that `node` outclasses.
fn drop_outclassed(ready: &mut Vec<SearchNode>, key: u64, node: &SearchNode)
    requires
        key == spec_pareto_key(node.state),
        node.state.effects.valid(),
        forall|i: int| 0 <= i < old(ready)@.len() ==> (#[trigger] old(ready)@[i]).state.effects.valid(),
    ensures
        final(ready)@ == spec_without_outclassed(old(ready)@, *node),
{
    let mut kept: Vec<SearchNode> = Vec::new();
    let mut i: usize = 0;
    assert(ready@.take(0) =~= Seq::<SearchNode>::empty());
    while i < ready.len()
        invariant
            i <= ready@.len(),
            ready@ == old(ready)@,
            key == spec_pareto_key(node.state),
            forall|i: int| 0 <= i < ready@.len() ==> (#[trigger] ready@[i]).state.effects.valid(),
            kept@ == spec_without_outclassed(ready@.take(i as int), *node),
        decreases ready@.len() - i,
    {
        let m = ready[i];
        assert(ready@.take(i + 1).drop_last() =~= ready@.take(i as int));
        assert(ready@.take(i + 1).last() == m);
        if !(pareto_key(&m.state) == key && node_dominate(node, &m)) {
            kept.push(m);
        }
        i += 1;
    }
    assert(ready@.take(ready@.len() as int) =~= ready@);
    *ready = kept;
}

/// Lets through, in their order, those of `nodes` whose value no value
/// seen so far dominates, and counts their values as seen. Of nodes none of
/// which dominates another, exactly those are let through that no value
/// seen before the call dominates.
fn admit_all(seen: &mut ValueFront, nodes: &Vec<SearchNode>, ready: &mut Vec<SearchNode>)
    requires
        is_antichain(nodes@.to_set()),
    ensures
        final(ready)@.len() >= old(ready)@.len(),
        final(ready)@.take(old(ready)@.len() as int) == old(ready)@,
        forall|i: int|
            old(ready)@.len() <= i < final(ready)@.len() ==> nodes@.contains(
                #[trigger] final(ready)@[i],
            ) && !dominated_by(front_values(*old(seen)), spec_value_of(final(ready)@[i])),
        forall|w: QueueValue| #[trigger]
            dominated_by(front_values(*old(seen)), w) ==> dominated_by(
                front_values(*final(seen)),
                w,
            ),
        forall|i: int|
            0 <= i < nodes@.len() ==> dominated_by(
                front_values(*final(seen)),
                spec_value_of(#[trigger] nodes@[i]),
            ),
        forall|i: int|
            0 <= i < nodes@.len() && !dominated_by(
                front_values(*old(seen)),
                spec_value_of(#[trigger] nodes@[i]),
            ) ==> let_through(final(ready)@, old(ready)@.len() as int, nodes@[i]),
        forall|v: QueueValue| #[trigger]
            front_values(*final(seen)).contains(v) ==> front_values(*old(seen)).contains(v)
                || value_let_through(final(ready)@, old(ready)@.len() as int, v),
        forall|i: int, j: int|
            old(ready)@.len() <= i < j < final(ready)@.len() ==> #[trigger] final(ready)@[i]
                != #[trigger] final(ready)@[j],
{
    let ghost start = ready@;
    let ghost seen_start = front_values(*seen);
    let mut j: usize = 0;
    assert(ready@.take(start.len() as int) =~= start);
    while j < nodes.len()
        invariant
            j <= nodes.len(),
            is_antichain(nodes@.to_set()),
            ready@.len() >= start.len(),
            ready@.take(start.len() as int) == start,
            forall|i: int|
                start.len() <= i < ready@.len() ==> nodes@.contains(#[trigger] ready@[i])
                    && !dominated_by(seen_start, spec_value_of(ready@[i])),
            forall|w: QueueValue| #[trigger]
                dominated_by(seen_start, w) ==> dominated_by(front_values(*seen), w),
            forall|i: int|
                0 <= i < j ==> dominated_by(
                    front_values(*seen),
                    spec_value_of(#[trigger] nodes@[i]),
                ),
            forall|i: int|
                0 <= i < j && !dominated_by(seen_start, spec_value_of(#[trigger] nodes@[i]))
                    ==> let_through(ready@, start.len() as int, nodes@[i]),
            forall|v: QueueValue| #[trigger]
                front_values(*seen).contains(v) ==> seen_start.contains(v) || exists|i: int|
                    0 <= i < j && v == spec_value_of(#[trigger] nodes@[i]),
            forall|v: QueueValue| #[trigger]
                front_values(*seen).contains(v) ==> seen_start.contains(v) || value_let_through(
                    ready@,
                    start.len() as int,
                    v,
                ),
            forall|i: int|
                start.len() <= i < ready@.len() ==> dominated_by(
                    front_values(*seen),
                    spec_value_of(#[trigger] ready@[i]),
                ),
            forall|a: int, b: int|
                start.len() <= a < b < ready@.len() ==> #[trigger] ready@[a] != #[trigger] ready@[b],
        decreases nodes.len() - j,
    {
        let node = nodes[j];
        let value = value_of(&node);
        let ghost values_before = front_values(*seen);
        let ghost ready_before = ready@;
        let kept = value_front_push(seen, value);
        proof {
            let values = front_values(*seen);
            assert forall|w: QueueValue| #[trigger]
                dominated_by(values_before, w) implies dominated_by(values, w) by {
                let v = choose|v: QueueValue| #[trigger]
                    values_before.contains(v) && value_dominates(v, w);
                if kept {
                    if value_dominates(value, v) {
                        assert(values.contains(value));
                        assert(value_dominates(value, w));
                    } else {
                        assert(values.contains(v));
                    }
                }
            }
            assert(dominated_by(values, value)) by {
                if kept {
                    assert(values.contains(value));
                    assert(value_dominates(value, value));
                } else {
                    let v = choose|v: QueueValue|
                        values_before.contains(v) && value_dominates(v, value);
                    assert(values.contains(v));
                }
            }
            assert forall|v: QueueValue| #[trigger] values.contains(v) implies seen_start.contains(
                v,
            ) || exists|i: int| 0 <= i < j + 1 && v == spec_value_of(#[trigger] nodes@[i]) by {
                if v == value {
                    assert(v == spec_value_of(nodes@[j as int]));
                } else {
                    assert(values_before.contains(v));
                    if !seen_start.contains(v) {
                        let i = choose|i: int|
                            0 <= i < j && v == spec_value_of(#[trigger] nodes@[i]);
                        assert(0 <= i < j + 1 && v == spec_value_of(nodes@[i]));
                    }
                }
            }
        }
        proof {
            assert forall|i: int| start.len() <= i < ready_before.len() implies dominated_by(
                front_values(*seen),
                spec_value_of(#[trigger] ready_before[i]),
            ) by {
                assert(dominated_by(values_before, spec_value_of(ready_before[i])));
            }
        }
        if kept {
            ready.push(node);
            proof {
                assert forall|a: int, b: int|
                    start.len() <= a < b < ready@.len() implies #[trigger] ready@[a]
                    != #[trigger] ready@[b] by {
                    if b == ready_before.len() {
                        assert(ready@[a] == ready_before[a]);
                        assert(dominated_by(values_before, spec_value_of(ready_before[a])));
                    } else {
                        assert(ready_before[a] != ready_before[b]);
                    }
                }
                assert forall|i: int| start.len() <= i < ready@.len() implies dominated_by(
                    front_values(*seen),
                    spec_value_of(#[trigger] ready@[i]),
                ) by {
                    if i < ready_before.len() {
                        assert(ready@[i] == ready_before[i]);
                    }
                }
                assert(ready@[ready_before.len() as int] == node);
                assert(value_let_through(ready@, start.len() as int, value));
                assert(ready@.take(start.len() as int) =~= ready_before.take(start.len() as int));
                assert(nodes@.contains(nodes@[j as int]));
                assert(!dominated_by(seen_start, value));
                assert(ready@[ready_before.len() as int] == node);
                assert(let_through(ready@, start.len() as int, nodes@[j as int]));
            }
        }
        proof {
            assert forall|v: QueueValue| #[trigger]
                front_values(*seen).contains(v) implies seen_start.contains(v)
                || value_let_through(ready@, start.len() as int, v) by {
                if !(kept && v == value) {
                    assert(values_before.contains(v));
                    if !seen_start.contains(v) {
                        assert(value_let_through(ready_before, start.len() as int, v));
                        let x = choose|x: int|
                            start.len() <= x < ready_before.len() && spec_value_of(
                                #[trigger] ready_before[x],
                            ) == v;
                        assert(ready@[x] == ready_before[x]);
                    }
                }
            }
            assert forall|i: int|
                0 <= i < j + 1 && !dominated_by(
                    seen_start,
                    spec_value_of(#[trigger] nodes@[i]),
                ) implies let_through(ready@, start.len() as int, nodes@[i]) by {
                if i < j {
                    assert(let_through(ready_before, start.len() as int, nodes@[i]));
                    let x = choose|x: int|
                        start.len() <= x < ready_before.len() && #[trigger] ready_before[x]
                            == nodes@[i];
                    assert(ready@[x] == nodes@[i]);
                } else if !kept {
                    // what dominates the value was seen before the call, or is the value of a
                    // node that came earlier; the first cannot be, and the second is the node itself
                    let v = choose|v: QueueValue|
                        values_before.contains(v) && value_dominates(v, value);
                    assert(!seen_start.contains(v)) by {
                        if seen_start.contains(v) {
                            assert(dominated_by(seen_start, value));
                        }
                    }
                    let e = choose|e: int| 0 <= e < j && v == spec_value_of(#[trigger] nodes@[e]);
                    assert(node_dominates(nodes@[e], node));
                    assert(nodes@.to_set().contains(nodes@[e]));
                    assert(nodes@.to_set().contains(node));
                    assert(nodes@[e] == node);
                    assert(let_through(ready_before, start.len() as int, nodes@[e]));
                    let x = choose|x: int|
                        start.len() <= x < ready_before.len() && #[trigger] ready_before[x]
                            == nodes@[e];
                    assert(ready@[x] == node);
                }
            }
        }
        j += 1;
    }
}

/// `node` waits in one of the first `count` classes of the bucket.
spec fn held_before(bucket: Bucket, keys: Seq<u64>, count: int, node: SearchNode) -> bool {
    exists|x: int| 0 <= x < count && x < keys.len() && bucket.holds(#[trigger] keys[x], node)
}

/// One class of a bucket has been served: of the nodes of the classes
/// served so far, those are let through that no value seen at the start
/// dominates.
proof fn lemma_served_class(
    queue: SearchQueue,
    served: Bucket,
    keys: Seq<u64>,
    i: int,
    nodes: Seq<SearchNode>,
    values_before: Set<QueueValue>,
    ready_before: Seq<SearchNode>,
    ready: Seq<SearchNode>,
    first: int,
)
    requires
        0 <= i < keys.len(),
        0 <= first <= ready_before.len() <= ready.len(),
        ready.take(ready_before.len() as int) == ready_before,
        values_before == queue.seen(keys[i]),
        forall|m: SearchNode| #[trigger] served.holds(keys[i], m) <==> nodes.to_set().contains(m),
        forall|x: int, m: SearchNode|
            0 <= x < keys.len() && #[trigger] served.holds(keys[x], m) ==> keys[x]
                == spec_pareto_key(m.state),
        forall|m: SearchNode| #[trigger]
            let_through(ready_before, first, m) <==> held_before(served, keys, i, m)
                && !queue.seen_dominates(m),
        forall|p: int|
            ready_before.len() <= p < ready.len() ==> nodes.contains(#[trigger] ready[p])
                && !dominated_by(values_before, spec_value_of(ready[p])),
        forall|y: int|
            0 <= y < nodes.len() && !dominated_by(
                values_before,
                spec_value_of(#[trigger] nodes[y]),
            ) ==> let_through(ready, ready_before.len() as int, nodes[y]),
    ensures
        forall|m: SearchNode| #[trigger]
            let_through(ready, first, m) <==> held_before(served, keys, i + 1, m)
                && !queue.seen_dominates(m),
{
    assert forall|m: SearchNode| #[trigger] let_through(ready, first, m) implies held_before(
        served,
        keys,
        i + 1,
        m,
    ) && !queue.seen_dominates(m) by {
        let p = choose|p: int| first <= p < ready.len() && #[trigger] ready[p] == m;
        if p < ready_before.len() {
            assert(ready.take(ready_before.len() as int)[p] == ready[p]);
            assert(ready_before[p] == m);
            assert(let_through(ready_before, first, m));
            let x = choose|x: int| 0 <= x < i && x < keys.len() && served.holds(#[trigger] keys[x], m);
            assert(0 <= x < i + 1 && served.holds(keys[x], m));
        } else {
            assert(nodes.contains(ready[p]));
            assert(nodes.to_set().contains(m));
            assert(served.holds(keys[i], m));
            assert(keys[i] == spec_pareto_key(m.state));
        }
    }
    assert forall|m: SearchNode|
        held_before(served, keys, i + 1, m) && !queue.seen_dominates(m) implies #[trigger]
        let_through(ready, first, m) by {
        let x = choose|x: int| 0 <= x < i + 1 && x < keys.len() && served.holds(#[trigger] keys[x], m);
        if x < i {
            assert(held_before(served, keys, i, m));
            assert(let_through(ready_before, first, m));
            let p = choose|p: int| first <= p < ready_before.len() && #[trigger] ready_before[p] == m;
            assert(ready.take(ready_before.len() as int)[p] == ready[p]);
            assert(ready[p] == m);
        } else {
            assert(served.holds(keys[i], m));
            assert(keys[i] == spec_pareto_key(m.state));
            assert(nodes.to_set().contains(m));
            let y = choose|y: int| 0 <= y < nodes.len() && nodes[y] == m;
            assert(let_through(ready, ready_before.len() as int, nodes[y]));
            let p = choose|p: int| ready_before.len() <= p < ready.len() && #[trigger] ready[p] == m;
            assert(first <= p);
        }
    }
}

/// The nodes that wait to be expanded. A node waits with the nodes of its
/// amount of crafting points; the amounts are served from the highest down.
/// Within an amount and a class only nodes wait that no other dominates, and
/// a node is let through only if no value let through before in its class
/// dominates it. Of the nodes of one class that are ready none dominates
/// another, and none comes out that one handed out before it dominates; the
/// queue remembers, for its contracts only, the nodes that it handed out.
pub struct SearchQueue {
    current: Vec<SearchNode>,
    buckets: Vec<Bucket>,
    pareto_front: HashMap<u64, ValueFront>,
    handed: Ghost<Seq<SearchNode>>,
}

impl SearchQueue {
    /// The nodes that have been let through and wait to be handed out, the
    /// next one last.
    pub closed spec fn ready(&self) -> Seq<SearchNode> {
        self.current@
    }

    /// The number of amounts of crafting points that have not been served.
    pub closed spec fn bucket_count(&self) -> nat {
        self.buckets@.len()
    }

    /// `node` waits with the nodes of `cp` crafting points.
    pub closed spec fn waiting_at(&self, cp: int, node: SearchNode) -> bool {
        0 <= cp < self.buckets@.len() && self.buckets@[cp].holds(
            spec_pareto_key(node.state),
            node,
        )
    }

    /// `node` waits with some amount.
    pub open spec fn waiting(&self, node: SearchNode) -> bool {
        exists|cp: int| #[trigger] self.waiting_at(cp, node)
    }

    /// `node` is in the queue, waiting or ready.
    pub open spec fn contains(&self, node: SearchNode) -> bool {
        self.ready().contains(node) || self.waiting(node)
    }

    /// The values let through so far in the class `key`, as far as none
    /// that came later dominates them.
    pub closed spec fn seen(&self, key: u64) -> Set<QueueValue> {
        if self.pareto_front@.contains_key(key) {
            front_values(self.pareto_front@[key])
        } else {
            Set::empty()
        }
    }

    /// A value let through in the class of `node` dominates `node`.
    pub open spec fn seen_dominates(&self, node: SearchNode) -> bool {
        dominated_by(self.seen(spec_pareto_key(node.state)), spec_value_of(node))
    }

    /// The nodes that have been handed out, in the order in which they came.
    pub closed spec fn handed_out(&self) -> Seq<SearchNode> {
        self.handed@
    }

    /// A node that is ready outclasses `m`.
    pub open spec fn ready_outclasses(&self, m: SearchNode) -> bool {
        exists|r: SearchNode| self.ready().contains(r) && #[trigger] outclasses(r, m)
    }

    /// A node that has been handed out, or one that is ready, outclasses `m`.
    pub open spec fn came_for(&self, m: SearchNode) -> bool {
        self.ready_outclasses(m) || exists|h: SearchNode|
            self.handed_out().contains(h) && #[trigger] outclasses(h, m)
    }

    /// What holds of the nodes handed out: the value of each counts as
    /// seen, none outclasses one that came out later or one that is ready,
    /// and whatever a seen value dominates, a node handed out or ready
    /// outclasses.
    #[verifier::opaque]
    spec fn served_well(&self) -> bool {
        &&& forall|i: int|
            0 <= i < self.handed@.len() ==> self.seen_dominates(#[trigger] self.handed@[i])
        &&& forall|i: int, j: int|
            #![trigger self.handed@[i], self.handed@[j]]
            0 <= i < j < self.handed@.len() ==> !outclasses(self.handed@[i], self.handed@[j])
        &&& forall|i: int, r: SearchNode|
            #![trigger self.handed@[i], self.current@.contains(r)]
            0 <= i < self.handed@.len() && self.current@.contains(r) ==> !outclasses(
                self.handed@[i],
                r,
            )
        &&& forall|m: SearchNode| #[trigger] self.seen_dominates(m) ==> self.came_for(m)
    }

    /// What a seen value dominates in the class of `h`, it dominates when
    /// `h` is replaced by a node that `h` outclasses.
    proof fn lemma_seen_passes_down(&self, h: SearchNode, m: SearchNode)
        requires
            self.seen_dominates(h),
            outclasses(h, m),
        ensures
            self.seen_dominates(m),
    {
        let v = choose|v: QueueValue| #[trigger]
            self.seen(spec_pareto_key(h.state)).contains(v) && value_dominates(
                v,
                spec_value_of(h),
            );
        assert(value_dominates(v, spec_value_of(m)));
    }

    /// The nodes handed out stay in order when none is handed out, the
    /// seen values dominate no less, only nodes that no seen value
    /// dominated become ready, and a ready node outclasses whatever is
    /// newly dominated or ready no longer.
    proof fn lemma_served_still(&self, after: &SearchQueue)
        requires
            self.sound(),
            self.served_well(),
            after.handed@ == self.handed@,
            forall|m: SearchNode| #[trigger] self.seen_dominates(m) ==> after.seen_dominates(m),
            forall|r: SearchNode| #[trigger]
                after.current@.contains(r) ==> self.current@.contains(r) || !self.seen_dominates(r),
            forall|m: SearchNode| #[trigger]
                after.seen_dominates(m) ==> self.seen_dominates(m) || after.ready_outclasses(m),
            forall|r: SearchNode| #[trigger]
                self.current@.contains(r) ==> after.current@.contains(r) || after.ready_outclasses(
                    r,
                ),
        ensures
            after.served_well(),
    {
        reveal(SearchQueue::served_well);
        let handed = self.handed@;
        assert forall|i: int, r: SearchNode|
            #![trigger after.handed@[i], after.current@.contains(r)]
            0 <= i < handed.len() && after.current@.contains(r) implies !outclasses(
            handed[i],
            r,
        ) by {
            if outclasses(handed[i], r) {
                assert(self.seen_dominates(self.handed@[i]));
                self.lemma_seen_passes_down(handed[i], r);
                assert(self.current@.contains(r));
            }
        }
        assert forall|m: SearchNode| #[trigger] after.seen_dominates(m) implies after.came_for(
            m,
        ) by {
            if self.seen_dominates(m) && !after.ready_outclasses(m) {
                assert(self.came_for(m));
                if self.ready_outclasses(m) {
                    let r = choose|r: SearchNode|
                        self.ready().contains(r) && #[trigger] outclasses(r, m);
                    assert(self.current@.contains(r));
                    if !after.current@.contains(r) {
                        let q = choose|q: SearchNode|
                            after.ready().contains(q) && #[trigger] outclasses(q, r);
                        assert(outclasses(q, m));
                    }
                } else {
                    let h = choose|h: SearchNode|
                        self.handed_out().contains(h) && #[trigger] outclasses(h, m);
                    assert(after.handed_out().contains(h));
                }
            }
        }
    }

    /// The nodes handed out stay in order when the last of the ready nodes
    /// joins them.
    proof fn lemma_served_after_taking(&self, after: &SearchQueue, node: SearchNode)
        requires
            self.sound(),
            is_apart(self.current@),
            self.served_well(),
            self.current@.len() > 0,
            node == self.current@.last(),
            after.current@ == self.current@.drop_last(),
            after.handed@ == self.handed@.push(node),
            forall|m: SearchNode| #[trigger] after.seen_dominates(m) <==> self.seen_dominates(m),
        ensures
            after.served_well(),
    {
        reveal(SearchQueue::served_well);
        reveal(is_apart);
        let handed = self.handed@;
        let last = self.current@.len() - 1;
        assert(self.current@[last] == node);
        assert(self.current@.contains(node));
        assert(self.seen_dominates(self.current@[last]));
        assert forall|r: SearchNode| #[trigger]
            after.current@.contains(r) implies self.current@.contains(r) && r != node by {
            let x = choose|x: int| 0 <= x < after.current@.len() && after.current@[x] == r;
            assert(self.current@[x] == r);
        }
        assert forall|i: int| 0 <= i < after.handed@.len() implies after.seen_dominates(
            #[trigger] after.handed@[i],
        ) by {
            if i < handed.len() {
                assert(self.seen_dominates(self.handed@[i]));
            }
        }
        assert forall|i: int, j: int|
            #![trigger after.handed@[i], after.handed@[j]]
            0 <= i < j < after.handed@.len() implies !outclasses(
            after.handed@[i],
            after.handed@[j],
        ) by {
            if j < handed.len() {
                assert(!outclasses(self.handed@[i], self.handed@[j]));
            } else {
                assert(!outclasses(self.handed@[i], node));
            }
        }
        assert forall|i: int, r: SearchNode|
            #![trigger after.handed@[i], after.current@.contains(r)]
            0 <= i < after.handed@.len() && after.current@.contains(r) implies !outclasses(
            after.handed@[i],
            r,
        ) by {
            if i < handed.len() {
                assert(!outclasses(self.handed@[i], r));
            }
        }
        assert forall|m: SearchNode| #[trigger] after.seen_dominates(m) implies after.came_for(
            m,
        ) by {
            assert(self.came_for(m));
            if self.ready_outclasses(m) {
                let r = choose|r: SearchNode|
                    self.ready().contains(r) && #[trigger] outclasses(r, m);
                if r == node {
                    assert(after.handed@[after.handed@.len() - 1] == node);
                    assert(after.handed_out().contains(node));
                } else {
                    let x = choose|x: int| 0 <= x < self.current@.len() && self.current@[x] == r;
                    assert(after.current@[x] == r);
                    assert(after.ready().contains(r));
                }
            } else {
                let h = choose|h: SearchNode|
                    self.handed_out().contains(h) && #[trigger] outclasses(h, m);
                let x = choose|x: int| 0 <= x < handed.len() && handed[x] == h;
                assert(after.handed@[x] == h);
                assert(after.handed_out().contains(h));
            }
        }
    }

    /// Of two nodes of one class that were handed out, the one that came
    /// first has not both at least the progress and at least the quality
    /// of the one that came later.
    pub proof fn lemma_out_in_order(&self, i: int, j: int)
        requires
            self.wf(),
            0 <= i < j < self.handed_out().len(),
            spec_pareto_key(self.handed_out()[i].state) == spec_pareto_key(
                self.handed_out()[j].state,
            ),
        ensures
            !node_dominates(self.handed_out()[i], self.handed_out()[j]),
    {
        reveal(SearchQueue::served_well);
        assert(!outclasses(self.handed@[i], self.handed@[j]));
    }

    /// Whatever a seen value dominates, a node of its class that was
    /// handed out or is ready has at least its progress and its quality;
    /// so has the value of every node that was handed out.
    pub proof fn lemma_seen_came_out(&self, m: SearchNode)
        requires
            self.wf(),
        ensures
            self.seen_dominates(m) ==> self.came_for(m),
            self.handed_out().contains(m) ==> self.seen_dominates(m),
    {
        reveal(SearchQueue::served_well);
        if self.handed_out().contains(m) {
            let x = choose|x: int| 0 <= x < self.handed@.len() && self.handed@[x] == m;
            assert(self.seen_dominates(self.handed@[x]));
        }
    }

    /// When the queue holds nothing, every node that it ever covered has
    /// come out, or a node of its class with at least its progress and its
    /// quality has.
    pub proof fn lemma_drained_has_served(&self, m: SearchNode)
        requires
            self.wf(),
            self.ready().len() == 0,
            self.bucket_count() == 0,
            self.covers(m),
        ensures
            exists|h: SearchNode| self.handed_out().contains(h) && #[trigger] outclasses(h, m),
    {
        self.lemma_drained_is_empty();
        self.lemma_seen_came_out(m);
        if self.ready_outclasses(m) {
            let r = choose|r: SearchNode| self.ready().contains(r) && #[trigger] outclasses(r, m);
            assert(false);
        }
    }

    /// A node that waits with the amount of `node`, in its class, dominates it.
    pub open spec fn blocked(&self, node: SearchNode) -> bool {
        exists|m: SearchNode| #[trigger]
            self.waiting_at(node.state.cp as int, m) && spec_pareto_key(m.state)
                == spec_pareto_key(node.state) && node_dominates(m, node)
    }

    /// `node` is in the queue, or a node that waits with its amount in its
    /// class dominates it, or a value let through in its class does: the
    /// node, or one at least as good, has come out or will.
    pub open spec fn covers(&self, node: SearchNode) -> bool {
        self.contains(node) || self.blocked(node) || self.seen_dominates(node)
    }

    /// Every node waits with its own amount and in its own class, the
    /// counters of every node that waits are within their caps, the value
    /// of every node that is ready counts as seen, no node is ready
    /// twice, and of two nodes that are ready in one class neither
    /// dominates the other.
    pub closed spec fn wf(&self) -> bool {
        &&& self.sound()
        &&& is_apart(self.current@)
        &&& forall|i: int|
            0 <= i < self.current@.len() ==> (#[trigger] self.current@[i]).state.effects.valid()
        &&& self.served_well()
    }

    /// What holds of the queue also while an amount is being served.
    spec fn sound(&self) -> bool {
        &&& forall|i: int| 0 <= i < self.buckets@.len() ==> (#[trigger] self.buckets@[i]).wf()
        &&& forall|i: int, key: u64, node: SearchNode|
            0 <= i < self.buckets@.len() && #[trigger] self.buckets@[i].holds(key, node)
                ==> node.state.cp == i && key == spec_pareto_key(node.state)
                && node.state.effects.valid()
        &&& forall|i: int|
            0 <= i < self.current@.len() ==> self.seen_dominates(#[trigger] self.current@[i])
        &&& self.current@.no_duplicates()
    }

    /// Of two different nodes that are ready in one class neither has at
    /// least the progress and the quality of the other.
    pub proof fn lemma_ready_apart(&self, a: SearchNode, b: SearchNode)
        requires
            self.wf(),
            self.ready().contains(a),
            self.ready().contains(b),
            a != b,
            spec_pareto_key(a.state) == spec_pareto_key(b.state),
        ensures
            !node_dominates(a, b),
    {
        reveal(is_apart);
    }

    /// No node is ready twice.
    pub proof fn lemma_ready_once(&self)
        requires
            self.wf(),
        ensures
            self.ready().no_duplicates(),
    {
    }

    /// A node waits with the amount of its own crafting points, and of two
    /// nodes that wait with one amount in one class neither dominates the
    /// other.
    pub proof fn lemma_waiting_nodes(&self, cp: int, a: SearchNode, b: SearchNode)
        requires
            self.wf(),
            self.waiting_at(cp, a),
        ensures
            a.state.cp == cp,
            a.state.effects.valid(),
            self.waiting_at(cp, b) && a != b && spec_pareto_key(a.state) == spec_pareto_key(
                b.state,
            ) ==> !node_dominates(a, b),
    {
        assert(self.buckets@[cp].holds(spec_pareto_key(a.state), a));
        assert(self.buckets@[cp].wf());
    }

    /// The value of a node that is ready counts as seen.
    pub proof fn lemma_ready_is_seen(&self, node: SearchNode)
        requires
            self.wf(),
            self.ready().contains(node),
        ensures
            self.seen_dominates(node),
    {
        let i = choose|i: int| 0 <= i < self.ready().len() && self.ready()[i] == node;
        assert(self.seen_dominates(self.current@[i]));
    }

    /// An empty queue with an amount for every number of crafting points
    /// from zero to the maximum.
    pub fn new(settings: Settings) -> (r: SearchQueue)
        ensures
            r.wf(),
            r.ready().len() == 0,
            r.handed_out().len() == 0,
            r.bucket_count() == (if settings.max_cp >= 0 {
                settings.max_cp + 1
            } else {
                0
            }),
            forall|node: SearchNode| !r.waiting(node),
            forall|cp: int, node: SearchNode| !r.waiting_at(cp, node),
            forall|key: u64| r.seen(key) == Set::<QueueValue>::empty(),
            forall|node: SearchNode| !r.seen_dominates(node) && !r.covers(node),
    {
        let count: usize = if settings.max_cp >= 0 {
            settings.max_cp as usize + 1
        } else {
            0
        };
        let mut buckets: Vec<Bucket> = Vec::new();
        let mut i: usize = 0;
        while i < count
            invariant
                i <= count,
                buckets@.len() == i,
                forall|k: int| 0 <= k < buckets@.len() ==> (#[trigger] buckets@[k]).wf(),
                forall|k: int, key: u64, node: SearchNode|
                    0 <= k < buckets@.len() ==> !(#[trigger] buckets@[k].holds(key, node)),
            decreases count - i,
        {
            buckets.push(Bucket::new());
            i += 1;
        }
        let r = SearchQueue {
            current: Vec::new(),
            buckets,
            pareto_front: HashMap::new(),
            handed: Ghost(Seq::empty()),
        };
        proof {
            assert(r.served_well()) by {
                reveal(SearchQueue::served_well);
                assert forall|m: SearchNode| !r.seen_dominates(m) by {
                    assert(r.seen(spec_pareto_key(m.state)) == Set::<QueueValue>::empty());
                }
            }
            assert(is_apart(r.current@)) by {
                reveal(is_apart);
            }
            assert forall|node: SearchNode| !r.seen_dominates(node) && !r.covers(node) by {
                assert(r.seen(spec_pareto_key(node.state)) == Set::<QueueValue>::empty());
                if r.blocked(node) {
                    let m = choose|m: SearchNode| #[trigger]
                        r.waiting_at(node.state.cp as int, m) && spec_pareto_key(m.state)
                            == spec_pareto_key(node.state) && node_dominates(m, node);
                    assert(r.waiting_at(node.state.cp as int, m));
                }
            }
        }
        r
    }

    /// A queue without nodes ready and without amounts to serve holds nothing.
    pub proof fn lemma_drained_is_empty(&self)
        requires
            self.ready().len() == 0,
            self.bucket_count() == 0,
        ensures
            forall|node: SearchNode| !self.contains(node),
            forall|node: SearchNode| #[trigger] self.covers(node) ==> self.seen_dominates(node),
    {
        assert forall|node: SearchNode| !self.contains(node) by {
            if self.waiting(node) {
                let cp = choose|cp: int| #[trigger] self.waiting_at(cp, node);
                assert(self.waiting_at(cp, node));
            }
        }
        assert forall|node: SearchNode| #[trigger] self.covers(node) implies self.seen_dominates(
            node,
        ) by {
            if self.blocked(node) {
                let m = choose|m: SearchNode| #[trigger]
                    self.waiting_at(node.state.cp as int, m) && spec_pareto_key(m.state)
                        == spec_pareto_key(node.state) && node_dominates(m, node);
                assert(self.waiting_at(node.state.cp as int, m));
            }
        }
    }

    /// The number of amounts of crafting points that have not been served.
    pub fn buckets_left(&self) -> (r: usize)
        ensures
            r == self.bucket_count(),
    {
        self.buckets.len()
    }

    /// Whether the queue holds nothing.
    pub fn is_drained(&self) -> (r: bool)
        ensures
            r == (self.ready().len() == 0 && self.bucket_count() == 0),
    {
        self.current.len() == 0 && self.buckets.len() == 0
    }

    /// A push keeps what holds of the nodes handed out.
    proof fn lemma_push_serves(&self, after: &SearchQueue, node: SearchNode)
        requires
            self.wf(),
            node.state.effects.valid(),
            after.handed@ == self.handed@,
            0 <= node.state.cp < self.bucket_count() ==> after.current@ == self.current@
                && forall|key: u64| after.seen(key) == self.seen(key),
            !(0 <= node.state.cp < self.bucket_count()) ==> {
                &&& after.current@ == (if self.seen_dominates(node) {
                    self.current@
                } else {
                    spec_without_outclassed(self.current@, node).push(node)
                })
                &&& forall|key: u64| #[trigger]
                    after.seen(key) == (if key == spec_pareto_key(node.state)
                        && !self.seen_dominates(node) {
                        spec_seen_with(self.seen(key), spec_value_of(node))
                    } else {
                        self.seen(key)
                    })
            },
        ensures
            after.served_well(),
    {
        let late = !(0 <= node.state.cp < self.bucket_count()) && !self.seen_dominates(node);
        let key = spec_pareto_key(node.state);
        if late {
            self.lemma_late_node_joins(node, after.current@);
            assert(after.ready().contains(node));
        }
        assert forall|m: SearchNode| #[trigger] self.seen_dominates(m) implies after.seen_dominates(
            m,
        ) by {
            let k = spec_pareto_key(m.state);
            let w = spec_value_of(m);
            if late && k == key {
                let v = choose|v: QueueValue| #[trigger]
                    self.seen(k).contains(v) && value_dominates(v, w);
                if value_dominates(spec_value_of(node), v) {
                    assert(after.seen(k).contains(spec_value_of(node)));
                    assert(value_dominates(spec_value_of(node), w));
                } else {
                    assert(after.seen(k).contains(v));
                }
            } else {
                assert(after.seen(k) == self.seen(k));
            }
        }
        assert forall|m: SearchNode| #[trigger]
            after.seen_dominates(m) implies self.seen_dominates(m) || after.ready_outclasses(
            m,
        ) by {
            let k = spec_pareto_key(m.state);
            let w = spec_value_of(m);
            if late && k == key {
                let v = choose|v: QueueValue| #[trigger]
                    after.seen(k).contains(v) && value_dominates(v, w);
                if v == spec_value_of(node) {
                    assert(outclasses(node, m));
                } else {
                    assert(self.seen(k).contains(v));
                }
            } else {
                assert(after.seen(k) == self.seen(k));
            }
        }
        assert forall|r: SearchNode| #[trigger]
            self.current@.contains(r) implies after.current@.contains(r)
            || after.ready_outclasses(r) by {
            if late && !after.current@.contains(r) {
                assert(outclasses(node, r));
            }
        }
        self.lemma_served_still(after);
    }

    /// Serving an amount keeps what holds of the nodes handed out.
    proof fn lemma_serving_serves(&self, after: &SearchQueue)
        requires
            self.wf(),
            self.current@.len() == 0,
            after.handed@ == self.handed@,
            forall|m: SearchNode| #[trigger] self.seen_dominates(m) ==> after.seen_dominates(m),
            forall|m: SearchNode| #[trigger]
                let_through(after.current@, 0, m) ==> !self.seen_dominates(m),
            forall|m: SearchNode| #[trigger]
                after.seen_dominates(m) ==> self.seen_dominates(m) || let_through_dominates(
                    after.current@,
                    0,
                    m,
                ),
        ensures
            after.served_well(),
    {
        assert forall|r: SearchNode| #[trigger]
            after.current@.contains(r) implies self.current@.contains(r) || !self.seen_dominates(
            r,
        ) by {
            let x = choose|x: int| 0 <= x < after.current@.len() && after.current@[x] == r;
            assert(let_through(after.current@, 0, after.current@[x]));
        }
        assert forall|m: SearchNode| #[trigger]
            after.seen_dominates(m) implies self.seen_dominates(m) || after.ready_outclasses(
            m,
        ) by {
            if !self.seen_dominates(m) {
                let p = choose|p: int|
                    0 <= p < after.current@.len() && spec_pareto_key(
                        (#[trigger] after.current@[p]).state,
                    ) == spec_pareto_key(m.state) && node_dominates(after.current@[p], m);
                assert(after.ready().contains(after.current@[p]));
                assert(outclasses(after.current@[p], m));
            }
        }
        self.lemma_served_still(after);
    }

    /// When a node that no seen value dominates joins the ready nodes in
    /// place of those that it outclasses, the ready nodes are the node and
    /// those that were ready and are not outclassed, none of them twice, and
    /// none of them outclasses another.
    proof fn lemma_late_node_joins(&self, node: SearchNode, after: Seq<SearchNode>)
        requires
            self.wf(),
            node.state.effects.valid(),
            !self.seen_dominates(node),
            after == spec_without_outclassed(self.ready(), node).push(node),
        ensures
            forall|m: SearchNode| #[trigger]
                after.contains(m) <==> m == node || (self.ready().contains(m) && !outclasses(
                    node,
                    m,
                )),
            !self.ready().contains(node),
            after.no_duplicates(),
            is_apart(after),
            forall|i: int| 0 <= i < after.len() ==> (#[trigger] after[i]).state.effects.valid(),
    {
        let ready = self.ready();
        let left = spec_without_outclassed(ready, node);
        lemma_without_outclassed(ready, node);
        if ready.contains(node) {
            self.lemma_ready_is_seen(node);
        }
        assert forall|m: SearchNode| #[trigger] after.contains(m) <==> m == node || (ready.contains(
            m,
        ) && !outclasses(node, m)) by {
            if after.contains(m) {
                let x = choose|x: int| 0 <= x < after.len() && after[x] == m;
                if x < left.len() {
                    assert(left[x] == m);
                    assert(left.contains(m));
                }
            }
            if m == node {
                assert(after[after.len() - 1] == m);
            } else if ready.contains(m) && !outclasses(node, m) {
                assert(left.contains(m));
                let x = choose|x: int| 0 <= x < left.len() && left[x] == m;
                assert(after[x] == m);
            }
        }
        assert(after.no_duplicates()) by {
            assert forall|x: int, y: int|
                0 <= x < after.len() && 0 <= y < after.len() && x != y implies after[x]
                != after[y] by {
                if x < left.len() && y < left.len() {
                    assert(left[x] != left[y]);
                } else {
                    let inner = if x < left.len() {
                        x
                    } else {
                        y
                    };
                    assert(left[inner] == after[inner]);
                    assert(left.contains(left[inner]));
                }
            }
        }
        assert forall|i: int| 0 <= i < after.len() implies (#[trigger] after[i]).state.effects.valid() by {
            let m = after[i];
            assert(after.contains(m));
            if m != node {
                let q = choose|q: int| 0 <= q < ready.len() && ready[q] == m;
                assert(self.current@[q].state.effects.valid());
            }
        }
        assert(is_apart(after)) by {
            reveal(is_apart);
            assert forall|a: SearchNode, b: SearchNode|
                after.contains(a) && after.contains(b) && a != b implies !outclasses(a, b) by {
                if a == node {
                } else if b == node {
                    if outclasses(a, node) {
                        self.lemma_ready_is_seen(a);
                        let v = choose|v: QueueValue| #[trigger]
                            self.seen(spec_pareto_key(a.state)).contains(v) && value_dominates(
                                v,
                                spec_value_of(a),
                            );
                        assert(value_dominates(v, spec_value_of(node)));
                        assert(self.seen_dominates(node));
                    }
                } else {
                    assert(ready.contains(a) && ready.contains(b));
                }
            }
        }
    }

    /// Lets `node` wait with the nodes of its amount of crafting points,
    /// unless a node that waits there in its class dominates it; the nodes
    /// there that it dominates wait no longer. A node whose amount has been
    /// served, or has no place, is let through at once if no value seen in
    /// its class dominates it, and then the nodes of its class that are
    /// ready and that it dominates are ready no longer.
    pub fn push(&mut self, node: SearchNode)
        requires
            old(self).wf(),
            node.state.effects.valid(),
        ensures
            final(self).wf(),
            final(self).bucket_count() == old(self).bucket_count(),
            final(self).handed_out() == old(self).handed_out(),
            forall|m: SearchNode| #[trigger]
                final(self).contains(m) ==> old(self).contains(m) || m == node,
            final(self).covers(node),
            forall|m: SearchNode| #[trigger] old(self).covers(m) ==> final(self).covers(m),
            0 <= node.state.cp < old(self).bucket_count() ==> {
                &&& final(self).ready() == old(self).ready()
                &&& forall|key: u64| final(self).seen(key) == old(self).seen(key)
                &&& forall|cp: int, m: SearchNode| #[trigger]
                    final(self).waiting_at(cp, m) <==> (if cp == node.state.cp && spec_pareto_key(
                        m.state,
                    ) == spec_pareto_key(node.state) && !old(self).blocked(node) {
                        m == node || (old(self).waiting_at(cp, m) && !node_dominates(node, m))
                    } else {
                        old(self).waiting_at(cp, m)
                    })
            },
            !(0 <= node.state.cp < old(self).bucket_count()) ==> {
                &&& final(self).ready() == (if old(self).seen_dominates(node) {
                    old(self).ready()
                } else {
                    spec_without_outclassed(old(self).ready(), node).push(node)
                })
                &&& forall|cp: int, m: SearchNode| #[trigger]
                    final(self).waiting_at(cp, m) <==> old(self).waiting_at(cp, m)
                &&& forall|m: SearchNode| #[trigger]
                    old(self).seen_dominates(m) ==> final(self).seen_dominates(m)
                &&& final(self).seen_dominates(node)
                &&& forall|key: u64| #[trigger]
                    final(self).seen(key) == (if key == spec_pareto_key(node.state) && !old(self).seen_dominates(node) {
                        spec_seen_with(old(self).seen(key), spec_value_of(node))
                    } else {
                        old(self).seen(key)
                    })
            },
    {
        let key = pareto_key(&node.state);
        let cp = node.state.cp;
        if cp >= 0 && (cp as usize) < self.buckets.len() {
            let index = cp as usize;
            let ghost buckets_before = self.buckets@;
            let mut bucket = Bucket::new();
            self.buckets.set_and_swap(index, &mut bucket);
            let ghost taken = bucket;
            assert(taken == buckets_before[index as int]);
            let kept = bucket.push(key, node);
            let ghost pushed = bucket;
            self.buckets.set_and_swap(index, &mut bucket);
            proof {
                assert(self.buckets@ =~= buckets_before.update(index as int, pushed));
                assert(kept == !old(self).blocked(node)) by {
                    if taken.dominated_in(key, node) {
                        let m = choose|m: SearchNode| #[trigger]
                            taken.holds(key, m) && node_dominates(m, node);
                        assert(old(self).waiting_at(cp as int, m));
                    }
                    if old(self).blocked(node) {
                        let m = choose|m: SearchNode| #[trigger]
                            old(self).waiting_at(node.state.cp as int, m) && spec_pareto_key(
                                m.state,
                            ) == spec_pareto_key(node.state) && node_dominates(m, node);
                        assert(taken.holds(key, m));
                    }
                }
                assert forall|i: int, k: u64, m: SearchNode|
                    0 <= i < self.buckets@.len() && #[trigger] self.buckets@[i].holds(
                        k,
                        m,
                    ) implies m.state.cp == i && k == spec_pareto_key(m.state)
                    && m.state.effects.valid() by {
                    if i == index {
                        if !(k == key && kept && m == node) {
                            assert(taken.holds(k, m));
                            assert(buckets_before[i].holds(k, m));
                        }
                    } else {
                        assert(buckets_before[i].holds(k, m));
                    }
                }
                assert forall|c: int, m: SearchNode| #[trigger]
                    self.waiting_at(c, m) <==> (if c == node.state.cp && spec_pareto_key(m.state)
                        == spec_pareto_key(node.state) && !old(self).blocked(node) {
                        m == node || (old(self).waiting_at(c, m) && !node_dominates(node, m))
                    } else {
                        old(self).waiting_at(c, m)
                    }) by {
                    if 0 <= c < self.buckets@.len() {
                        if c == index {
                            assert(self.buckets@[c] == pushed);
                            assert(buckets_before[c] == taken);
                        } else {
                            assert(self.buckets@[c] == buckets_before[c]);
                        }
                    }
                }
            }
        } else {
            let ghost map_before = self.pareto_front@;
            let ghost ready_before = self.current@;
            let mut seen = match self.pareto_front.remove(&key) {
                Some(front) => front,
                None => value_front_new(),
            };
            let ghost values_before = front_values(seen);
            assert(values_before == old(self).seen(key));
            let value = value_of(&node);
            let kept = value_front_push(&mut seen, value);
            let ghost values = front_values(seen);
            if kept {
                drop_outclassed(&mut self.current, key, &node);
                self.current.push(node);
            }
            self.pareto_front.insert(key, seen);
            proof {
                assert(self.pareto_front@ == map_before.remove(key).insert(key, seen));
                assert forall|k: u64| #[trigger]
                    self.seen(k) == (if k == key && kept {
                        spec_seen_with(old(self).seen(k), value)
                    } else {
                        old(self).seen(k)
                    }) by {
                    if k != key {
                        assert(self.pareto_front@.contains_key(k) == map_before.contains_key(k));
                    }
                }
                assert(kept == !old(self).seen_dominates(node)) by {
                    if old(self).seen_dominates(node) {
                        let v = choose|v: QueueValue| #[trigger]
                            values_before.contains(v) && value_dominates(v, value);
                        assert(values_before.contains(v) && value_dominates(v, value));
                    }
                }
                assert forall|m: SearchNode| #[trigger]
                    old(self).seen_dominates(m) implies self.seen_dominates(m) by {
                    let k = spec_pareto_key(m.state);
                    let w = spec_value_of(m);
                    if k == key {
                        let v = choose|v: QueueValue| #[trigger]
                            values_before.contains(v) && value_dominates(v, w);
                        if kept {
                            if value_dominates(value, v) {
                                assert(values.contains(value));
                                assert(value_dominates(value, w));
                            } else {
                                assert(values.contains(v));
                            }
                        } else {
                            assert(values.contains(v));
                        }
                        assert(self.seen(k) == values);
                    } else {
                        assert(self.seen(k) == old(self).seen(k));
                    }
                }
                assert(self.seen_dominates(node)) by {
                    assert(self.seen(key) == values);
                    if kept {
                        assert(values.contains(value));
                        assert(value_dominates(value, value));
                    } else {
                        let v = choose|v: QueueValue|
                            values_before.contains(v) && value_dominates(v, value);
                        assert(values.contains(v));
                    }
                }
                if kept {
                    old(self).lemma_late_node_joins(node, self.current@);
                    assert forall|p: int| 0 <= p < self.current@.len() implies self.seen_dominates(
                        #[trigger] self.current@[p],
                    ) by {
                        let m = self.current@[p];
                        if m != node {
                            assert(self.current@.contains(m));
                            assert(old(self).seen_dominates(m));
                        }
                    }
                }
            }
        }
        proof {
            let in_range = 0 <= node.state.cp < old(self).bucket_count();
            let cp = node.state.cp as int;
            old(self).lemma_push_serves(self, node);
            assert(self.covers(node)) by {
                if in_range {
                    if old(self).blocked(node) {
                        let w = choose|w: SearchNode| #[trigger]
                            old(self).waiting_at(cp, w) && spec_pareto_key(w.state)
                                == spec_pareto_key(node.state) && node_dominates(w, node);
                        assert(self.waiting_at(cp, w));
                        assert(self.blocked(node));
                    } else {
                        assert(self.waiting_at(cp, node));
                        assert(self.waiting(node));
                    }
                }
            }
            assert forall|m: SearchNode| #[trigger] old(self).covers(m) implies self.covers(m) by {
                if old(self).ready().contains(m) {
                    old(self).lemma_ready_is_seen(m);
                    if in_range {
                        assert(self.ready().contains(m));
                    } else {
                        assert(self.seen_dominates(m));
                    }
                } else if old(self).waiting(m) {
                    let c = choose|c: int| #[trigger] old(self).waiting_at(c, m);
                    if self.waiting_at(c, m) {
                    } else {
                        // the new node took its place
                        assert(in_range && c == cp && node_dominates(node, m));
                        assert(old(self).buckets@[c].holds(spec_pareto_key(m.state), m));
                        assert(m.state.cp == c);
                        assert(self.waiting_at(cp, node));
                        assert(self.blocked(m));
                    }
                } else if old(self).blocked(m) {
                    let w = choose|w: SearchNode| #[trigger]
                        old(self).waiting_at(m.state.cp as int, w) && spec_pareto_key(w.state)
                            == spec_pareto_key(m.state) && node_dominates(w, m);
                    if self.waiting_at(m.state.cp as int, w) {
                        assert(self.blocked(m));
                    } else {
                        assert(in_range && m.state.cp == cp && node_dominates(node, w));
                        assert(self.waiting_at(cp, node));
                        assert(node_dominates(node, m));
                        assert(self.blocked(m));
                    }
                } else {
                    assert(old(self).seen_dominates(m));
                    if in_range {
                        assert(self.seen(spec_pareto_key(m.state)) == old(self).seen(
                            spec_pareto_key(m.state),
                        ));
                    }
                }
            }
            assert forall|m: SearchNode| #[trigger] self.contains(m) implies old(self).contains(m)
                || m == node by {
                if self.ready().contains(m) {
                    if !in_range && !old(self).seen_dominates(node) {
                        old(self).lemma_late_node_joins(node, self.current@);
                    }
                } else {
                    let c = choose|c: int| #[trigger] self.waiting_at(c, m);
                    if m != node {
                        assert(old(self).waiting_at(c, m));
                    }
                }
            }
        }
    }

    /// Serves, when no node is ready, the highest amount that has not been
    /// served: its nodes are let through, class by class in the order in
    /// which the classes came, as far as no value seen in their class
    /// dominates them. Returns whether there was an amount to serve.
    pub fn pop_bucket(&mut self) -> (r: bool)
        requires
            old(self).wf(),
            old(self).ready().len() == 0,
        ensures
            final(self).wf(),
            r == (old(self).bucket_count() > 0),
            final(self).handed_out() == old(self).handed_out(),
            !r ==> *final(self) == *old(self) && final(self).bucket_count() == 0,
            r ==> final(self).bucket_count() == old(self).bucket_count() - 1,
            final(self).ready().len() >= old(self).ready().len(),
            final(self).ready().take(old(self).ready().len() as int) == old(self).ready(),
            forall|m: SearchNode| #[trigger]
                let_through(final(self).ready(), old(self).ready().len() as int, m) <==> old(self).waiting_at(old(self).bucket_count() - 1, m) && !old(self).seen_dominates(m),
            forall|cp: int, m: SearchNode| #[trigger]
                final(self).waiting_at(cp, m) <==> cp < old(self).bucket_count() - 1 && old(self).waiting_at(cp, m),
            forall|m: SearchNode| #[trigger]
                old(self).seen_dominates(m) ==> final(self).seen_dominates(m),
            forall|m: SearchNode| #[trigger]
                old(self).waiting_at(old(self).bucket_count() - 1, m) ==> final(self).seen_dominates(m),
            forall|m: SearchNode| #[trigger]
                final(self).seen_dominates(m) ==> old(self).seen_dominates(m)
                    || let_through_dominates(
                    final(self).ready(),
                    old(self).ready().len() as int,
                    m,
                ),
            forall|m: SearchNode| #[trigger] old(self).covers(m) ==> final(self).covers(m),
    {
        if self.buckets.len() == 0 {
            assert(self.current@.take(self.current@.len() as int) =~= self.current@);
            return false;
        }
        let ghost top = self.buckets@.len() - 1;
        let ghost buckets_before = self.buckets@;
        let ghost first = self.current@.len() as int;
        let bucket = self.buckets.pop().unwrap();
        let ghost served = bucket;
        let Bucket { keys, fronts } = bucket;
        let mut fronts = fronts;
        let mut i: usize = 0;
        proof {
            assert(self.current@.take(self.current@.len() as int) =~= self.current@);
            assert(self.buckets@ =~= buckets_before.drop_last());
            assert forall|i: int, k: u64, m: SearchNode|
                0 <= i < self.buckets@.len() && #[trigger] self.buckets@[i].holds(
                    k,
                    m,
                ) implies m.state.cp == i && k == spec_pareto_key(m.state)
                && m.state.effects.valid() by {
                assert(buckets_before[i].holds(k, m));
            }
        }
        while i < keys.len()
            invariant
                i <= keys.len(),
                keys@ == served.keys@,
                served.wf(),
                served == buckets_before[top],
                top == buckets_before.len() - 1,
                buckets_before.len() > 0,
                first == old(self).current@.len(),
                self.buckets@ == buckets_before.drop_last(),
                self.sound(),
                self.handed == old(self).handed,
                old(self).wf(),
                buckets_before == old(self).buckets@,
                forall|x: int|
                    i <= x < keys@.len() ==> fronts@.contains_key(#[trigger] keys@[x]) && fronts@[keys@[x]]
                        == served.fronts@[keys@[x]],
                forall|x: int|
                    i <= x < keys@.len() ==> self.seen(#[trigger] keys@[x]) == old(self).seen(
                        keys@[x],
                    ),
                self.current@.len() >= first,
                self.current@.take(first) == old(self).current@,
                forall|m: SearchNode| #[trigger]
                    let_through(self.current@, first, m) <==> held_before(served, keys@, i as int, m)
                        && !old(self).seen_dominates(m),
                forall|m: SearchNode| #[trigger]
                    old(self).seen_dominates(m) ==> self.seen_dominates(m),
                forall|m: SearchNode| #[trigger]
                    held_before(served, keys@, i as int, m) ==> self.seen_dominates(m),
                forall|m: SearchNode| #[trigger]
                    self.seen_dominates(m) ==> old(self).seen_dominates(m)
                        || let_through_dominates(self.current@, first, m),
            decreases keys.len() - i,
        {
            let key = keys[i];
            let ghost fronts_before = fronts@;
            let ghost map_before = self.pareto_front@;
            let ghost ready_before = self.current@;
            let ghost this = *self;
            assert(fronts@.contains_key(keys@[i as int]));
            let front = fronts.remove(&key).unwrap();
            assert(front == served.fronts@[key]);
            assert(fronts@ == fronts_before.remove(key));
            let nodes = node_front_into_vec(front);
            assert(is_antichain(nodes@.to_set())) by {
                assert(served.fronts@.contains_key(key));
            }
            let mut seen = match self.pareto_front.remove(&key) {
                Some(values) => values,
                None => value_front_new(),
            };
            let ghost values_before = front_values(seen);
            assert(values_before == this.seen(key));
            assert(values_before == old(self).seen(keys@[i as int]));
            admit_all(&mut seen, &nodes, &mut self.current);
            let ghost values = front_values(seen);
            self.pareto_front.insert(key, seen);
            proof {
                assert(self.pareto_front@ == map_before.remove(key).insert(key, seen));
                assert(self.seen(key) == values);
                assert forall|k: u64| k != key implies self.seen(k) == this.seen(k) by {}
                assert forall|x: int| i + 1 <= x < keys@.len() implies fronts@.contains_key(
                    #[trigger] keys@[x],
                ) && fronts@[keys@[x]] == served.fronts@[keys@[x]] by {
                    assert(keys@[x] != keys@[i as int]);
                    assert(fronts_before.contains_key(keys@[x]));
                    assert(fronts_before[keys@[x]] == served.fronts@[keys@[x]]);
                }
                assert forall|x: int| i + 1 <= x < keys@.len() implies self.seen(
                    #[trigger] keys@[x],
                ) == old(self).seen(keys@[x]) by {
                    assert(keys@[x] != keys@[i as int]);
                    assert(this.seen(keys@[x]) == old(self).seen(keys@[x]));
                }
                assert(self.current@.take(first) =~= ready_before.take(first)) by {
                    assert(self.current@.take(ready_before.len() as int) == ready_before);
                }
                lemma_served_class(
                    *old(self),
                    served,
                    keys@,
                    i as int,
                    nodes@,
                    values_before,
                    ready_before,
                    self.current@,
                    first,
                );
                assert forall|m: SearchNode| #[trigger]
                    this.seen_dominates(m) implies self.seen_dominates(m) by {
                    if spec_pareto_key(m.state) == key {
                        assert(dominated_by(values_before, spec_value_of(m)));
                    }
                }
                assert forall|m: SearchNode| #[trigger]
                    held_before(served, keys@, i + 1, m) implies self.seen_dominates(m) by {
                    let x = choose|x: int| 0 <= x < i + 1 && served.holds(#[trigger] keys@[x], m);
                    assert(old(self).buckets@[top].holds(keys@[x], m));
                    assert(keys@[x] == spec_pareto_key(m.state));
                    if x < i {
                        assert(held_before(served, keys@, i as int, m));
                        assert(this.seen_dominates(m));
                    } else {
                        assert(nodes@.to_set().contains(m));
                        let y = choose|y: int| 0 <= y < nodes@.len() && nodes@[y] == m;
                        assert(dominated_by(values, spec_value_of(nodes@[y])));
                        assert(self.seen(spec_pareto_key(m.state)) == values);
                    }
                }
                assert forall|p: int| 0 <= p < self.current@.len() implies self.seen_dominates(
                    #[trigger] self.current@[p],
                ) by {
                    let m = self.current@[p];
                    if p < ready_before.len() {
                        assert(self.current@.take(ready_before.len() as int)[p] == m);
                        assert(ready_before[p] == m);
                        assert(this.seen_dominates(this.current@[p]));
                    } else {
                        assert(nodes@.contains(m));
                        assert(nodes@.to_set().contains(m));
                        assert(served.holds(key, m));
                        assert(old(self).buckets@[top].holds(key, m));
                        assert(key == spec_pareto_key(m.state));
                        let y = choose|y: int| 0 <= y < nodes@.len() && nodes@[y] == m;
                        assert(dominated_by(values, spec_value_of(nodes@[y])));
                    }
                }
                assert forall|a: int, b: int|
                    0 <= a < self.current@.len() && 0 <= b < self.current@.len() && a
                        != b implies self.current@[a] != self.current@[b] by {
                    let lo = if a < b {
                        a
                    } else {
                        b
                    };
                    let hi = if a < b {
                        b
                    } else {
                        a
                    };
                    if hi < ready_before.len() {
                        assert(self.current@.take(ready_before.len() as int)[lo] == self.current@[lo]);
                        assert(self.current@.take(ready_before.len() as int)[hi] == self.current@[hi]);
                        assert(this.current@[lo] != this.current@[hi]);
                    } else if lo < ready_before.len() {
                        assert(self.current@.take(ready_before.len() as int)[lo] == self.current@[lo]);
                        let e = ready_before[lo];
                        let n = self.current@[hi];
                        assert(this.seen_dominates(this.current@[lo]));
                        assert(nodes@.contains(n));
                        assert(nodes@.to_set().contains(n));
                        assert(served.holds(key, n));
                        assert(old(self).buckets@[top].holds(key, n));
                        assert(key == spec_pareto_key(n.state));
                        assert(!dominated_by(values_before, spec_value_of(n)));
                    } else {
                        assert(self.current@[lo] != self.current@[hi]);
                    }
                }
                assert forall|m: SearchNode| #[trigger]
                    self.seen_dominates(m) implies old(self).seen_dominates(m)
                    || let_through_dominates(self.current@, first, m) by {
                    let k = spec_pareto_key(m.state);
                    let w = spec_value_of(m);
                    if k == key {
                        let v = choose|v: QueueValue| #[trigger]
                            values.contains(v) && value_dominates(v, w);
                        if values_before.contains(v) {
                            assert(dominated_by(values_before, w));
                            assert(this.seen_dominates(m));
                        } else {
                            assert(value_let_through(self.current@, ready_before.len() as int, v));
                            let p = choose|p: int|
                                ready_before.len() <= p < self.current@.len() && spec_value_of(
                                    #[trigger] self.current@[p],
                                ) == v;
                            let n = self.current@[p];
                            assert(nodes@.contains(n));
                            assert(nodes@.to_set().contains(n));
                            assert(served.holds(key, n));
                            assert(old(self).buckets@[top].holds(key, n));
                            assert(key == spec_pareto_key(n.state));
                            assert(node_dominates(n, m));
                            assert(let_through_dominates(self.current@, first, m));
                        }
                    } else {
                        assert(self.seen(k) == this.seen(k));
                        assert(this.seen_dominates(m));
                    }
                    if this.seen_dominates(m) && !old(self).seen_dominates(m) {
                        assert(let_through_dominates(ready_before, first, m));
                        let p = choose|p: int|
                            first <= p < ready_before.len() && spec_pareto_key(
                                (#[trigger] ready_before[p]).state,
                            ) == spec_pareto_key(m.state) && node_dominates(ready_before[p], m);
                        assert(self.current@.take(ready_before.len() as int)[p] == self.current@[p]);
                        assert(self.current@[p] == ready_before[p]);
                    }
                }
            }
            i += 1;
            assert forall|x: int| i <= x < keys@.len() implies fronts@.contains_key(
                #[trigger] keys@[x],
            ) && fronts@[keys@[x]] == served.fronts@[keys@[x]] by {
                assert(keys@[x] != keys@[i - 1]);
                assert(fronts_before.contains_key(keys@[x]));
                assert(fronts_before[keys@[x]] == served.fronts@[keys@[x]]);
            }
        }
        proof {
            assert forall|cp: int, m: SearchNode| #[trigger]
                self.waiting_at(cp, m) <==> cp < old(self).bucket_count() - 1 && old(self).waiting_at(cp, m) by {
                if 0 <= cp < top {
                    assert(self.buckets@[cp] == buckets_before[cp]);
                }
            }
            assert forall|m: SearchNode|
                old(self).waiting_at(top, m) <==> held_before(
                    served,
                    keys@,
                    keys@.len() as int,
                    m,
                ) by {
                let k = spec_pareto_key(m.state);
                if old(self).waiting_at(top, m) {
                    assert(served.holds(k, m));
                    assert(served.keys@.contains(k));
                    let x = choose|x: int| 0 <= x < keys@.len() && keys@[x] == k;
                    assert(served.holds(keys@[x], m));
                }
                if held_before(served, keys@, keys@.len() as int, m) {
                    let x = choose|x: int|
                        0 <= x < keys@.len() && served.holds(#[trigger] keys@[x], m);
                    assert(old(self).buckets@[top].holds(keys@[x], m));
                    assert(keys@[x] == k);
                }
            }
            assert forall|p: int| 0 <= p < self.current@.len() implies old(self).waiting_at(
                top,
                #[trigger] self.current@[p],
            ) by {
                assert(let_through(self.current@, first, self.current@[p]));
            }
            assert forall|p: int| 0 <= p < self.current@.len() implies (
            #[trigger] self.current@[p]).state.effects.valid() by {
                old(self).lemma_waiting_nodes(top, self.current@[p], self.current@[p]);
            }
            old(self).lemma_serving_serves(self);
            assert(is_apart(self.current@)) by {
                reveal(is_apart);
                assert forall|a: SearchNode, b: SearchNode|
                    self.current@.contains(a) && self.current@.contains(b) && a
                        != b implies !outclasses(a, b) by {
                    let x = choose|x: int| 0 <= x < self.current@.len() && self.current@[x] == a;
                    let y = choose|y: int| 0 <= y < self.current@.len() && self.current@[y] == b;
                    assert(old(self).waiting_at(top, self.current@[x]));
                    assert(old(self).waiting_at(top, self.current@[y]));
                    old(self).lemma_waiting_nodes(top, a, b);
                }
            }
            assert forall|m: SearchNode| #[trigger] old(self).covers(m) implies self.covers(m) by {
                if old(self).ready().contains(m) {
                    let p = choose|p: int| 0 <= p < old(self).ready().len() && old(self).ready()[p] == m;
                    assert(self.current@.take(first)[p] == self.current@[p]);
                    assert(self.ready()[p] == m);
                } else if old(self).waiting(m) {
                    let cp = choose|cp: int| #[trigger] old(self).waiting_at(cp, m);
                    if cp < top {
                        assert(self.waiting_at(cp, m));
                    }
                } else if old(self).blocked(m) {
                    let w = choose|w: SearchNode| #[trigger]
                        old(self).waiting_at(m.state.cp as int, w) && spec_pareto_key(w.state)
                            == spec_pareto_key(m.state) && node_dominates(w, m);
                    if m.state.cp < top {
                        assert(self.waiting_at(m.state.cp as int, w));
                        assert(self.blocked(m));
                    } else {
                        assert(self.seen_dominates(w));
                        let v = choose|v: QueueValue| #[trigger]
                            self.seen(spec_pareto_key(w.state)).contains(v) && value_dominates(
                                v,
                                spec_value_of(w),
                            );
                        assert(value_dominates(v, spec_value_of(m)));
                        assert(self.seen_dominates(m));
                    }
                }
            }
        }
        true
    }

    /// Hands out the node that was let through last; if none is ready,
    /// serves amounts from the highest down until one is. `None` when no
    /// amount is left to serve.
    ///
    /// With nodes ready, the last of them comes out and nothing else
    /// changes. With none ready, the amounts are served from the highest
    /// down: the node that comes out waited with the highest amount of which
    /// a node was not dominated by a value seen before, whatever waited
    /// above was so dominated, and the nodes of that amount that were not
    /// are the one that comes out and those that are ready afterwards;
    /// whatever a seen value dominates afterwards it dominated before, or
    /// one of these nodes dominates it in its class.
    /// `None` comes only when every node that waited was so dominated.
    pub fn pop(&mut self) -> (r: Option<SearchNode>)
        requires
            old(self).wf(),
        ensures
            final(self).wf(),
            final(self).bucket_count() <= old(self).bucket_count(),
            old(self).ready().len() > 0 ==> {
                &&& r == Some(old(self).ready().last())
                &&& final(self).ready() == old(self).ready().drop_last()
                &&& final(self).bucket_count() == old(self).bucket_count()
                &&& forall|cp: int, m: SearchNode| #[trigger]
                    final(self).waiting_at(cp, m) <==> old(self).waiting_at(cp, m)
                &&& forall|m: SearchNode| #[trigger]
                    final(self).seen_dominates(m) <==> old(self).seen_dominates(m)
            },
            r is None ==> {
                &&& old(self).ready().len() == 0
                &&& final(self).bucket_count() == 0
                &&& final(self).ready().len() == 0
                &&& forall|m: SearchNode| #[trigger]
                    old(self).waiting(m) ==> old(self).seen_dominates(m)
                &&& forall|m: SearchNode| #[trigger]
                    final(self).seen_dominates(m) <==> old(self).seen_dominates(m)
            },
            old(self).ready().len() == 0 ==> (r matches Some(node) ==> {
                &&& node.state.cp == final(self).bucket_count()
                &&& forall|cp: int, m: SearchNode|
                    cp > final(self).bucket_count() && #[trigger] old(self).waiting_at(cp, m)
                        ==> old(self).seen_dominates(m)
                &&& forall|m: SearchNode|
                    #![trigger final(self).ready().contains(m)]
                    #![trigger old(self).waiting_at(final(self).bucket_count() as int, m)]
                    (m == node || final(self).ready().contains(m)) <==> old(self).waiting_at(
                        final(self).bucket_count() as int,
                        m,
                    ) && !old(self).seen_dominates(m)
                &&& forall|cp: int, m: SearchNode| #[trigger]
                    final(self).waiting_at(cp, m) <==> cp < final(self).bucket_count() && old(self).waiting_at(cp, m)
                &&& forall|m: SearchNode| #[trigger]
                    final(self).seen_dominates(m) ==> old(self).seen_dominates(m) || outclasses(
                        node,
                        m,
                    ) || let_through_dominates(final(self).ready(), 0, m)
            }),
            r matches Some(node) ==> old(self).contains(node) && final(self).seen_dominates(node)
                && !final(self).ready().contains(node),
            final(self).handed_out() == (match r {
                Some(node) => old(self).handed_out().push(node),
                None => old(self).handed_out(),
            }),
            forall|m: SearchNode| #[trigger] final(self).contains(m) ==> old(self).contains(m),
            forall|m: SearchNode| #[trigger]
                old(self).seen_dominates(m) ==> final(self).seen_dominates(m),
            forall|m: SearchNode| #[trigger] old(self).covers(m) ==> final(self).covers(m),
    {
        if self.current.len() > 0 {
            let node = self.current.pop().unwrap();
            self.handed = Ghost(self.handed@.push(node));
            proof {
                let last = old(self).ready().len() - 1;
                assert(old(self).ready()[last] == node);
                assert(old(self).ready().contains(node));
                old(self).lemma_ready_is_seen(node);
                assert(!self.ready().contains(node)) by {
                    if self.ready().contains(node) {
                        let x = choose|x: int| 0 <= x < self.ready().len() && self.ready()[x] == node;
                        assert(old(self).current@[x] == old(self).current@[last]);
                    }
                }
                assert(self.current@.no_duplicates()) by {
                    assert forall|a: int, b: int|
                        0 <= a < self.current@.len() && 0 <= b < self.current@.len() && a
                            != b implies self.current@[a] != self.current@[b] by {
                        assert(old(self).current@[a] != old(self).current@[b]);
                    }
                }
                assert forall|m: SearchNode| #[trigger]
                    self.current@.contains(m) implies old(self).current@.contains(m) by {
                    let x = choose|x: int| 0 <= x < self.current@.len() && self.current@[x] == m;
                    assert(old(self).current@[x] == m);
                }
                lemma_apart_of_fewer(old(self).current@, self.current@);
                assert forall|p: int| 0 <= p < self.current@.len() implies (
                #[trigger] self.current@[p]).state.effects.valid() by {
                    assert(old(self).current@[p].state.effects.valid());
                }
                assert forall|cp: int, m: SearchNode| #[trigger]
                    self.waiting_at(cp, m) <==> old(self).waiting_at(cp, m) by {}
                assert forall|m: SearchNode| #[trigger]
                    self.seen_dominates(m) <==> old(self).seen_dominates(m) by {}
                old(self).lemma_served_after_taking(self, node);
                assert forall|p: int| 0 <= p < self.current@.len() implies self.seen_dominates(
                    #[trigger] self.current@[p],
                ) by {
                    assert(old(self).seen_dominates(old(self).current@[p]));
                }
                assert forall|m: SearchNode| #[trigger] self.contains(m) implies old(self).contains(
                    m,
                ) by {
                    if self.ready().contains(m) {
                        let x = choose|x: int| 0 <= x < self.ready().len() && self.ready()[x] == m;
                        assert(old(self).ready()[x] == m);
                    } else {
                        let cp = choose|cp: int| #[trigger] self.waiting_at(cp, m);
                        assert(old(self).waiting_at(cp, m));
                    }
                }
                assert forall|m: SearchNode| #[trigger] old(self).covers(m) implies self.covers(
                    m,
                ) by {
                    if old(self).ready().contains(m) {
                        let x = choose|x: int|
                            0 <= x < old(self).ready().len() && old(self).ready()[x] == m;
                        if x < last {
                            assert(self.ready()[x] == m);
                        }
                    } else if old(self).waiting(m) {
                        let cp = choose|cp: int| #[trigger] old(self).waiting_at(cp, m);
                        assert(self.waiting_at(cp, m));
                    } else if old(self).blocked(m) {
                        let w = choose|w: SearchNode| #[trigger]
                            old(self).waiting_at(m.state.cp as int, w) && spec_pareto_key(w.state)
                                == spec_pareto_key(m.state) && node_dominates(w, m);
                        assert(self.waiting_at(m.state.cp as int, w));
                    }
                }
            }
            return Some(node);
        }
        loop
            invariant
                self.wf(),
                old(self).wf(),
                old(self).ready().len() == 0,
                self.ready().len() == 0,
                self.handed_out() == old(self).handed_out(),
                self.bucket_count() <= old(self).bucket_count(),
                forall|cp: int, m: SearchNode| #[trigger]
                    self.waiting_at(cp, m) <==> cp < self.bucket_count() && old(self).waiting_at(
                        cp,
                        m,
                    ),
                forall|cp: int, m: SearchNode|
                    cp >= self.bucket_count() && #[trigger] old(self).waiting_at(cp, m) ==> old(self).seen_dominates(m),
                forall|m: SearchNode| #[trigger]
                    self.seen_dominates(m) <==> old(self).seen_dominates(m),
                forall|m: SearchNode| #[trigger] old(self).covers(m) ==> self.covers(m),
            decreases self.bucket_count(),
        {
            let ghost this = *self;
            if self.buckets.len() == 0 {
                proof {
                    assert forall|m: SearchNode| #[trigger] old(self).waiting(m) implies old(self).seen_dominates(m) by {
                        let cp = choose|cp: int| #[trigger] old(self).waiting_at(cp, m);
                        assert(old(self).waiting_at(cp, m));
                    }
                    assert forall|m: SearchNode| #[trigger] self.contains(m) implies old(self).contains(m) by {
                        if self.waiting(m) {
                            let cp = choose|cp: int| #[trigger] self.waiting_at(cp, m);
                            assert(old(self).waiting_at(cp, m));
                        }
                    }
                }
                return None;
            }
            let taken = self.serve_and_take();
            let ghost k = self.bucket_count() as int;
            proof {
                assert forall|cp: int, m: SearchNode| #[trigger]
                    self.waiting_at(cp, m) <==> cp < self.bucket_count() && old(self).waiting_at(
                        cp,
                        m,
                    ) by {
                    assert(this.waiting_at(cp, m) <==> cp < this.bucket_count() && old(self).waiting_at(cp, m));
                }
                assert forall|m: SearchNode| this.waiting_at(k, m) <==> old(self).waiting_at(
                    k,
                    m,
                ) by {}
            }
            match taken {
                Some(node) => {
                    proof {
                        assert forall|m: SearchNode| #[trigger]
                            old(self).seen_dominates(m) implies self.seen_dominates(m) by {
                            assert(this.seen_dominates(m));
                        }
                        assert(this.waiting_at(k, node));
                        assert forall|m: SearchNode| #[trigger]
                            self.seen_dominates(m) implies old(self).seen_dominates(m)
                            || outclasses(node, m) || let_through_dominates(
                            self.ready(),
                            0,
                            m,
                        ) by {
                            assert(this.seen_dominates(m) <==> old(self).seen_dominates(m));
                        }
                        assert forall|m: SearchNode|
                            (m == node || #[trigger] self.ready().contains(m)) <==> old(self).waiting_at(k, m) && !old(self).seen_dominates(m) by {
                            assert(this.seen_dominates(m) <==> old(self).seen_dominates(m));
                            assert(this.waiting_at(k, m) <==> old(self).waiting_at(k, m));
                        }
                        assert forall|m: SearchNode| #[trigger] self.contains(m) implies old(self).contains(m) by {
                            if self.ready().contains(m) {
                                assert(old(self).waiting_at(k, m));
                            } else {
                                let cp = choose|cp: int| #[trigger] self.waiting_at(cp, m);
                                assert(old(self).waiting_at(cp, m));
                            }
                        }
                        assert forall|m: SearchNode| #[trigger] old(self).covers(m) implies self.covers(
                            m,
                        ) by {
                            assert(this.covers(m));
                        }
                    }
                    return Some(node);
                },
                None => {
                    proof {
                        assert forall|cp: int, m: SearchNode|
                            cp >= self.bucket_count() && #[trigger] old(self).waiting_at(
                                cp,
                                m,
                            ) implies old(self).seen_dominates(m) by {
                            if cp == k {
                                assert(this.waiting_at(k, m));
                                assert(this.seen_dominates(m));
                            }
                        }
                        assert forall|m: SearchNode| #[trigger] old(self).covers(m) implies self.covers(
                            m,
                        ) by {
                            assert(this.covers(m));
                        }
                    }
                },
            }
        }
    }

    /// Serves the highest amount that has not been served and, if that lets
    /// nodes through, hands out the last of them.
    #[verifier::rlimit(100)]
    #[verifier::spinoff_prover]
    fn serve_and_take(&mut self) -> (r: Option<SearchNode>)
        requires
            old(self).wf(),
            old(self).ready().len() == 0,
            old(self).bucket_count() > 0,
        ensures
            final(self).wf(),
            final(self).bucket_count() == old(self).bucket_count() - 1,
            final(self).handed_out() == (match r {
                Some(node) => old(self).handed_out().push(node),
                None => old(self).handed_out(),
            }),
            forall|cp: int, m: SearchNode| #[trigger]
                final(self).waiting_at(cp, m) <==> cp < final(self).bucket_count() && old(self).waiting_at(cp, m),
            r is None ==> {
                &&& final(self).ready().len() == 0
                &&& forall|m: SearchNode| #[trigger]
                    old(self).waiting_at(final(self).bucket_count() as int, m) ==> old(self).seen_dominates(m)
                &&& forall|m: SearchNode| #[trigger]
                    final(self).seen_dominates(m) <==> old(self).seen_dominates(m)
            },
            r matches Some(node) ==> {
                &&& node.state.cp == final(self).bucket_count()
                &&& old(self).waiting_at(final(self).bucket_count() as int, node)
                &&& final(self).seen_dominates(node)
                &&& !final(self).ready().contains(node)
                &&& forall|m: SearchNode|
                    #![trigger final(self).ready().contains(m)]
                    #![trigger old(self).waiting_at(final(self).bucket_count() as int, m)]
                    (m == node || final(self).ready().contains(m)) <==> old(self).waiting_at(
                        final(self).bucket_count() as int,
                        m,
                    ) && !old(self).seen_dominates(m)
                &&& forall|m: SearchNode| #[trigger]
                    final(self).seen_dominates(m) ==> old(self).seen_dominates(m) || outclasses(
                        node,
                        m,
                    ) || let_through_dominates(final(self).ready(), 0, m)
            },
            forall|m: SearchNode| #[trigger]
                old(self).seen_dominates(m) ==> final(self).seen_dominates(m),
            forall|m: SearchNode| #[trigger] old(self).covers(m) ==> final(self).covers(m),
    {
        let served_any = self.pop_bucket();
        let ghost k = self.bucket_count() as int;
        let ghost served = self.current@;
        let ghost after = *self;
        proof {
            assert forall|m: SearchNode| served.contains(m) <==> let_through(served, 0, m) by {
                if served.contains(m) {
                    let x = choose|x: int| 0 <= x < served.len() && served[x] == m;
                    assert(served[x] == m);
                }
                if let_through(served, 0, m) {
                    let x = choose|x: int| 0 <= x < served.len() && #[trigger] served[x] == m;
                    assert(served[x] == m);
                }
            }
            assert forall|m: SearchNode|
                served.contains(m) <==> old(self).waiting_at(k, m) && !old(self).seen_dominates(
                    m,
                ) by {
                assert(let_through(served, 0, m) <==> old(self).waiting_at(k, m) && !old(self).seen_dominates(m));
            }
        }
        if self.current.len() > 0 {
            let node = self.current.pop().unwrap();
            self.handed = Ghost(self.handed@.push(node));
            proof {
                let last = served.len() - 1;
                assert(served[last] == node);
                assert(served.contains(node));
                assert(old(self).waiting_at(k, node));
                old(self).lemma_waiting_nodes(k, node, node);
                assert(after.seen_dominates(node));
                assert(!self.ready().contains(node)) by {
                    if self.ready().contains(node) {
                        let x = choose|x: int| 0 <= x < self.ready().len() && self.ready()[x] == node;
                        assert(after.current@[x] == after.current@[last]);
                    }
                }
                assert(self.current@.no_duplicates()) by {
                    assert forall|a: int, b: int|
                        0 <= a < self.current@.len() && 0 <= b < self.current@.len() && a
                            != b implies self.current@[a] != self.current@[b] by {
                        assert(after.current@[a] != after.current@[b]);
                    }
                }
                assert forall|m: SearchNode| #[trigger]
                    self.current@.contains(m) implies served.contains(m) by {
                    let x = choose|x: int| 0 <= x < self.current@.len() && self.current@[x] == m;
                    assert(served[x] == m);
                }
                lemma_apart_of_fewer(served, self.current@);
                assert forall|p: int| 0 <= p < self.current@.len() implies (
                #[trigger] self.current@[p]).state.effects.valid() by {
                    assert(after.current@[p].state.effects.valid());
                }
                assert forall|m: SearchNode| #[trigger]
                    self.seen_dominates(m) implies old(self).seen_dominates(m) || outclasses(
                        node,
                        m,
                    ) || let_through_dominates(self.ready(), 0, m) by {
                    assert(after.seen_dominates(m));
                    if !old(self).seen_dominates(m) {
                        assert(let_through_dominates(served, 0, m));
                        let p = choose|p: int|
                            0 <= p < served.len() && spec_pareto_key(
                                (#[trigger] served[p]).state,
                            ) == spec_pareto_key(m.state) && node_dominates(served[p], m);
                        if p < last {
                            assert(self.ready()[p] == served[p]);
                        }
                    }
                }
                assert forall|m: SearchNode|
                    (m == node || #[trigger] self.ready().contains(m)) <==> old(self).waiting_at(
                        k,
                        m,
                    ) && !old(self).seen_dominates(m) by {
                    if self.ready().contains(m) {
                        let x = choose|x: int| 0 <= x < self.ready().len() && self.ready()[x] == m;
                        assert(served[x] == m);
                    }
                    if served.contains(m) && m != node {
                        let x = choose|x: int| 0 <= x < served.len() && served[x] == m;
                        assert(self.ready()[x] == m);
                    }
                }
                assert forall|p: int| 0 <= p < self.current@.len() implies self.seen_dominates(
                    #[trigger] self.current@[p],
                ) by {
                    assert(served[p] == self.current@[p]);
                    assert(after.seen_dominates(after.current@[p]));
                }
                assert forall|cp: int, m: SearchNode| #[trigger]
                    self.waiting_at(cp, m) <==> after.waiting_at(cp, m) by {}
                assert forall|m: SearchNode| #[trigger]
                    self.seen_dominates(m) <==> after.seen_dominates(m) by {}
                after.lemma_served_after_taking(self, node);
                assert forall|m: SearchNode| #[trigger] old(self).covers(m) implies self.covers(
                    m,
                ) by {
                    assert(after.covers(m));
                    if after.ready().contains(m) {
                        if m != node {
                            let x = choose|x: int| 0 <= x < served.len() && served[x] == m;
                            assert(self.ready()[x] == m);
                        }
                    } else if after.waiting(m) {
                        let cp = choose|cp: int| #[trigger] after.waiting_at(cp, m);
                        assert(self.waiting_at(cp, m));
                    } else if after.blocked(m) {
                        let w = choose|w: SearchNode| #[trigger]
                            after.waiting_at(m.state.cp as int, w) && spec_pareto_key(w.state)
                                == spec_pareto_key(m.state) && node_dominates(w, m);
                        assert(self.waiting_at(m.state.cp as int, w));
                    }
                }
            }
            Some(node)
        } else {
            proof {
                assert forall|m: SearchNode| #[trigger]
                    old(self).waiting_at(k, m) implies old(self).seen_dominates(m) by {
                    assert(!served.contains(m));
                }
                assert forall|m: SearchNode| #[trigger]
                    self.seen_dominates(m) implies old(self).seen_dominates(m) by {
                    if !old(self).seen_dominates(m) {
                        assert(let_through_dominates(self.ready(), 0, m));
                    }
                }
            }
            None
        }
    }
}

} // verus!
