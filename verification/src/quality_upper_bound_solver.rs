use vstd::prelude::*;
use rustc_hash::FxHashMap;
use rustc_hash::FxHasher;
use crate::actions::Action;
use crate::actions::Combo;
use crate::effects::Effects;
use crate::effects::SingleUse;
use crate::mask::ActionMask;
use crate::pareto_front_builder::ParetoFrontBuilder;
use crate::pareto_front_builder::ParetoValue;
use crate::pareto_front_builder::clamped;
use crate::pareto_front_builder::covered;
use crate::pareto_front_builder::dominates;
use crate::pareto_front_builder::is_clamp_of_either;
use crate::pareto_front_builder::is_clamped_union;
use crate::pareto_front_builder::is_shifted_front;
use crate::pareto_front_builder::is_front;
use crate::pareto_front_builder::is_shift_of;
use crate::pareto_front_builder::lemma_covered_transitive;
use crate::pareto_front_builder::shifted;
use crate::reduced_state::ReducedState;
use crate::reduced_state::UNBOUNDED_DURABILITY;
use crate::reduced_state::clamp_cp;
use crate::reduced_state::lemma_key_injective;
use crate::reduced_state::spec_clamp_cp;
use crate::settings::Settings;
use crate::state::Condition;
use crate::state::SimulationState;

verus! {

/// `FxHasher` of `rustc_hash`, the hasher of the table of computed fronts.
/// Nothing is said of what is inside it.
#[verifier::external_type_specification]
#[verifier::external_body]
pub struct ExFxHasher(FxHasher);

/// `BuildHasherDefault` of std, through which `rustc_hash` hands its hasher
/// to `HashMap`. Nothing is said of what is inside it.
#[verifier::external_type_specification]
#[verifier::external_body]
#[verifier::reject_recursive_types(H)]
pub struct ExBuildHasherDefault<H>(std::hash::BuildHasherDefault<H>);

/// `FxHashMap::default` of `rustc_hash`: a map with no entry.
#[verifier::external_body]
fn memo_new() -> (table: FxHashMap<u64, Vec<ParetoValue>>)
    ensures
        forall|k: u64| !table@.contains_key(k),
{
    FxHashMap::default()
}

/// `HashMap::get` on a map of `rustc_hash`: the value stored under the key,
/// if one is.
#[verifier::external_body]
fn memo_get(table: &FxHashMap<u64, Vec<ParetoValue>>, key: u64) -> (r: Option<&Vec<ParetoValue>>)
    ensures
        r == (if table@.contains_key(key) {
            Some(&table@[key])
        } else {
            None
        }),
{
    table.get(&key)
}

/// `HashMap::insert` on a map of `rustc_hash`: afterwards the key holds the
/// value, and every other key what it held.
#[verifier::external_body]
fn memo_insert(table: &mut FxHashMap<u64, Vec<ParetoValue>>, key: u64, value: Vec<ParetoValue>)
    ensures
        final(table)@ == old(table)@.insert(key, value),
{
    table.insert(key, value);
}

/// What one solve fixes: the settings, and the prices in crafting points of
/// 5 durability and of one turn of Waste Not.
#[derive(Clone, Copy, Debug)]
pub struct SolverContext {
    pub settings: Settings,
    pub base_durability_cost: i16,
    pub waste_not_cost: i16,
}

/// Crafting points that one stack of Manipulation is worth.
pub const MANIPULATION_STACK_VALUE: i16 = 12;

impl SolverContext {
    pub open spec fn valid(self) -> bool {
        &&& self.settings.valid()
        &&& !self.settings.adversarial
        &&& 1 <= self.base_durability_cost <= 14
        &&& 0 <= self.waste_not_cost <= 14
    }

    /// The cap on progress in a front: the recipe's progress.
    pub open spec fn max_first(self) -> u16 {
        self.settings.max_progress
    }

    /// The cap on quality in a front: twice the recipe's quality, as far as
    /// 16 bits hold it.
    pub open spec fn max_second(self) -> u16 {
        if self.settings.max_quality > 0x7fff {
            0xffffu16
        } else {
            (2 * self.settings.max_quality) as u16
        }
    }
}

/// The price of 5 durability: the cheapest of Master's Mend (30 durability),
/// Manipulation (40 over its eight turns) and Immaculate Mend (everything but
/// the last 5), as far as they are allowed. Immaculate Mend counts only
/// where the item has more than 5 durability to restore.
pub open spec fn spec_base_durability_cost(settings: Settings) -> i16 {
    let mend = 14i16;
    let manipulation = if settings.allowed_actions.spec_has(Action::Manipulation) {
        12i16
    } else {
        mend
    };
    if settings.allowed_actions.spec_has(Action::ImmaculateMend) && settings.max_durability / 5
        > 1 {
        let immaculate = (112int / (settings.max_durability / 5 - 1)) as i16;
        if immaculate < manipulation {
            immaculate
        } else {
            manipulation
        }
    } else {
        manipulation
    }
}

/// The price of one turn of Waste Not: an eighth of Waste Not II where that
/// is allowed, else a quarter of Waste Not.
pub open spec fn spec_waste_not_cost(settings: Settings) -> i16 {
    if settings.allowed_actions.spec_has(Action::WasteNot2) {
        12i16
    } else {
        14i16
    }
}

/// The moves that the bound considers: those that raise progress or
/// quality or prepare for it. The repair moves are left out: durability is
/// paid for in crafting points.
pub open spec fn in_search(a: Action) -> bool {
    in_progress_actions(a) || in_quality_actions(a) || a == Action::TrainedPerfection
}

/// The moves that raise progress or prepare for it.
pub open spec fn in_progress_actions(a: Action) -> bool {
    match a {
        Action::BasicSynthesis
        | Action::Veneration
        | Action::MuscleMemory
        | Action::CarefulSynthesis
        | Action::Groundwork
        | Action::DelicateSynthesis
        | Action::IntensiveSynthesis
        | Action::HeartAndSoul
        | Action::PrudentSynthesis => true,
        _ => false,
    }
}

/// The moves that raise quality or prepare for it.
pub open spec fn in_quality_actions(a: Action) -> bool {
    match a {
        Action::BasicTouch
        | Action::Observe
        | Action::StandardTouch
        | Action::ComboStandardTouch
        | Action::GreatStrides
        | Action::Innovation
        | Action::ByregotsBlessing
        | Action::PreciseTouch
        | Action::PrudentTouch
        | Action::AdvancedTouch
        | Action::ComboAdvancedTouch
        | Action::Reflect
        | Action::PreparatoryTouch
        | Action::DelicateSynthesis
        | Action::TrainedEye
        | Action::HeartAndSoul
        | Action::TrainedFinesse
        | Action::RefinedTouch
        | Action::ComboRefinedTouch
        | Action::QuickInnovation => true,
        _ => false,
    }
}

pub fn progress_actions() -> (r: ActionMask)
    ensures
        forall|a: Action| r.spec_has(a) == in_progress_actions(a),
{
    ActionMask::none().add(Action::BasicSynthesis).add(Action::Veneration).add(
        Action::MuscleMemory,
    ).add(Action::CarefulSynthesis).add(Action::Groundwork).add(Action::DelicateSynthesis).add(
        Action::IntensiveSynthesis,
    ).add(Action::HeartAndSoul).add(Action::PrudentSynthesis)
}

pub fn quality_actions() -> (r: ActionMask)
    ensures
        forall|a: Action| r.spec_has(a) == in_quality_actions(a),
{
    let touches = ActionMask::none().add(Action::BasicTouch).add(Action::StandardTouch).add(
        Action::ComboStandardTouch,
    ).add(Action::ByregotsBlessing).add(Action::PreciseTouch).add(Action::PrudentTouch).add(
        Action::AdvancedTouch,
    ).add(Action::ComboAdvancedTouch).add(Action::Reflect).add(Action::PreparatoryTouch);
    let others = ActionMask::none().add(Action::Observe).add(Action::GreatStrides).add(
        Action::Innovation,
    ).add(Action::DelicateSynthesis).add(Action::TrainedEye).add(Action::HeartAndSoul).add(
        Action::TrainedFinesse,
    ).add(Action::RefinedTouch).add(Action::ComboRefinedTouch).add(Action::QuickInnovation);
    touches.union(others)
}

pub fn search_actions() -> (r: ActionMask)
    ensures
        forall|a: Action| r.spec_has(a) == in_search(a),
{
    progress_actions().union(quality_actions()).add(Action::TrainedPerfection)
}

/// One move from a reduced state under the normal condition: the reduced
/// state after it and what the move made, or `None` if it cannot be made.
#[verifier::opaque]
pub open spec fn spec_child(ctx: SolverContext, s: ReducedState, a: Action) -> Option<
    (ReducedState, ParetoValue),
> {
    match s.spec_to_state().spec_use_action(a, Condition::Normal, ctx.settings) {
        Ok(next) => Some(
            (
                ReducedState::spec_from_state(
                    next,
                    ctx.base_durability_cost,
                    ctx.waste_not_cost,
                ),
                ParetoValue { first: next.progress as u16, second: next.spec_get_quality() },
            ),
        ),
        Err(_) => None,
    }
}

/// `c` is lower than `s` in the order that every considered move descends:
/// fewer crafting points, or as many and a token further spent.
pub open spec fn descends(c: ReducedState, s: ReducedState) -> bool {
    c.cp < s.cp || (c.cp == s.cp && c.effects.token_rank() < s.effects.token_rank())
}

/// What a sequence of considered moves makes from `s`, progress and quality
/// both held at the caps: every move is paid for in crafting points, which
/// must stay positive between the moves; the last move must raise progress
/// and may overdraw by the price of 5 durability. `None` if the sequence is
/// empty or one of its moves cannot be made so.
pub open spec fn outcome(ctx: SolverContext, s: ReducedState, moves: Seq<Action>) -> Option<
    ParetoValue,
>
    decreases moves.len(),
{
    if moves.len() == 0 || !in_search(moves[0]) {
        None
    } else {
        match spec_child(ctx, s, moves[0]) {
            None => None,
            Some((c, g)) => {
                if moves.len() == 1 {
                    if c.cp + ctx.base_durability_cost >= 0 && g.first != 0 {
                        Some(clamped(g, ctx.max_first(), ctx.max_second()))
                    } else {
                        None
                    }
                } else if c.cp > 0 {
                    match outcome(ctx, c, moves.skip(1)) {
                        Some(w) => Some(
                            shifted(
                                w,
                                g.first as u32,
                                g.second as u32,
                                ctx.max_first(),
                                ctx.max_second(),
                            ),
                        ),
                        None => None,
                    }
                } else {
                    None
                }
            },
        }
    }
}

/// From `s`, some sequence of considered moves makes `v`.
#[verifier::opaque]
pub open spec fn reachable(ctx: SolverContext, s: ReducedState, v: ParetoValue) -> bool {
    exists|moves: Seq<Action>| #[trigger] outcome(ctx, s, moves) == Some(v)
}

/// After a first move that made `gain` and led to `c`, some sequence of
/// considered moves from `c` brings the total to `v`.
pub open spec fn goes_on_to(
    ctx: SolverContext,
    c: ReducedState,
    gain: ParetoValue,
    v: ParetoValue,
) -> bool {
    exists|w: ParetoValue|
        reachable(ctx, c, w) && v == #[trigger] shifted(
            w,
            gain.first as u32,
            gain.second as u32,
            ctx.max_first(),
            ctx.max_second(),
        )
}

/// From `s`, some sequence of considered moves that begins with `a` makes
/// `v`: either `a` alone, or `a` and then a sequence from the state after it.
#[verifier::opaque]
pub open spec fn step_reaches(ctx: SolverContext, s: ReducedState, a: Action, v: ParetoValue) -> bool {
    in_search(a) && match spec_child(ctx, s, a) {
        Some((c, g)) => {
            ||| (c.cp + ctx.base_durability_cost >= 0 && g.first != 0 && v == clamped(
                g,
                ctx.max_first(),
                ctx.max_second(),
            ))
            ||| (c.cp > 0 && goes_on_to(ctx, c, g, v))
        },
        None => false,
    }
}

/// What can be made from `s` is what can be made with some first move.
pub proof fn lemma_reachable_by_first_move(ctx: SolverContext, s: ReducedState, v: ParetoValue)
    ensures
        reachable(ctx, s, v) <==> exists|a: Action| step_reaches(ctx, s, a, v),
{
    reveal(reachable);
    reveal(step_reaches);
    if reachable(ctx, s, v) {
        let moves = choose|moves: Seq<Action>| #[trigger] outcome(ctx, s, moves) == Some(v);
        let a = moves[0];
        let (c, g) = spec_child(ctx, s, a).unwrap();
        if moves.len() > 1 {
            let w = outcome(ctx, c, moves.skip(1)).unwrap();
            assert(reachable(ctx, c, w));
        }
        assert(step_reaches(ctx, s, a, v));
    }
    if exists|a: Action| step_reaches(ctx, s, a, v) {
        let a = choose|a: Action| step_reaches(ctx, s, a, v);
        lemma_step_is_reachable(ctx, s, a, v);
    }
}

/// What can be made with `a` as the first move can be made.
pub proof fn lemma_step_is_reachable(ctx: SolverContext, s: ReducedState, a: Action, v: ParetoValue)
    requires
        step_reaches(ctx, s, a, v),
    ensures
        reachable(ctx, s, v),
{
    reveal(reachable);
    reveal(step_reaches);
    let (c, g) = spec_child(ctx, s, a).unwrap();
    if c.cp + ctx.base_durability_cost >= 0 && g.first != 0 && v == clamped(
        g,
        ctx.max_first(),
        ctx.max_second(),
    ) {
        let moves = seq![a];
        assert(outcome(ctx, s, moves) == Some(v));
    } else {
        let w = choose|w: ParetoValue|
            reachable(ctx, c, w) && v == #[trigger] shifted(
                w,
                g.first as u32,
                g.second as u32,
                ctx.max_first(),
                ctx.max_second(),
            );
        let rest = choose|rest: Seq<Action>| #[trigger] outcome(ctx, c, rest) == Some(w);
        let moves = seq![a] + rest;
        assert(rest.len() > 0);
        assert(moves.skip(1) =~= rest);
        assert(moves[0] == a);
        assert(outcome(ctx, s, moves) == Some(v));
    }
}

/// Every point of `f` can be made from `s`.
pub open spec fn all_reachable(ctx: SolverContext, s: ReducedState, f: Seq<ParetoValue>) -> bool {
    forall|k: int| 0 <= k < f.len() ==> reachable(ctx, s, #[trigger] f[k])
}

/// `f` is the front of what can be made from `s`: a front of points that
/// can be made, which covers every point that can be made.
#[verifier::opaque]
pub open spec fn is_front_of(ctx: SolverContext, s: ReducedState, f: Seq<ParetoValue>) -> bool {
    &&& is_front(f)
    &&& all_reachable(ctx, s, f)
    &&& forall|v: ParetoValue| #[trigger] reachable(ctx, s, v) ==> covered(f, v)
}

/// A front of what can be made is a front.
pub proof fn lemma_front_of_is_front(ctx: SolverContext, s: ReducedState, f: Seq<ParetoValue>)
    requires
        is_front_of(ctx, s, f),
    ensures
        is_front(f),
        all_reachable(ctx, s, f),
{
    reveal(is_front_of);
}

/// A front of what can be made covers what can be made.
pub proof fn lemma_front_of_covers(
    ctx: SolverContext,
    s: ReducedState,
    f: Seq<ParetoValue>,
    v: ParetoValue,
)
    requires
        is_front_of(ctx, s, f),
        reachable(ctx, s, v),
    ensures
        covered(f, v),
{
    reveal(is_front_of);
}

/// A state has one front: two fronts of what can be made from a state are
/// equal.
pub proof fn lemma_front_of_is_unique(
    ctx: SolverContext,
    s: ReducedState,
    f: Seq<ParetoValue>,
    g: Seq<ParetoValue>,
)
    requires
        is_front_of(ctx, s, f),
        is_front_of(ctx, s, g),
    ensures
        f == g,
{
    lemma_front_of_is_front(ctx, s, f);
    lemma_front_of_is_front(ctx, s, g);
    assert(crate::pareto_front_builder::covers_all(g, f)) by {
        assert forall|i: int| 0 <= i < f.len() implies covered(g, #[trigger] f[i]) by {
            lemma_front_of_covers(ctx, s, g, f[i]);
        }
        reveal(crate::pareto_front_builder::covers_all);
    }
    assert(crate::pareto_front_builder::covers_all(f, g)) by {
        assert forall|i: int| 0 <= i < g.len() implies covered(f, #[trigger] g[i]) by {
            lemma_front_of_covers(ctx, s, f, g[i]);
        }
        reveal(crate::pareto_front_builder::covers_all);
    }
    crate::pareto_front_builder::lemma_front_is_unique(f, g);
}

/// Within the reduced model the front never falls along a move: the front
/// of a state covers every point of the front of the state that a
/// considered move leads to, raised by what the move makes, as long as
/// crafting points are left after the move.
pub proof fn lemma_front_covers_successor(
    ctx: SolverContext,
    s: ReducedState,
    a: Action,
    c: ReducedState,
    gain: ParetoValue,
    front: Seq<ParetoValue>,
    next_front: Seq<ParetoValue>,
    i: int,
)
    requires
        in_search(a),
        spec_child(ctx, s, a) == Some((c, gain)),
        c.cp > 0,
        is_front_of(ctx, s, front),
        is_front_of(ctx, c, next_front),
        0 <= i < next_front.len(),
    ensures
        covered(
            front,
            shifted(
                next_front[i],
                gain.first as u32,
                gain.second as u32,
                ctx.max_first(),
                ctx.max_second(),
            ),
        ),
{
    let v = shifted(
        next_front[i],
        gain.first as u32,
        gain.second as u32,
        ctx.max_first(),
        ctx.max_second(),
    );
    lemma_front_of_is_front(ctx, c, next_front);
    assert(reachable(ctx, c, next_front[i]));
    assert(goes_on_to(ctx, c, gain, v));
    assert(step_reaches(ctx, s, a, v)) by {
        reveal(step_reaches);
    }
    lemma_step_is_reachable(ctx, s, a, v);
    lemma_front_of_covers(ctx, s, front, v);
}

/// What can be made lies within the caps.
pub proof fn lemma_reachable_within(ctx: SolverContext, s: ReducedState, v: ParetoValue)
    requires
        reachable(ctx, s, v),
    ensures
        v.first <= ctx.max_first(),
        v.second <= ctx.max_second(),
        clamped(v, ctx.max_first(), ctx.max_second()) == v,
{
    reveal(reachable);
    let moves = choose|moves: Seq<Action>| #[trigger] outcome(ctx, s, moves) == Some(v);
    assert(outcome(ctx, s, moves) == Some(v));
}

/// Moving two points by the same offsets keeps the one above the other.
pub proof fn lemma_shift_monotone(
    x: ParetoValue,
    y: ParetoValue,
    delta_first: u32,
    delta_second: u32,
    max_first: u16,
    max_second: u16,
)
    requires
        dominates(x, y),
    ensures
        dominates(
            shifted(x, delta_first, delta_second, max_first, max_second),
            shifted(y, delta_first, delta_second, max_first, max_second),
        ),
{
}

/// Every considered move descends: it costs crafting points, or wears the
/// item, which is paid for in crafting points, or spends a token.
pub proof fn lemma_child_descends(ctx: SolverContext, s: ReducedState, a: Action)
    requires
        ctx.valid(),
        s.valid(),
        in_search(a),
        spec_child(ctx, s, a) is Some,
    ensures
        descends(spec_child(ctx, s, a).unwrap().0, s),
        spec_child(ctx, s, a).unwrap().0.valid(),
        spec_child(ctx, s, a).unwrap().1.first <= ctx.max_first(),
        s.cp >= 0,
{
    reveal(SimulationState::spec_use_action);
    reveal(spec_child);
    let before = s.spec_to_state();
    let next = before.spec_use_action(a, Condition::Normal, ctx.settings).unwrap();
    let mid = crate::state::spec_after_gain(before, a, Condition::Normal, ctx.settings);
    let wear = crate::state::spec_durability_cost(a, s.effects);
    assert(crate::state::spec_rejection(before, a, Condition::Normal, ctx.settings) is None);
    assert(mid.cp == s.cp - a.spec_cp_cost());
    assert(mid.durability == UNBOUNDED_DURABILITY - wear);
    assert(next.cp == mid.cp);
    assert(next.durability == mid.durability);
    let used = crate::reduced_state::spec_used_units(next.durability);
    assert(used == wear / 5);
    let price = crate::reduced_state::spec_durability_price(
        used,
        ctx.base_durability_cost as int,
        ctx.waste_not_cost as int,
    );
    assert(wear == 0 || wear == 5 || wear == 10 || wear == 20);
    assert(wear > 0 ==> price >= 1) by (nonlinear_arith)
        requires
            used == wear / 5,
            wear == 0 || wear == 5 || wear == 10 || wear == 20,
            1 <= ctx.base_durability_cost <= 14,
            0 <= ctx.waste_not_cost <= 14,
            price == crate::reduced_state::spec_durability_price(
                used,
                ctx.base_durability_cost as int,
                ctx.waste_not_cost as int,
            ),
    ;
    assert(0 <= price <= 56 + 14) by (nonlinear_arith)
        requires
            used == wear / 5,
            wear == 0 || wear == 5 || wear == 10 || wear == 20,
            1 <= ctx.base_durability_cost <= 14,
            0 <= ctx.waste_not_cost <= 14,
            price == crate::reduced_state::spec_durability_price(
                used,
                ctx.base_durability_cost as int,
                ctx.waste_not_cost as int,
            ),
    ;
    let c = spec_child(ctx, s, a).unwrap().0;
    assert(c.cp == next.cp - price);
    assert(s.cp >= a.spec_cp_cost());
    if a.spec_cp_cost() == 0 && wear == 0 {
        if a != Action::BasicSynthesis {
            crate::state::lemma_no_efficiency_no_progress(a, ctx.settings, s.effects);
        }
        assert(mid.progress == 0 || a == Action::BasicSynthesis);
        if a == Action::BasicSynthesis {
            assert(s.effects.trained_perfection == SingleUse::Active);
            assert(mid.effects.trained_perfection == SingleUse::Unavailable);
            assert(mid.effects.heart_and_soul == s.effects.heart_and_soul);
            assert(mid.effects.quick_innovation == s.effects.quick_innovation);
            assert(next.effects.trained_perfection == SingleUse::Unavailable);
            assert(next.effects.heart_and_soul == s.effects.heart_and_soul);
            assert(next.effects.quick_innovation == s.effects.quick_innovation);
        } else {
            assert(a == Action::HeartAndSoul || a == Action::QuickInnovation || a
                == Action::TrainedPerfection);
            assert(!mid.spec_is_final(ctx.settings));
            assert(next == crate::state::spec_end_turn(
                before,
                mid,
                a,
                Condition::Normal,
                ctx.settings,
            ));
        }
        assert(c.effects.token_rank() < s.effects.token_rank());
    }
}

/// `rich` is `poor` with at least as many crafting points, and with the
/// same combo open unless `poor` has none.
pub open spec fn has_more_points(rich: ReducedState, poor: ReducedState) -> bool {
    rich.cp >= poor.cp && (rich.combo == poor.combo || poor.combo == Combo::NoCombo)
        && rich.effects == poor.effects
}

/// A considered move that can be made can be made with more crafting
/// points: it makes the same, and leaves as many points more as there were
/// more before it.
#[verifier::rlimit(40)]
pub proof fn lemma_child_with_more_points(
    ctx: SolverContext,
    poor: ReducedState,
    rich: ReducedState,
    a: Action,
)
    requires
        ctx.valid(),
        poor.valid(),
        has_more_points(rich, poor),
        in_search(a),
        spec_child(ctx, poor, a) is Some,
    ensures
        spec_child(ctx, rich, a) is Some,
        spec_child(ctx, rich, a).unwrap().1 == spec_child(ctx, poor, a).unwrap().1,
        has_more_points(spec_child(ctx, rich, a).unwrap().0, spec_child(ctx, poor, a).unwrap().0),
        spec_child(ctx, rich, a).unwrap().0.cp - spec_child(ctx, poor, a).unwrap().0.cp == rich.cp
            - poor.cp,
{
    lemma_child_descends(ctx, poor, a);
    reveal(SimulationState::spec_use_action);
    reveal(spec_child);
    let before = poor.spec_to_state();
    let before2 = rich.spec_to_state();
    let mid = crate::state::spec_after_gain(before, a, Condition::Normal, ctx.settings);
    let mid2 = crate::state::spec_after_gain(before2, a, Condition::Normal, ctx.settings);
    let wear = crate::state::spec_durability_cost(a, poor.effects);
    assert(crate::state::spec_rejection(before, a, Condition::Normal, ctx.settings) is None);
    assert(crate::state::spec_rejection(before2, a, Condition::Normal, ctx.settings) is None);
    assert(mid.cp == poor.cp - a.spec_cp_cost());
    assert(mid2.cp == rich.cp - a.spec_cp_cost());
    assert(mid2 == SimulationState { cp: mid2.cp, ..mid });
    assert(mid2.spec_is_final(ctx.settings) == mid.spec_is_final(ctx.settings));
    let next = before.spec_use_action(a, Condition::Normal, ctx.settings).unwrap();
    let next2 = before2.spec_use_action(a, Condition::Normal, ctx.settings).unwrap();
    assert(a != Action::TricksOfTheTrade);
    assert(next.cp == mid.cp);
    assert(next2.cp == mid2.cp);
    assert(next2 == SimulationState { cp: next2.cp, ..next });
    assert(wear == 0 || wear == 5 || wear == 10 || wear == 20);
    assert(next.durability == UNBOUNDED_DURABILITY - wear);
    let used = crate::reduced_state::spec_used_units(next.durability);
    let price = crate::reduced_state::spec_durability_price(
        used,
        ctx.base_durability_cost as int,
        ctx.waste_not_cost as int,
    );
    assert(0 <= price <= 56 + 14) by (nonlinear_arith)
        requires
            used == wear / 5,
            wear == 0 || wear == 5 || wear == 10 || wear == 20,
            1 <= ctx.base_durability_cost <= 14,
            0 <= ctx.waste_not_cost <= 14,
            price == crate::reduced_state::spec_durability_price(
                used,
                ctx.base_durability_cost as int,
                ctx.waste_not_cost as int,
            ),
    ;
    let c = spec_child(ctx, poor, a).unwrap().0;
    let c2 = spec_child(ctx, rich, a).unwrap().0;
    assert(c.cp == next.cp - price);
    assert(c2.cp == next2.cp - price);
}

/// What a sequence of considered moves makes, it makes with more crafting
/// points too.
pub proof fn lemma_outcome_with_more_points(
    ctx: SolverContext,
    poor: ReducedState,
    rich: ReducedState,
    moves: Seq<Action>,
)
    requires
        ctx.valid(),
        poor.valid(),
        has_more_points(rich, poor),
        outcome(ctx, poor, moves) is Some,
    ensures
        outcome(ctx, rich, moves) == outcome(ctx, poor, moves),
    decreases moves.len(),
{
    let a = moves[0];
    lemma_child_with_more_points(ctx, poor, rich, a);
    lemma_child_descends(ctx, poor, a);
    let (c, g) = spec_child(ctx, poor, a).unwrap();
    let (c2, g2) = spec_child(ctx, rich, a).unwrap();
    if moves.len() > 1 {
        lemma_outcome_with_more_points(ctx, c, c2, moves.skip(1));
    }
}

/// What can be made from a state can be made from it with more crafting
/// points.
pub proof fn lemma_more_points_reach_as_much(
    ctx: SolverContext,
    poor: ReducedState,
    rich: ReducedState,
    v: ParetoValue,
)
    requires
        ctx.valid(),
        poor.valid(),
        has_more_points(rich, poor),
        reachable(ctx, poor, v),
    ensures
        reachable(ctx, rich, v),
{
    reveal(reachable);
    let moves = choose|moves: Seq<Action>| #[trigger] outcome(ctx, poor, moves) == Some(v);
    lemma_outcome_with_more_points(ctx, poor, rich, moves);
    assert(outcome(ctx, rich, moves) == Some(v));
}

/// More crafting points never lower the front, nor does an open combo:
/// the front of a state with more crafting points, and else the same or
/// with a combo open where the other has none, covers every point of the
/// front of the other.
pub proof fn lemma_front_grows_with_points(
    ctx: SolverContext,
    poor: ReducedState,
    rich: ReducedState,
    poor_front: Seq<ParetoValue>,
    rich_front: Seq<ParetoValue>,
    i: int,
)
    requires
        ctx.valid(),
        poor.valid(),
        has_more_points(rich, poor),
        is_front_of(ctx, poor, poor_front),
        is_front_of(ctx, rich, rich_front),
        0 <= i < poor_front.len(),
    ensures
        covered(rich_front, poor_front[i]),
{
    lemma_front_of_is_front(ctx, poor, poor_front);
    assert(reachable(ctx, poor, poor_front[i]));
    lemma_more_points_reach_as_much(ctx, poor, rich, poor_front[i]);
    lemma_front_of_covers(ctx, rich, rich_front, poor_front[i]);
}

/// The bound on the quality that can still be made from a state, with the
/// fronts it has computed so far.
pub struct QualityUpperBoundSolver {
    context: SolverContext,
    /// The considered moves that are allowed, in the order of the catalogue.
    actions: Vec<Action>,
    solved_states: FxHashMap<u64, Vec<ParetoValue>>,
    pareto_front_builder: ParetoFrontBuilder,
}

/// Whether an unspent or active Trained Perfection is credited.
pub open spec fn spec_credits_perfection(ctx: SolverContext, state: SimulationState) -> bool {
    state.effects.trained_perfection != SingleUse::Unavailable
        && ctx.settings.allowed_actions.spec_has(Action::TrainedPerfection)
}

/// The durability in units of 5, rounded towards zero: a craft that ended
/// five below zero owes one unit.
pub open spec fn spec_durability_units(durability: i8) -> int {
    if durability >= 0 {
        durability / 5
    } else {
        -((-durability) / 5)
    }
}

/// Crafting points that the state's buffs and durability are worth at
/// most: each stack of Manipulation and each turn of Waste Not its price,
/// each 5 durability the price of restoring it, and Trained Perfection the
/// price of the 20 durability it can save.
pub open spec fn spec_credit(ctx: SolverContext, state: SimulationState) -> int {
    state.effects.manipulation * MANIPULATION_STACK_VALUE + state.effects.waste_not
        * ctx.waste_not_cost + spec_durability_units(state.durability)
        * ctx.base_durability_cost + (if spec_credits_perfection(ctx, state) {
        4 * ctx.base_durability_cost
    } else {
        0
    })
}

/// The reduction of any state: Manipulation, Waste Not, the durability left
/// and Trained Perfection are turned into crafting points; durability then
/// never runs out.
#[verifier::opaque]
pub open spec fn spec_reduce(ctx: SolverContext, state: SimulationState) -> ReducedState {
    ReducedState::spec_from_state(
        SimulationState {
            cp: spec_clamp_cp(state.cp + spec_credit(ctx, state)),
            durability: UNBOUNDED_DURABILITY,
            effects: Effects {
                trained_perfection: if spec_credits_perfection(ctx, state) {
                    SingleUse::Unavailable
                } else {
                    state.effects.trained_perfection
                },
                ..state.effects
            },
            ..state
        },
        ctx.base_durability_cost,
        ctx.waste_not_cost,
    )
}

/// Progress that the state still lacks.
pub open spec fn spec_missing_progress(ctx: SolverContext, state: SimulationState) -> u16 {
    if state.progress >= ctx.settings.max_progress {
        0
    } else {
        (ctx.settings.max_progress - state.progress) as u16
    }
}

/// `best` has the most quality of what can be made from `s` with at least
/// `missing` progress.
pub open spec fn is_best(ctx: SolverContext, s: ReducedState, missing: u16, best: ParetoValue) -> bool {
    &&& reachable(ctx, s, best)
    &&& best.first >= missing
    &&& forall|v: ParetoValue|
        #[trigger] reachable(ctx, s, v) && v.first >= missing ==> v.second <= best.second
}

/// The quality `made` plus the quality `current`, held at the cap.
pub open spec fn spec_capped_total(ctx: SolverContext, made: u16, current: u16) -> u16 {
    if made + current >= ctx.max_second() {
        ctx.max_second()
    } else {
        (made + current) as u16
    }
}

/// `bound` is the bound for `state`: if the missing progress can be made
/// from the reduced state, the quality the state has plus the most that can
/// be made along with it, held at the cap; zero if it cannot be made.
pub open spec fn is_bound(ctx: SolverContext, state: SimulationState, bound: u16) -> bool {
    let s = spec_reduce(ctx, state);
    let missing = spec_missing_progress(ctx, state);
    if exists|v: ParetoValue| #[trigger] reachable(ctx, s, v) && v.first >= missing {
        exists|best: ParetoValue| #[trigger]
            is_best(ctx, s, missing, best) && bound == spec_capped_total(
                ctx,
                best.second,
                state.spec_get_quality(),
            )
    } else {
        bound == 0
    }
}

/// The bound depends on the settings and the state alone: two values that
/// both are the bound for a state are equal.
pub proof fn lemma_bound_unique(ctx: SolverContext, state: SimulationState, b1: u16, b2: u16)
    requires
        is_bound(ctx, state, b1),
        is_bound(ctx, state, b2),
    ensures
        b1 == b2,
{
    let s = spec_reduce(ctx, state);
    let missing = spec_missing_progress(ctx, state);
    if exists|v: ParetoValue| #[trigger] reachable(ctx, s, v) && v.first >= missing {
        let x = choose|best: ParetoValue| #[trigger]
            is_best(ctx, s, missing, best) && b1 == spec_capped_total(
                ctx,
                best.second,
                state.spec_get_quality(),
            );
        let y = choose|best: ParetoValue| #[trigger]
            is_best(ctx, s, missing, best) && b2 == spec_capped_total(
                ctx,
                best.second,
                state.spec_get_quality(),
            );
        assert(x.second <= y.second);
        assert(y.second <= x.second);
    }
}

/// What a first move reaches, taken apart: the move can be made, and what
/// is reached is what the move made alone or what goes on from there.
pub proof fn lemma_step_cases(ctx: SolverContext, s: ReducedState, a: Action, v: ParetoValue)
    ensures
        step_reaches(ctx, s, a, v) <==> in_search(a) && spec_child(ctx, s, a) is Some && ({
            let (c, g) = spec_child(ctx, s, a).unwrap();
            ||| (c.cp + ctx.base_durability_cost >= 0 && g.first != 0 && v == clamped(
                g,
                ctx.max_first(),
                ctx.max_second(),
            ))
            ||| (c.cp > 0 && goes_on_to(ctx, c, g, v))
        }),
{
    reveal(step_reaches);
}

/// A merge loses nothing of a front whose points can be made: what the
/// front covered, the merged front covers.
proof fn lemma_merge_keeps(
    ctx: SolverContext,
    s: ReducedState,
    t: Seq<ParetoValue>,
    other: Seq<ParetoValue>,
    u: Seq<ParetoValue>,
)
    requires
        all_reachable(ctx, s, t),
        is_clamped_union(u, t, other, ctx.max_first(), ctx.max_second()),
    ensures
        forall|v: ParetoValue| #[trigger] covered(t, v) ==> covered(u, v),
{
    assert forall|v: ParetoValue| #[trigger] covered(t, v) implies covered(u, v) by {
        let i = choose|i: int| 0 <= i < t.len() && dominates(#[trigger] t[i], v);
        assert(reachable(ctx, s, t[i]));
        lemma_reachable_within(ctx, s, t[i]);
        assert(covered(u, clamped(t[i], ctx.max_first(), ctx.max_second())));
        lemma_covered_transitive(u, t[i], v);
    }
}

/// The top front after the front of the child, moved by what the first
/// move made, is merged into it: its points can be made, and it covers what
/// it covered before and whatever begins with the first move and goes on.
proof fn lemma_merge_of_what_goes_on(
    ctx: SolverContext,
    state: ReducedState,
    action: Action,
    child: ReducedState,
    gain: ParetoValue,
    t: Seq<ParetoValue>,
    f: Seq<ParetoValue>,
    m: Seq<ParetoValue>,
    u: Seq<ParetoValue>,
)
    requires
        in_search(action),
        spec_child(ctx, state, action) == Some((child, gain)),
        child.cp > 0,
        all_reachable(ctx, state, t),
        is_front_of(ctx, child, f),
        is_shifted_front(
            m,
            f,
            gain.first as u32,
            gain.second as u32,
            ctx.max_first(),
            ctx.max_second(),
        ),
        is_clamped_union(u, t, m, ctx.max_first(), ctx.max_second()),
    ensures
        all_reachable(ctx, state, u),
        forall|v: ParetoValue| #[trigger] covered(t, v) ==> covered(u, v),
        forall|v: ParetoValue| #[trigger] goes_on_to(ctx, child, gain, v) ==> covered(u, v),
{
    let mf = ctx.max_first();
    let ms = ctx.max_second();
    let dp = gain.first as u32;
    let dq = gain.second as u32;
    lemma_merge_keeps(ctx, state, t, m, u);
    assert forall|k: int| 0 <= k < m.len() implies step_reaches(
        ctx,
        state,
        action,
        #[trigger] m[k],
    ) by {
        assert(is_shift_of(m[k], f, dp, dq, mf, ms));
        reveal(is_shift_of);
        let j = choose|j: int| 0 <= j < f.len() && m[k] == shifted(#[trigger] f[j], dp, dq, mf, ms);
        lemma_front_of_is_front(ctx, child, f);
        assert(reachable(ctx, child, f[j]));
        assert(goes_on_to(ctx, child, gain, m[k]));
        lemma_step_cases(ctx, state, action, m[k]);
    }
    assert forall|k: int| 0 <= k < u.len() implies reachable(ctx, state, #[trigger] u[k]) by {
        assert(is_clamp_of_either(u[k], t, m, mf, ms));
        reveal(is_clamp_of_either);
        let x = choose|x: ParetoValue|
            (t.contains(x) || m.contains(x)) && u[k] == #[trigger] clamped(x, mf, ms);
        if t.contains(x) {
            let p = choose|p: int| 0 <= p < t.len() && t[p] == x;
            assert(reachable(ctx, state, t[p]));
        } else {
            let p = choose|p: int| 0 <= p < m.len() && m[p] == x;
            lemma_step_is_reachable(ctx, state, action, m[p]);
        }
        lemma_reachable_within(ctx, state, x);
    }
    assert forall|v: ParetoValue| #[trigger] goes_on_to(ctx, child, gain, v) implies covered(
        u,
        v,
    ) by {
        let w = choose|w: ParetoValue|
            reachable(ctx, child, w) && v == #[trigger] shifted(w, dp, dq, mf, ms);
        lemma_front_of_covers(ctx, child, f, w);
        let j = choose|j: int| 0 <= j < f.len() && dominates(#[trigger] f[j], w);
        let fj = shifted(f[j], dp, dq, mf, ms);
        lemma_shift_monotone(f[j], w, dp, dq, mf, ms);
        assert(covered(m, fj));
        let p = choose|p: int| 0 <= p < m.len() && dominates(#[trigger] m[p], fj);
        assert(covered(u, clamped(m[p], mf, ms)));
        assert(clamped(m[p], mf, ms) == m[p]);
        lemma_covered_transitive(u, m[p], v);
    }
}

/// The top front after what the first move made alone is merged into it:
/// its points can be made, and it covers what it covered before and what
/// the move made.
proof fn lemma_final_merge(
    ctx: SolverContext,
    state: ReducedState,
    action: Action,
    child: ReducedState,
    gain: ParetoValue,
    t: Seq<ParetoValue>,
    u: Seq<ParetoValue>,
)
    requires
        in_search(action),
        spec_child(ctx, state, action) == Some((child, gain)),
        child.cp + ctx.base_durability_cost >= 0,
        gain.first != 0,
        all_reachable(ctx, state, t),
        is_clamped_union(u, t, seq![gain], ctx.max_first(), ctx.max_second()),
    ensures
        all_reachable(ctx, state, u),
        forall|v: ParetoValue| #[trigger] covered(t, v) ==> covered(u, v),
        covered(u, clamped(gain, ctx.max_first(), ctx.max_second())),
{
    let mf = ctx.max_first();
    let ms = ctx.max_second();
    lemma_merge_keeps(ctx, state, t, seq![gain], u);
    let g = clamped(gain, mf, ms);
    lemma_step_cases(ctx, state, action, g);
    assert(step_reaches(ctx, state, action, g));
    lemma_step_is_reachable(ctx, state, action, g);
    assert forall|k: int| 0 <= k < u.len() implies reachable(ctx, state, #[trigger] u[k]) by {
        assert(is_clamp_of_either(u[k], t, seq![gain], mf, ms));
        reveal(is_clamp_of_either);
        let x = choose|x: ParetoValue|
            (t.contains(x) || seq![gain].contains(x)) && u[k] == #[trigger] clamped(x, mf, ms);
        if t.contains(x) {
            let p = choose|p: int| 0 <= p < t.len() && t[p] == x;
            assert(reachable(ctx, state, t[p]));
            lemma_reachable_within(ctx, state, x);
        } else {
            let p = choose|p: int| 0 <= p < seq![gain].len() && seq![gain][p] == x;
            assert(x == gain);
        }
    }
    assert(seq![gain][0] == gain);
}

/// A move that raises progress is among the considered ones.
pub proof fn lemma_progress_move_is_considered(action: Action, settings: Settings, effects: Effects)
    requires
        crate::state::spec_progress_increase(action, settings, effects) > 0,
    ensures
        in_search(action),
        in_progress_actions(action),
        crate::state::spec_token_of(action, effects) is None,
{
    if action.spec_progress_efficiency(settings.job_level) == 0 {
        crate::state::lemma_no_efficiency_no_progress(action, settings, effects);
    }
}

/// The crafting points of the reduced state pay for a last move that the
/// state itself can make: they cover the move's cost and, but for the price
/// of 5 durability, the wear that the move causes when durability is
/// counted down from "never runs out".
pub proof fn lemma_credit_covers_last_wear(ctx: SolverContext, state: SimulationState, action: Action)
    requires
        ctx.valid(),
        state.effects.valid(),
        state.durability > 0,
        state.durability - crate::state::spec_durability_cost(action, state.effects) >= -5,
        state.cp >= action.spec_cp_cost(),
    ensures
        spec_reduce(ctx, state).cp >= state.cp,
        spec_reduce(ctx, state).cp - action.spec_cp_cost()
            - crate::reduced_state::spec_durability_price(
            crate::state::spec_durability_cost(action, spec_reduce(ctx, state).effects) / 5,
            ctx.base_durability_cost as int,
            ctx.waste_not_cost as int,
        ) + ctx.base_durability_cost >= 0,
{
    reveal(spec_reduce);
    let r = spec_reduce(ctx, state);
    let bdc = ctx.base_durability_cost as int;
    let wnc = ctx.waste_not_cost as int;
    let units: int = state.durability as int / 5;
    let credit = spec_credit(ctx, state);
    let base = action.spec_base_durability_cost() as int;
    let wear = crate::state::spec_durability_cost(action, r.effects) as int;
    let used = wear / 5;
    let price = crate::reduced_state::spec_durability_price(used, bdc, wnc);
    let bonus: int = if spec_credits_perfection(ctx, state) {
        4 * bdc
    } else {
        0
    };
    assert(base == 0 || base == 5 || base == 10 || base == 20);
    assert(units * bdc >= 0) by (nonlinear_arith)
        requires
            units >= 0,
            bdc >= 1,
    ;
    assert(state.effects.waste_not * wnc >= 0) by (nonlinear_arith)
        requires
            state.effects.waste_not >= 0,
            wnc >= 0,
    ;
    assert(credit == state.effects.manipulation * 12 + state.effects.waste_not * wnc + units * bdc
        + bonus);
    assert(credit >= 0);
    assert(crate::reduced_state::spec_durability_price(0, bdc, wnc) == 0);
    assert(r.cp == spec_clamp_cp(spec_clamp_cp(state.cp + credit) - 0));
    assert(r.cp >= state.cp);
    assert(0 <= price <= 4 * bdc) by (nonlinear_arith)
        requires
            used == 0 || used == 1 || used == 2 || used == 4,
            bdc >= 1,
            wnc >= 0,
            price == crate::reduced_state::spec_durability_price(used, bdc, wnc),
    ;
    if state.cp + credit <= i16::MAX {
        assert(r.cp == state.cp + credit);
        if spec_credits_perfection(ctx, state) {
            assert(credit >= 4 * bdc);
        } else if state.effects.trained_perfection == SingleUse::Active {
            assert(wear == 0);
            assert(price == 0);
        } else {
            assert(wear == base);
            let actual = crate::state::spec_durability_cost(action, state.effects) as int;
            if state.effects.waste_not > 0 {
                assert(state.effects.waste_not * wnc >= wnc) by (nonlinear_arith)
                    requires
                        state.effects.waste_not >= 1,
                        wnc >= 0,
                ;
                if base == 20 {
                    assert(actual == 10);
                    assert(units >= 1);
                    assert(units * bdc >= bdc) by (nonlinear_arith)
                        requires
                            units >= 1,
                            bdc >= 1,
                    ;
                    assert(price <= 2 * bdc + wnc);
                } else if base == 10 {
                    assert(price <= bdc + wnc);
                } else if base == 5 {
                    assert(price <= bdc);
                }
            } else {
                assert(actual == base);
                if base == 20 {
                    assert(units >= 3);
                    assert(units * bdc >= 3 * bdc) by (nonlinear_arith)
                        requires
                            units >= 3,
                            bdc >= 1,
                    ;
                } else if base == 10 {
                    assert(units >= 1);
                    assert(units * bdc >= bdc) by (nonlinear_arith)
                        requires
                            units >= 1,
                            bdc >= 1,
                    ;
                    assert(price <= 2 * bdc);
                } else if base == 5 {
                    assert(price <= bdc);
                }
            }
        }
    } else {
        assert(r.cp == i16::MAX);
    }
}

/// A move that completes the craft from a state can be made from the
/// reduced state as a last move, and makes there the progress that was
/// missing and the quality that it adds under the normal condition.
pub proof fn lemma_completing_move_is_reachable(
    ctx: SolverContext,
    settings: Settings,
    state: SimulationState,
    action: Action,
    next: SimulationState,
)
    requires
        ctx.valid(),
        ctx.settings == (Settings { adversarial: false, ..settings }),
        state.effects.valid(),
        state.progress < settings.max_progress,
        state.spec_use_action(action, Condition::Normal, settings) == Ok::<
            SimulationState,
            crate::state::ActionError,
        >(next),
        next.progress >= settings.max_progress,
    ensures
        exists|v: ParetoValue| #[trigger]
            reachable(ctx, spec_reduce(ctx, state), v) && v.first >= spec_missing_progress(
                ctx,
                state,
            ) && (v.second == ctx.max_second() || v.second
                == crate::state::spec_quality_increase(
                action,
                settings,
                state.effects,
                Condition::Normal,
            )),
{
    crate::state::lemma_completing_move(state, action, settings, next);
    lemma_progress_move_is_considered(action, settings, state.effects);
    lemma_credit_covers_last_wear(ctx, state, action);
    let r = spec_reduce(ctx, state);
    let from = r.spec_to_state();
    let gain = crate::state::spec_progress_increase(action, settings, state.effects);
    let quality = crate::state::spec_quality_increase(
        action,
        settings,
        state.effects,
        Condition::Normal,
    );
    assert(r.combo == state.combo && r.effects.inner_quiet == state.effects.inner_quiet
        && r.effects.great_strides == state.effects.great_strides && r.effects.innovation
        == state.effects.innovation && r.effects.veneration == state.effects.veneration
        && r.effects.muscle_memory == state.effects.muscle_memory && r.effects.heart_and_soul
        == state.effects.heart_and_soul && r.effects.waste_not == 0 && r.effects.manipulation
        == 0 && r.effects.guard == 0) by {
        reveal(spec_reduce);
    }
    assert(crate::state::spec_progress_increase(action, ctx.settings, r.effects) == gain);
    assert(crate::state::spec_quality_increase(action, ctx.settings, r.effects, Condition::Normal)
        == quality);
    assert(crate::state::spec_rejection(from, action, Condition::Normal, ctx.settings) is None);
    let mid = crate::state::spec_after_gain(from, action, Condition::Normal, ctx.settings);
    let wear = crate::state::spec_durability_cost(action, r.effects);
    assert(mid.cp == r.cp - action.spec_cp_cost());
    assert(mid.durability == UNBOUNDED_DURABILITY - wear);
    assert(mid.progress == crate::state::spec_add_progress(0, gain, settings.max_progress));
    assert(mid.spec_get_quality() == quality);
    let after = from.spec_use_action(action, Condition::Normal, ctx.settings).unwrap();
    assert(after.cp == mid.cp && after.durability == mid.durability && after.progress
        == mid.progress && after.unreliable_quality == mid.unreliable_quality) by {
        reveal(SimulationState::spec_use_action);
    }
    assert(from.spec_use_action(action, Condition::Normal, ctx.settings) is Ok) by {
        reveal(SimulationState::spec_use_action);
    }
    reveal(spec_child);
    let (c, g) = spec_child(ctx, r, action).unwrap();
    assert(crate::reduced_state::spec_used_units(after.durability) == wear / 5);
    assert(c.cp + ctx.base_durability_cost >= 0);
    assert(g.first == mid.progress);
    assert(g.first != 0);
    assert(g.second == quality);
    let v = clamped(g, ctx.max_first(), ctx.max_second());
    lemma_step_cases(ctx, r, action, v);
    lemma_step_is_reachable(ctx, r, action, v);
    assert(v.first >= spec_missing_progress(ctx, state));
}

/// The bound of a state whose progress bar is not full is at least the
/// quality of a craft that one move from the state completes, unless the
/// bound stands at its cap.
pub proof fn lemma_bound_covers_completing_move(
    ctx: SolverContext,
    settings: Settings,
    state: SimulationState,
    action: Action,
    next: SimulationState,
    bound: u16,
)
    requires
        ctx.valid(),
        ctx.settings == (Settings { adversarial: false, ..settings }),
        state.effects.valid(),
        state.progress < settings.max_progress,
        state.spec_use_action(action, Condition::Normal, settings) == Ok::<
            SimulationState,
            crate::state::ActionError,
        >(next),
        next.progress >= settings.max_progress,
        is_bound(ctx, state, bound),
    ensures
        bound >= next.spec_get_quality() || bound == ctx.max_second(),
{
    crate::state::lemma_completing_move(state, action, settings, next);
    lemma_completing_move_is_reachable(ctx, settings, state, action, next);
    let s = spec_reduce(ctx, state);
    let missing = spec_missing_progress(ctx, state);
    let quality = crate::state::spec_quality_increase(
        action,
        settings,
        state.effects,
        Condition::Normal,
    );
    let v = choose|v: ParetoValue| #[trigger]
        reachable(ctx, s, v) && v.first >= missing && (v.second == ctx.max_second() || v.second
            == quality);
    assert(reachable(ctx, s, v) && v.first >= missing);
    let best = choose|best: ParetoValue| #[trigger]
        is_best(ctx, s, missing, best) && bound == spec_capped_total(
            ctx,
            best.second,
            state.spec_get_quality(),
        );
    assert(v.second <= best.second);
}

/// What the law of the falling bound asks of a state and a move: the move
/// is one that the bound considers, other than Trained Perfection; the
/// crafting points of the state and what its buffs and durability are worth
/// fit in 16 bits; and Manipulation and Trained Perfection are in force
/// only where they are allowed.
pub open spec fn move_is_followed(
    ctx: SolverContext,
    settings: Settings,
    state: SimulationState,
    action: Action,
) -> bool {
    &&& in_search(action)
    &&& action != Action::TrainedPerfection
    &&& state.cp + spec_credit(ctx, state) <= i16::MAX
    &&& state.effects.manipulation > 0 ==> settings.allowed_actions.spec_has(Action::Manipulation)
    &&& state.effects.trained_perfection == SingleUse::Active
        ==> settings.allowed_actions.spec_has(Action::TrainedPerfection)
}

/// What the buffs and the durability of a state are worth pays for the
/// wear of a move after which the craft goes on: what they are worth after
/// the move, and the price of the wear when durability is counted down from
/// "never runs out", are together no more than what they were worth before.
#[verifier::rlimit(40)]
pub proof fn lemma_credit_pays_for_the_move(
    ctx: SolverContext,
    settings: Settings,
    state: SimulationState,
    action: Action,
    next: SimulationState,
)
    requires
        ctx.valid(),
        ctx.settings == (Settings { adversarial: false, ..settings }),
        ctx.base_durability_cost == spec_base_durability_cost(settings),
        state.effects.valid(),
        move_is_followed(ctx, settings, state, action),
        state.spec_use_action(action, Condition::Normal, settings) == Ok::<
            SimulationState,
            crate::state::ActionError,
        >(next),
        !next.spec_is_final(settings),
    ensures
        spec_credit(ctx, next) + crate::reduced_state::spec_durability_price(
            crate::state::spec_durability_cost(action, spec_reduce(ctx, state).effects) / 5,
            ctx.base_durability_cost as int,
            ctx.waste_not_cost as int,
        ) <= spec_credit(ctx, state),
{
    crate::state::lemma_move_that_goes_on(state, action, settings, next);
    let bdc = ctx.base_durability_cost as int;
    let wnc = ctx.waste_not_cost as int;
    let mid = crate::state::spec_after_gain(state, action, Condition::Normal, settings);
    let reduced = spec_reduced_effects(ctx, state.effects);
    assert(spec_reduce(ctx, state).effects == reduced) by {
        reveal(spec_reduce);
    }
    let base = action.spec_base_durability_cost() as int;
    let wear = crate::state::spec_durability_cost(action, state.effects) as int;
    let wear2 = crate::state::spec_durability_cost(action, reduced) as int;
    let price = crate::reduced_state::spec_durability_price(wear2 / 5, bdc, wnc);
    let m = state.effects.manipulation as int;
    let w = state.effects.waste_not as int;
    let m2 = next.effects.manipulation as int;
    let w2 = next.effects.waste_not as int;
    let d = state.durability as int;
    let du = spec_durability_units(state.durability);
    let dn = spec_durability_units(next.durability);
    let restored: int = if m > 0 {
        1
    } else {
        0
    };
    let ticked: int = if w > 0 {
        1
    } else {
        0
    };
    let before: int = if spec_credits_perfection(ctx, state) {
        1
    } else {
        0
    };
    let after: int = if spec_credits_perfection(ctx, next) {
        1
    } else {
        0
    };
    assert(base == 0 || base == 5 || base == 10 || base == 20);
    assert(d > 0 && d - wear > 0);
    assert(mid.durability == d - wear);
    assert(m2 == m - restored);
    assert(w2 == w - ticked);
    assert(next.durability <= d - wear + 5 * restored);
    assert(next.durability > 0);
    assert(w > 0 ==> base != 5);
    assert(wear == 0 || wear == 5 || wear == 10 || wear == 20);
    assert(dn <= du - wear / 5 + restored);
    assert(m > 0 ==> bdc <= 12);
    assert(after <= before);
    assert(base != 0 && state.effects.trained_perfection == SingleUse::Active && before == 1
        ==> after == 0);
    assert(wear2 == (if base == 0 || (state.effects.trained_perfection == SingleUse::Active
        && before == 0) {
        0
    } else {
        base
    }));
    assert(wear == (if base == 0 || state.effects.trained_perfection == SingleUse::Active {
        0
    } else if w > 0 {
        base / 2
    } else {
        base
    }));
    let tp_active = state.effects.trained_perfection == SingleUse::Active;
    lemma_credit_sums(
        bdc,
        wnc,
        m,
        w,
        m2,
        w2,
        du,
        dn,
        base,
        wear,
        wear2,
        restored,
        ticked,
        before,
        after,
        tp_active,
    );
    assert(spec_credit(ctx, state) == m * 12 + w * wnc + du * bdc + before * (4 * bdc));
    assert(spec_credit(ctx, next) == m2 * 12 + w2 * wnc + dn * bdc + after * (4 * bdc));
}

/// The sums behind `lemma_credit_pays_for_the_move`, over plain numbers.
proof fn lemma_credit_sums(
    bdc: int,
    wnc: int,
    m: int,
    w: int,
    m2: int,
    w2: int,
    du: int,
    dn: int,
    base: int,
    wear: int,
    wear2: int,
    restored: int,
    ticked: int,
    before: int,
    after: int,
    tp_active: bool,
)
    requires
        1 <= bdc <= 14,
        0 <= wnc <= 14,
        base == 0 || base == 5 || base == 10 || base == 20,
        restored == 0 || restored == 1,
        ticked == 0 || ticked == 1,
        0 <= after <= before <= 1,
        m2 == m - restored,
        w2 == w - ticked,
        ticked == 1 ==> base != 5,
        restored == 1 ==> bdc <= 12,
        dn <= du - wear / 5 + restored,
        base != 0 && tp_active && before == 1 ==> after == 0,
        wear2 == (if base == 0 || (tp_active && before == 0) {
            0
        } else {
            base
        }),
        wear == (if base == 0 || tp_active {
            0
        } else if ticked == 1 {
            base / 2
        } else {
            base
        }),
    ensures
        m2 * 12 + w2 * wnc + dn * bdc + after * (4 * bdc)
            + crate::reduced_state::spec_durability_price(wear2 / 5, bdc, wnc) <= m * 12 + w * wnc
            + du * bdc + before * (4 * bdc),
{
    let price = crate::reduced_state::spec_durability_price(wear2 / 5, bdc, wnc);
    let units = wear / 5;
    assert(dn * bdc <= (du - units + restored) * bdc) by (nonlinear_arith)
        requires
            dn <= du - units + restored,
            bdc >= 1,
    ;
    assert((du - units + restored) * bdc == du * bdc - units * bdc + restored * bdc)
        by (nonlinear_arith);
    assert(w2 * wnc == w * wnc - ticked * wnc) by (nonlinear_arith)
        requires
            w2 == w - ticked,
    ;
    assert(restored * bdc <= restored * 12) by (nonlinear_arith)
        requires
            restored == 0 || restored == 1,
            restored == 1 ==> bdc <= 12,
            bdc >= 1,
    ;
    assert(ticked * wnc == (if ticked == 1 {
        wnc
    } else {
        0
    }));
    assert(after * (4 * bdc) == (if after == 1 {
        4 * bdc
    } else {
        0
    }));
    assert(before * (4 * bdc) == (if before == 1 {
        4 * bdc
    } else {
        0
    }));
    // what is left to show: the price is at most the wear paid in full,
    // the turn of Waste Not, and Trained Perfection where it was spent
    let used = wear2 / 5;
    assert(used == 0 || used == 1 || used == 2 || used == 4);
    let full = used * bdc;
    let halved = (used + 1) / 2 * bdc + wnc;
    assert(price <= full && price <= halved);
    assert(full == (if used == 0 {
        0
    } else if used == 1 {
        bdc
    } else if used == 2 {
        2 * bdc
    } else {
        4 * bdc
    })) by (nonlinear_arith)
        requires
            full == used * bdc,
            used == 0 || used == 1 || used == 2 || used == 4,
    ;
    assert(halved == (if used == 0 {
        wnc
    } else if used == 1 {
        bdc + wnc
    } else if used == 2 {
        bdc + wnc
    } else {
        2 * bdc + wnc
    })) by (nonlinear_arith)
        requires
            halved == (used + 1) / 2 * bdc + wnc,
            used == 0 || used == 1 || used == 2 || used == 4,
    ;
    assert(units * bdc == (if units == 0 {
        0
    } else if units == 1 {
        bdc
    } else if units == 2 {
        2 * bdc
    } else {
        4 * bdc
    })) by (nonlinear_arith)
        requires
            units == 0 || units == 1 || units == 2 || units == 4,
    ;
}

/// The buffs that a reduction keeps: Manipulation, Waste Not and the guard
/// are cleared, and Trained Perfection counts as spent where it is credited.
pub open spec fn spec_reduced_effects(ctx: SolverContext, effects: Effects) -> Effects {
    Effects {
        manipulation: 0,
        waste_not: 0,
        guard: 0,
        trained_perfection: if effects.trained_perfection != SingleUse::Unavailable
            && ctx.settings.allowed_actions.spec_has(Action::TrainedPerfection) {
            SingleUse::Unavailable
        } else {
            effects.trained_perfection
        },
        ..effects
    }
}

/// The buffs of the reduced state after a move that goes on: what the
/// move spends and writes, and the turn that ends, applied to the buffs
/// that the reduction keeps.
#[verifier::opaque]
pub open spec fn spec_buffs_after(
    ctx: SolverContext,
    settings: Settings,
    state: SimulationState,
    action: Action,
) -> Effects {
    Effects {
        manipulation: 0,
        waste_not: 0,
        guard: 0,
        ..crate::state::spec_effects_written(
            action,
            crate::state::spec_effects_after_gain(
                action,
                spec_reduced_effects(ctx, state.effects),
                Condition::Normal,
                ctx.settings,
                crate::state::spec_progress_increase(action, settings, state.effects),
                crate::state::spec_quality_increase(
                    action,
                    settings,
                    state.effects,
                    Condition::Normal,
                ),
            ).spec_tick_down(),
        )
    }
}

/// The reduction of a state written out: its combo, the buffs that a
/// reduction keeps, and its crafting points with what its buffs and
/// durability are worth, held within 16 bits.
pub proof fn lemma_reduction_is_plain(ctx: SolverContext, state: SimulationState)
    requires
        ctx.valid(),
        state.effects.valid(),
        state.durability > 0,
    ensures
        spec_reduce(ctx, state).combo == state.combo,
        spec_reduce(ctx, state).effects == spec_reduced_effects(ctx, state.effects),
        spec_reduce(ctx, state).cp == spec_clamp_cp(state.cp + spec_credit(ctx, state)),
        spec_reduce(ctx, state).valid(),
        spec_credit(ctx, state) >= 0,
{
    reveal(spec_reduce);
    let bdc = ctx.base_durability_cost as int;
    let wnc = ctx.waste_not_cost as int;
    assert(crate::reduced_state::spec_durability_price(0, bdc, wnc) == 0);
    assert(spec_durability_units(state.durability) * bdc >= 0) by (nonlinear_arith)
        requires
            spec_durability_units(state.durability) >= 0,
            bdc >= 1,
    ;
    assert(state.effects.waste_not * wnc >= 0) by (nonlinear_arith)
        requires
            state.effects.waste_not >= 0,
            wnc >= 0,
    ;
}

/// A move that a state can make, and after which the craft goes on, can be
/// made from the reduction of the state: it makes the same progress and the
/// same quality, costs its crafting points and the price of its wear, and
/// leaves the buffs that the reduced state has after its turn.
#[verifier::rlimit(40)]
pub proof fn lemma_reduced_move(
    ctx: SolverContext,
    settings: Settings,
    state: SimulationState,
    action: Action,
)
    requires
        ctx.valid(),
        ctx.settings == (Settings { adversarial: false, ..settings }),
        state.effects.valid(),
        in_search(action),
        action != Action::TrainedPerfection,
        state.cp + spec_credit(ctx, state) <= i16::MAX,
        crate::state::spec_rejection(state, action, Condition::Normal, settings) is None,
        state.progress + crate::state::spec_progress_increase(action, settings, state.effects)
            < settings.max_progress,
    ensures
        spec_child(ctx, spec_reduce(ctx, state), action) is Some,
        spec_child(ctx, spec_reduce(ctx, state), action).unwrap().1 == (ParetoValue {
            first: crate::state::spec_progress_increase(action, settings, state.effects) as u16,
            second: crate::state::spec_quality_increase(
                action,
                settings,
                state.effects,
                Condition::Normal,
            ),
        }),
        spec_child(ctx, spec_reduce(ctx, state), action).unwrap().0.combo
            == action.spec_to_combo(),
        spec_child(ctx, spec_reduce(ctx, state), action).unwrap().0.cp == state.cp + spec_credit(
            ctx,
            state,
        ) - action.spec_cp_cost() - crate::reduced_state::spec_durability_price(
            crate::state::spec_durability_cost(action, spec_reduce(ctx, state).effects) / 5,
            ctx.base_durability_cost as int,
            ctx.waste_not_cost as int,
        ),
        spec_child(ctx, spec_reduce(ctx, state), action).unwrap().0.effects == spec_buffs_after(ctx, settings, state, action),
{
    lemma_reduction_is_plain(ctx, state);
    reveal(SimulationState::spec_use_action);
    reveal(spec_child);
    reveal(spec_buffs_after);
    let bdc = ctx.base_durability_cost as int;
    let wnc = ctx.waste_not_cost as int;
    let r = spec_reduce(ctx, state);
    let from = r.spec_to_state();
    let gain = crate::state::spec_progress_increase(action, settings, state.effects);
    let quality = crate::state::spec_quality_increase(
        action,
        settings,
        state.effects,
        Condition::Normal,
    );
    assert(crate::state::spec_progress_increase(action, ctx.settings, r.effects) == gain);
    assert(crate::state::spec_quality_increase(action, ctx.settings, r.effects, Condition::Normal)
        == quality);
    assert(r.cp == state.cp + spec_credit(ctx, state));
    assert(crate::state::spec_rejection(from, action, Condition::Normal, ctx.settings) is None);
    let mid = crate::state::spec_after_gain(from, action, Condition::Normal, ctx.settings);
    assert(mid.progress == gain);
    assert(!mid.spec_is_final(ctx.settings));
    let after = from.spec_use_action(action, Condition::Normal, ctx.settings).unwrap();
    assert(after == crate::state::spec_end_turn(
        from,
        mid,
        action,
        Condition::Normal,
        ctx.settings,
    ));
    let wear = crate::state::spec_durability_cost(action, r.effects) as int;
    let used = wear / 5;
    let price = crate::reduced_state::spec_durability_price(used, bdc, wnc);
    assert(wear == 0 || wear == 5 || wear == 10 || wear == 20);
    assert(after.cp == r.cp - action.spec_cp_cost());
    assert(after.durability == UNBOUNDED_DURABILITY - wear);
    assert(crate::reduced_state::spec_used_units(after.durability) == used);
    assert(0 <= price <= 4 * bdc) by (nonlinear_arith)
        requires
            used == 0 || used == 1 || used == 2 || used == 4,
            bdc >= 1,
            wnc >= 0,
            price == crate::reduced_state::spec_durability_price(used, bdc, wnc),
    ;
    assert(mid.unreliable_quality[0] == quality && mid.unreliable_quality[1] == quality);
}

/// The buffs of the reduced state after the move are the buffs that the
/// reduction of the state after the move keeps.
#[verifier::rlimit(40)]
pub proof fn lemma_buffs_agree(
    ctx: SolverContext,
    settings: Settings,
    state: SimulationState,
    action: Action,
    next: SimulationState,
)
    requires
        ctx.valid(),
        ctx.settings == (Settings { adversarial: false, ..settings }),
        state.effects.valid(),
        in_search(action),
        action != Action::TrainedPerfection,
        state.spec_use_action(action, Condition::Normal, settings) == Ok::<
            SimulationState,
            crate::state::ActionError,
        >(next),
        !next.spec_is_final(settings),
    ensures
        spec_reduced_effects(ctx, next.effects) == spec_buffs_after(ctx, settings, state, action),
        next.effects.valid(),
{
    crate::state::lemma_move_that_goes_on(state, action, settings, next);
    reveal(spec_buffs_after);
    let gain = crate::state::spec_progress_increase(action, settings, state.effects);
    let quality = crate::state::spec_quality_increase(
        action,
        settings,
        state.effects,
        Condition::Normal,
    );
    let e1 = crate::state::spec_effects_after_gain(
        action,
        state.effects,
        Condition::Normal,
        settings,
        gain,
        quality,
    );
    let e2 = crate::state::spec_effects_after_gain(
        action,
        spec_reduced_effects(ctx, state.effects),
        Condition::Normal,
        ctx.settings,
        gain,
        quality,
    );
    let w1 = crate::state::spec_effects_written(action, e1.spec_tick_down());
    let w2 = crate::state::spec_effects_written(action, e2.spec_tick_down());
    assert(next.effects == w1 || next.effects == (Effects { guard: 1, ..w1 }));
    assert(w1.inner_quiet == w2.inner_quiet);
    assert(w1.great_strides == w2.great_strides);
    assert(w1.innovation == w2.innovation);
    assert(w1.veneration == w2.veneration);
    assert(w1.muscle_memory == w2.muscle_memory);
    assert(w1.heart_and_soul == w2.heart_and_soul);
    assert(w1.quick_innovation == w2.quick_innovation);
    assert(spec_reduced_effects(ctx, next.effects).trained_perfection == w2.trained_perfection);
}

/// A move after which the craft goes on can be made in the reduced model
/// too: from the reduction of the state it makes the same progress and the
/// same quality under the normal condition, and leads to the reduction of
/// the state after the move with no fewer crafting points.
#[verifier::rlimit(40)]
#[verifier::spinoff_prover]
pub proof fn lemma_move_in_the_reduced_model(
    ctx: SolverContext,
    settings: Settings,
    state: SimulationState,
    action: Action,
    next: SimulationState,
)
    requires
        ctx.valid(),
        ctx.settings == (Settings { adversarial: false, ..settings }),
        ctx.base_durability_cost == spec_base_durability_cost(settings),
        state.effects.valid(),
        move_is_followed(ctx, settings, state, action),
        state.spec_use_action(action, Condition::Normal, settings) == Ok::<
            SimulationState,
            crate::state::ActionError,
        >(next),
        !next.spec_is_final(settings),
    ensures
        spec_child(ctx, spec_reduce(ctx, state), action) is Some,
        has_more_points(
            spec_child(ctx, spec_reduce(ctx, state), action).unwrap().0,
            spec_reduce(ctx, next),
        ),
        next.progress == state.progress + spec_child(
            ctx,
            spec_reduce(ctx, state),
            action,
        ).unwrap().1.first,
        next.spec_get_quality() <= state.spec_get_quality() + spec_child(
            ctx,
            spec_reduce(ctx, state),
            action,
        ).unwrap().1.second,
        spec_reduce(ctx, next).valid(),
        spec_reduce(ctx, state).valid(),
{
    crate::state::lemma_move_that_goes_on(state, action, settings, next);
    lemma_buffs_agree(ctx, settings, state, action, next);
    lemma_reduced_move(ctx, settings, state, action);
    lemma_credit_pays_for_the_move(ctx, settings, state, action, next);
    lemma_reduction_is_plain(ctx, state);
    lemma_reduction_is_plain(ctx, next);
    let r = spec_reduce(ctx, state);
    let rn = spec_reduce(ctx, next);
    let c = spec_child(ctx, r, action).unwrap().0;
    let price = crate::reduced_state::spec_durability_price(
        crate::state::spec_durability_cost(action, r.effects) / 5,
        ctx.base_durability_cost as int,
        ctx.waste_not_cost as int,
    );
    let total = next.cp + spec_credit(ctx, next);
    assert(c.effects == rn.effects);
    assert(c.combo == rn.combo);
    assert(c.cp == state.cp + spec_credit(ctx, state) - action.spec_cp_cost() - price);
    assert(next.cp == state.cp - action.spec_cp_cost());
    assert(0 <= total <= c.cp);
    assert(rn.cp == spec_clamp_cp(total));
    assert(rn.cp == total);
}

/// Without crafting points nothing can be made, unless Trained Perfection
/// is in force: the one considered move that costs none and raises progress
/// wears the item by more than may be owed.
pub proof fn lemma_nothing_without_points(ctx: SolverContext, s: ReducedState, v: ParetoValue)
    requires
        ctx.valid(),
        ctx.waste_not_cost >= 1,
        s.valid(),
        s.cp <= 0,
        s.effects.trained_perfection != SingleUse::Active,
    ensures
        !reachable(ctx, s, v),
{
    if reachable(ctx, s, v) {
        lemma_reachable_by_first_move(ctx, s, v);
        let a = choose|a: Action| step_reaches(ctx, s, a, v);
        lemma_step_cases(ctx, s, a, v);
        lemma_child_descends(ctx, s, a);
        lemma_first_move_without_points(ctx, s, a);
    }
}

/// A considered move made without crafting points leaves none, and owes
/// more than the price of 5 durability if it raised progress.
#[verifier::rlimit(40)]
proof fn lemma_first_move_without_points(ctx: SolverContext, s: ReducedState, a: Action)
    requires
        ctx.valid(),
        ctx.waste_not_cost >= 1,
        s.valid(),
        s.cp == 0,
        s.effects.trained_perfection != SingleUse::Active,
        in_search(a),
        spec_child(ctx, s, a) is Some,
    ensures
        spec_child(ctx, s, a).unwrap().0.cp <= 0,
        spec_child(ctx, s, a).unwrap().1.first != 0 ==> spec_child(ctx, s, a).unwrap().0.cp
            + ctx.base_durability_cost < 0,
{
    reveal(SimulationState::spec_use_action);
    reveal(spec_child);
    let bdc = ctx.base_durability_cost as int;
    let wnc = ctx.waste_not_cost as int;
    let before = s.spec_to_state();
    let next = before.spec_use_action(a, Condition::Normal, ctx.settings).unwrap();
    let mid = crate::state::spec_after_gain(before, a, Condition::Normal, ctx.settings);
    let wear = crate::state::spec_durability_cost(a, s.effects);
    assert(crate::state::spec_rejection(before, a, Condition::Normal, ctx.settings) is None);
    assert(a.spec_cp_cost() == 0);
    assert(mid.cp == 0);
    assert(mid.durability == UNBOUNDED_DURABILITY - wear);
    assert(next.cp == mid.cp);
    assert(next.durability == mid.durability);
    assert(next.progress == mid.progress);
    let used = crate::reduced_state::spec_used_units(next.durability);
    assert(used == wear / 5);
    let price = crate::reduced_state::spec_durability_price(used, bdc, wnc);
    assert(wear == 0 || wear == 5 || wear == 10 || wear == 20);
    assert(0 <= price <= 56 + 14) by (nonlinear_arith)
        requires
            used == wear / 5,
            wear == 0 || wear == 5 || wear == 10 || wear == 20,
            1 <= bdc <= 14,
            0 <= wnc <= 14,
            price == crate::reduced_state::spec_durability_price(used, bdc, wnc),
    ;
    let c = spec_child(ctx, s, a).unwrap().0;
    assert(c.cp == next.cp - price);
    if a != Action::BasicSynthesis {
        crate::state::lemma_no_efficiency_no_progress(a, ctx.settings, s.effects);
        assert(mid.progress == 0);
    } else {
        assert(wear == 10);
        assert(used == 2);
        assert(price > bdc) by (nonlinear_arith)
            requires
                used == 2,
                1 <= bdc <= 14,
                1 <= wnc <= 14,
                price == crate::reduced_state::spec_durability_price(used, bdc, wnc),
        ;
    }
}

/// The bound never rises along a move that the bound considers and after
/// which the craft goes on: the bound of the state is at least the bound of
/// the state after the move. This is stated of every such move but Trained
/// Perfection, in either model of the conditions, for states whose
/// crafting points fit in 16 bits together with what their buffs and
/// durability are worth, and in which Manipulation and Trained Perfection
/// are in force only where the settings allow them. It does not hold of a
/// move that the bound leaves out and that gives crafting points back.
#[verifier::rlimit(40)]
pub proof fn lemma_bound_falls_along_a_move(
    ctx: SolverContext,
    settings: Settings,
    state: SimulationState,
    action: Action,
    next: SimulationState,
    bound: u16,
    next_bound: u16,
)
    requires
        ctx.valid(),
        ctx.settings == (Settings { adversarial: false, ..settings }),
        ctx.base_durability_cost == spec_base_durability_cost(settings),
        ctx.waste_not_cost == spec_waste_not_cost(settings),
        state.effects.valid(),
        move_is_followed(ctx, settings, state, action),
        state.spec_use_action(action, Condition::Normal, settings) == Ok::<
            SimulationState,
            crate::state::ActionError,
        >(next),
        !next.spec_is_final(settings),
        is_bound(ctx, state, bound),
        is_bound(ctx, next, next_bound),
    ensures
        bound >= next_bound,
{
    let r = spec_reduce(ctx, state);
    let rn = spec_reduce(ctx, next);
    let missing = spec_missing_progress(ctx, state);
    let next_missing = spec_missing_progress(ctx, next);
    lemma_move_in_the_reduced_model(ctx, settings, state, action, next);
    crate::state::lemma_move_that_goes_on(state, action, settings, next);
    let (c, g) = spec_child(ctx, r, action).unwrap();
    if exists|v: ParetoValue| #[trigger] reachable(ctx, rn, v) && v.first >= next_missing {
        let best = choose|best: ParetoValue| #[trigger]
            is_best(ctx, rn, next_missing, best) && next_bound == spec_capped_total(
                ctx,
                best.second,
                next.spec_get_quality(),
            );
        assert(reachable(ctx, rn, best));
        assert(rn.effects.trained_perfection != SingleUse::Active) by {
            lemma_buffs_agree(ctx, settings, state, action, next);
            lemma_reduction_is_plain(ctx, next);
            assert(next.effects.trained_perfection == SingleUse::Active
                ==> settings.allowed_actions.spec_has(Action::TrainedPerfection)) by {
                lemma_perfection_is_not_begun(state, action, settings, next);
            }
        }
        if rn.cp <= 0 {
            lemma_nothing_without_points(ctx, rn, best);
        }
        assert(c.cp > 0);
        lemma_more_points_reach_as_much(ctx, rn, c, best);
        let v = shifted(
            best,
            g.first as u32,
            g.second as u32,
            ctx.max_first(),
            ctx.max_second(),
        );
        assert(goes_on_to(ctx, c, g, v));
        lemma_step_cases(ctx, r, action, v);
        lemma_step_is_reachable(ctx, r, action, v);
        assert(reachable(ctx, r, v) && v.first >= missing);
        let top = choose|top: ParetoValue| #[trigger]
            is_best(ctx, r, missing, top) && bound == spec_capped_total(
                ctx,
                top.second,
                state.spec_get_quality(),
            );
        assert(v.second <= top.second);
    }
}

/// A move other than Trained Perfection does not bring Trained Perfection
/// into force.
proof fn lemma_perfection_is_not_begun(
    state: SimulationState,
    action: Action,
    settings: Settings,
    next: SimulationState,
)
    requires
        action != Action::TrainedPerfection,
        state.spec_use_action(action, Condition::Normal, settings) == Ok::<
            SimulationState,
            crate::state::ActionError,
        >(next),
        !next.spec_is_final(settings),
    ensures
        next.effects.trained_perfection == SingleUse::Active ==> state.effects.trained_perfection
            == SingleUse::Active,
{
    crate::state::lemma_move_that_goes_on(state, action, settings, next);
}

/// `hi` is at least as well off as `lo`: it has no fewer crafting points
/// and no fewer turns of Great Strides, Innovation, Veneration and Muscle
/// Memory, the same Inner Quiet, Trained Perfection and Heart and Soul, a
/// Quick Innovation that is unspent if that of `lo` is, and the combo of
/// `lo`, unless `lo` has none open. `lo` is past the first move.
pub open spec fn is_better_off(hi: ReducedState, lo: ReducedState) -> bool {
    &&& hi.valid()
    &&& lo.valid()
    &&& hi.cp >= lo.cp
    &&& hi.combo == lo.combo || lo.combo == Combo::NoCombo
    &&& lo.combo != Combo::SynthesisBegin
    &&& hi.effects.inner_quiet == lo.effects.inner_quiet
    &&& hi.effects.great_strides >= lo.effects.great_strides
    &&& hi.effects.innovation >= lo.effects.innovation
    &&& hi.effects.veneration >= lo.effects.veneration
    &&& hi.effects.muscle_memory >= lo.effects.muscle_memory
    &&& hi.effects.trained_perfection == lo.effects.trained_perfection
    &&& hi.effects.heart_and_soul == lo.effects.heart_and_soul
    &&& hi.effects.quick_innovation == lo.effects.quick_innovation || (
    lo.effects.quick_innovation == SingleUse::Unavailable && hi.effects.quick_innovation
        == SingleUse::Available)
}

/// The buffs of a reduced state after a considered move: what the move
/// spends, and then, unless the move filled the progress bar, the turn that
/// ends and what the move writes; Manipulation, Waste Not and the guard
/// stay cleared.
pub open spec fn spec_buffs_of_child(ctx: SolverContext, s: ReducedState, a: Action) -> Effects {
    let gain = crate::state::spec_progress_increase(a, ctx.settings, s.effects);
    let gained = crate::state::spec_effects_after_gain(
        a,
        s.effects,
        Condition::Normal,
        ctx.settings,
        gain,
        crate::state::spec_quality_increase(a, ctx.settings, s.effects, Condition::Normal),
    );
    let kept = if gain >= ctx.settings.max_progress {
        gained
    } else {
        crate::state::spec_effects_written(a, gained.spec_tick_down())
    };
    Effects { manipulation: 0, waste_not: 0, guard: 0, ..kept }
}

/// A considered move from a reduced state, written out: it can be made
/// where the kernel does not reject it; it makes the progress, held at the
/// recipe's, and the quality that the buffs give; it costs its crafting
/// points and the price of its wear.
#[verifier::rlimit(40)]
pub proof fn lemma_child_is_plain(ctx: SolverContext, s: ReducedState, a: Action)
    requires
        ctx.valid(),
        s.valid(),
        in_search(a),
    ensures
        spec_child(ctx, s, a) is Some <==> crate::state::spec_rejection(
            s.spec_to_state(),
            a,
            Condition::Normal,
            ctx.settings,
        ) is None,
        spec_child(ctx, s, a) is Some ==> {
            let c = spec_child(ctx, s, a).unwrap().0;
            let g = spec_child(ctx, s, a).unwrap().1;
            &&& g.first == crate::state::spec_add_progress(
                0,
                crate::state::spec_progress_increase(a, ctx.settings, s.effects),
                ctx.settings.max_progress,
            )
            &&& g.second == crate::state::spec_quality_increase(
                a,
                ctx.settings,
                s.effects,
                Condition::Normal,
            )
            &&& c.combo == a.spec_to_combo()
            &&& c.effects == spec_buffs_of_child(ctx, s, a)
            &&& c.cp == s.cp - a.spec_cp_cost() - crate::reduced_state::spec_durability_price(
                crate::state::spec_durability_cost(a, s.effects) / 5,
                ctx.base_durability_cost as int,
                ctx.waste_not_cost as int,
            )
        },
{
    reveal(SimulationState::spec_use_action);
    reveal(spec_child);
    if spec_child(ctx, s, a) is Some {
        lemma_child_descends(ctx, s, a);
        let bdc = ctx.base_durability_cost as int;
        let wnc = ctx.waste_not_cost as int;
        let from = s.spec_to_state();
        let mid = crate::state::spec_after_gain(from, a, Condition::Normal, ctx.settings);
        let next = from.spec_use_action(a, Condition::Normal, ctx.settings).unwrap();
        let wear = crate::state::spec_durability_cost(a, s.effects) as int;
        let quality = crate::state::spec_quality_increase(
            a,
            ctx.settings,
            s.effects,
            Condition::Normal,
        );
        assert(wear == 0 || wear == 5 || wear == 10 || wear == 20);
        assert(mid.cp == s.cp - a.spec_cp_cost());
        assert(mid.durability == UNBOUNDED_DURABILITY - wear);
        assert(mid.unreliable_quality[0] == quality && mid.unreliable_quality[1] == quality);
        assert(next.cp == mid.cp && next.durability == mid.durability && next.progress
            == mid.progress && next.unreliable_quality == mid.unreliable_quality && next.combo
            == mid.combo);
        let used = crate::reduced_state::spec_used_units(next.durability);
        let price = crate::reduced_state::spec_durability_price(used, bdc, wnc);
        assert(used == wear / 5);
        assert(0 <= price <= 56 + 14) by (nonlinear_arith)
            requires
                used == wear / 5,
                wear == 0 || wear == 5 || wear == 10 || wear == 20,
                1 <= bdc <= 14,
                0 <= wnc <= 14,
                price == crate::reduced_state::spec_durability_price(used, bdc, wnc),
        ;
        assert(mid.spec_is_final(ctx.settings) <==> crate::state::spec_progress_increase(
            a,
            ctx.settings,
            s.effects,
        ) >= ctx.settings.max_progress);
    }
}

/// A move that the kernel does not reject from the state worse off, it
/// does not reject from the state better off, unless it is Quick
/// Innovation on top of Innovation; and it wears the item alike.
pub proof fn lemma_better_off_is_not_rejected(
    ctx: SolverContext,
    lo: ReducedState,
    hi: ReducedState,
    a: Action,
)
    requires
        is_better_off(hi, lo),
        crate::state::spec_rejection(lo.spec_to_state(), a, Condition::Normal, ctx.settings)
            is None,
        !(a == Action::QuickInnovation && hi.effects.innovation > 0),
    ensures
        crate::state::spec_rejection(hi.spec_to_state(), a, Condition::Normal, ctx.settings)
            is None,
        crate::state::spec_durability_cost(a, hi.effects) == crate::state::spec_durability_cost(
            a,
            lo.effects,
        ),
{
}

/// The buffs after a considered move are no fewer for the state better off
/// than for the state worse off.
#[verifier::rlimit(40)]
pub proof fn lemma_buffs_of_the_better_off(
    ctx: SolverContext,
    lo: ReducedState,
    hi: ReducedState,
    a: Action,
)
    requires
        ctx.valid(),
        is_better_off(hi, lo),
        in_search(a),
        crate::state::spec_rejection(lo.spec_to_state(), a, Condition::Normal, ctx.settings)
            is None,
        !(a == Action::QuickInnovation && hi.effects.innovation > 0),
    ensures
        ({
            let e1 = spec_buffs_of_child(ctx, lo, a);
            let e2 = spec_buffs_of_child(ctx, hi, a);
            &&& e1.valid()
            &&& e2.valid()
            &&& e1.inner_quiet == e2.inner_quiet
            &&& e1.great_strides <= e2.great_strides
            &&& e1.innovation <= e2.innovation
            &&& e1.veneration <= e2.veneration
            &&& e1.muscle_memory <= e2.muscle_memory
            &&& e1.trained_perfection == e2.trained_perfection
            &&& e1.heart_and_soul == e2.heart_and_soul
            &&& e1.quick_innovation == e2.quick_innovation || (e1.quick_innovation
                == SingleUse::Unavailable && e2.quick_innovation == SingleUse::Available)
        }),
{
    crate::state::lemma_progress_grows_with_buffs(a, ctx.settings, lo.effects, hi.effects);
    crate::state::lemma_quality_grows_with_buffs(a, ctx.settings, lo.effects, hi.effects);
    let gain1 = crate::state::spec_progress_increase(a, ctx.settings, lo.effects);
    let gain2 = crate::state::spec_progress_increase(a, ctx.settings, hi.effects);
    let quality1 = crate::state::spec_quality_increase(
        a,
        ctx.settings,
        lo.effects,
        Condition::Normal,
    );
    let quality2 = crate::state::spec_quality_increase(
        a,
        ctx.settings,
        hi.effects,
        Condition::Normal,
    );
    let e1 = crate::state::spec_effects_after_gain(
        a,
        lo.effects,
        Condition::Normal,
        ctx.settings,
        gain1,
        quality1,
    );
    let e2 = crate::state::spec_effects_after_gain(
        a,
        hi.effects,
        Condition::Normal,
        ctx.settings,
        gain2,
        quality2,
    );
    assert(e1.inner_quiet == e2.inner_quiet);
    assert(e1.great_strides <= e2.great_strides);
    assert(e1.muscle_memory <= e2.muscle_memory);
    assert(e1.innovation <= e2.innovation && e1.veneration <= e2.veneration);
    assert(e1.trained_perfection == e2.trained_perfection);
    assert(e1.heart_and_soul == e2.heart_and_soul);
    assert(e1.valid() && e2.valid());
    let t1 = e1.spec_tick_down();
    let t2 = e2.spec_tick_down();
    assert(t1.great_strides <= t2.great_strides && t1.great_strides <= e2.great_strides);
    assert(t1.muscle_memory <= t2.muscle_memory && t1.muscle_memory <= e2.muscle_memory);
    assert(t1.innovation <= t2.innovation && t1.innovation <= e2.innovation);
    assert(t1.veneration <= t2.veneration && t1.veneration <= e2.veneration);
    assert(t1.valid() && t2.valid());
    if gain2 >= ctx.settings.max_progress && gain1 < ctx.settings.max_progress {
        assert(gain2 != 0);
        if a.spec_progress_efficiency(ctx.settings.job_level) == 0 {
            crate::state::lemma_no_efficiency_no_progress(a, ctx.settings, hi.effects);
        }
        assert(a != Action::MuscleMemory);
        assert(crate::state::spec_effects_written(a, t1) == t1);
    }
}

/// A considered move that the state worse off can make, the state better
/// off can make too, unless it is Quick Innovation on top of Innovation: it
/// makes no less, and leaves the one state better off than the other again.
pub proof fn lemma_child_of_the_better_off(
    ctx: SolverContext,
    lo: ReducedState,
    hi: ReducedState,
    a: Action,
)
    requires
        ctx.valid(),
        is_better_off(hi, lo),
        in_search(a),
        spec_child(ctx, lo, a) is Some,
        !(a == Action::QuickInnovation && hi.effects.innovation > 0),
    ensures
        spec_child(ctx, hi, a) is Some,
        is_better_off(spec_child(ctx, hi, a).unwrap().0, spec_child(ctx, lo, a).unwrap().0),
        dominates(spec_child(ctx, hi, a).unwrap().1, spec_child(ctx, lo, a).unwrap().1),
        spec_child(ctx, lo, a).unwrap().1.first != 0 ==> spec_child(ctx, hi, a).unwrap().1.first
            != 0,
{
    lemma_child_is_plain(ctx, lo, a);
    lemma_child_is_plain(ctx, hi, a);
    lemma_better_off_is_not_rejected(ctx, lo, hi, a);
    lemma_buffs_of_the_better_off(ctx, lo, hi, a);
    crate::state::lemma_progress_grows_with_buffs(a, ctx.settings, lo.effects, hi.effects);
    crate::state::lemma_quality_grows_with_buffs(a, ctx.settings, lo.effects, hi.effects);
    let c1 = spec_child(ctx, lo, a).unwrap().0;
    let c2 = spec_child(ctx, hi, a).unwrap().0;
    assert(c1.effects == spec_buffs_of_child(ctx, lo, a));
    assert(c2.effects == spec_buffs_of_child(ctx, hi, a));
    assert(c2.cp - c1.cp == hi.cp - lo.cp);
    assert(c1.combo == c2.combo);
    assert(c1.combo != Combo::SynthesisBegin);
    assert(c1.valid() && c2.valid());
}

/// Quick Innovation on top of Innovation is left out by the state better
/// off: the state worse off is no better after it than the other before.
#[verifier::rlimit(40)]
pub proof fn lemma_quick_innovation_left_out(
    ctx: SolverContext,
    lo: ReducedState,
    hi: ReducedState,
)
    requires
        ctx.valid(),
        is_better_off(hi, lo),
        spec_child(ctx, lo, Action::QuickInnovation) is Some,
        hi.effects.innovation > 0,
    ensures
        is_better_off(hi, spec_child(ctx, lo, Action::QuickInnovation).unwrap().0),
        spec_child(ctx, lo, Action::QuickInnovation).unwrap().1 == (ParetoValue {
            first: 0,
            second: 0,
        }),
{
    let a = Action::QuickInnovation;
    lemma_child_descends(ctx, lo, a);
    crate::state::lemma_no_efficiency_no_progress(a, ctx.settings, lo.effects);
    crate::state::lemma_no_efficiency_no_quality(a, ctx.settings, lo.effects, Condition::Normal);
    reveal(SimulationState::spec_use_action);
    reveal(spec_child);
    let from = lo.spec_to_state();
    assert(crate::state::spec_rejection(from, a, Condition::Normal, ctx.settings) is None);
    let mid = crate::state::spec_after_gain(from, a, Condition::Normal, ctx.settings);
    assert(mid.progress == 0);
    assert(mid.durability == UNBOUNDED_DURABILITY);
    assert(!mid.spec_is_final(ctx.settings));
    assert(mid.cp == lo.cp);
    assert(mid.unreliable_quality[0] == 0 && mid.unreliable_quality[1] == 0);
    let next = from.spec_use_action(a, Condition::Normal, ctx.settings).unwrap();
    assert(next == crate::state::spec_end_turn(from, mid, a, Condition::Normal, ctx.settings));
    assert(crate::reduced_state::spec_used_units(next.durability) == 0);
    assert(crate::reduced_state::spec_durability_price(
        0,
        ctx.base_durability_cost as int,
        ctx.waste_not_cost as int,
    ) == 0);
    let c = spec_child(ctx, lo, a).unwrap().0;
    assert(c.cp == lo.cp);
    assert(c.effects.innovation == 1);
    assert(c.effects.quick_innovation == SingleUse::Unavailable);
    assert(lo.effects.quick_innovation == SingleUse::Available);
}

/// What a sequence of considered moves makes from the state worse off, the
/// state better off can make or better.
#[verifier::rlimit(40)]
pub proof fn lemma_better_off_reaches_more(
    ctx: SolverContext,
    lo: ReducedState,
    hi: ReducedState,
    moves: Seq<Action>,
    v: ParetoValue,
)
    requires
        ctx.valid(),
        is_better_off(hi, lo),
        outcome(ctx, lo, moves) == Some(v),
    ensures
        exists|better: ParetoValue| reachable(ctx, hi, better) && #[trigger] dominates(better, v),
    decreases moves.len(),
{
    let a = moves[0];
    lemma_child_descends(ctx, lo, a);
    let c = spec_child(ctx, lo, a).unwrap().0;
    let g = spec_child(ctx, lo, a).unwrap().1;
    let rest = moves.skip(1);
    if a == Action::QuickInnovation && hi.effects.innovation > 0 {
        lemma_quick_innovation_left_out(ctx, lo, hi);
        assert(moves.len() > 1);
        let w = outcome(ctx, c, rest).unwrap();
        assert(reachable(ctx, c, w)) by {
            reveal(reachable);
        }
        lemma_reachable_within(ctx, c, w);
        assert(v == w);
        lemma_better_off_reaches_more(ctx, c, hi, rest, w);
    } else {
        lemma_child_of_the_better_off(ctx, lo, hi, a);
        let c2 = spec_child(ctx, hi, a).unwrap().0;
        let g2 = spec_child(ctx, hi, a).unwrap().1;
        if moves.len() == 1 {
            let better = clamped(g2, ctx.max_first(), ctx.max_second());
            lemma_step_cases(ctx, hi, a, better);
            lemma_step_is_reachable(ctx, hi, a, better);
            assert(dominates(better, v));
        } else {
            let w = outcome(ctx, c, rest).unwrap();
            lemma_better_off_reaches_more(ctx, c, c2, rest, w);
            let w2 = choose|w2: ParetoValue| reachable(ctx, c2, w2) && #[trigger] dominates(w2, w);
            let better = shifted(
                w2,
                g2.first as u32,
                g2.second as u32,
                ctx.max_first(),
                ctx.max_second(),
            );
            assert(goes_on_to(ctx, c2, g2, better));
            lemma_step_cases(ctx, hi, a, better);
            lemma_step_is_reachable(ctx, hi, a, better);
            assert(dominates(better, v));
        }
    }
}

/// Buffs that have more turns to run, and an open combo, never lower the
/// front: the front of the state better off covers every point of the front
/// of the state worse off.
pub proof fn lemma_front_grows_with_buffs(
    ctx: SolverContext,
    lo: ReducedState,
    hi: ReducedState,
    lo_front: Seq<ParetoValue>,
    hi_front: Seq<ParetoValue>,
    i: int,
)
    requires
        ctx.valid(),
        is_better_off(hi, lo),
        is_front_of(ctx, lo, lo_front),
        is_front_of(ctx, hi, hi_front),
        0 <= i < lo_front.len(),
    ensures
        covered(hi_front, lo_front[i]),
{
    lemma_front_of_is_front(ctx, lo, lo_front);
    let v = lo_front[i];
    assert(reachable(ctx, lo, v));
    let moves = choose|moves: Seq<Action>| #[trigger] outcome(ctx, lo, moves) == Some(v);
    assert(outcome(ctx, lo, moves) == Some(v)) by {
        reveal(reachable);
    }
    lemma_better_off_reaches_more(ctx, lo, hi, moves, v);
    let better = choose|better: ParetoValue|
        reachable(ctx, hi, better) && #[trigger] dominates(better, v);
    lemma_front_of_covers(ctx, hi, hi_front, better);
    let j = choose|j: int| 0 <= j < hi_front.len() && dominates(#[trigger] hi_front[j], better);
    assert(dominates(hi_front[j], v));
}

/// The moves that keep the item or the buffs up and that the bound leaves
/// out or, like Trained Perfection, counts in crafting points.
pub open spec fn is_upkeep(a: Action) -> bool {
    a == Action::MasterMend || a == Action::ImmaculateMend || a == Action::Manipulation || a
        == Action::WasteNot || a == Action::WasteNot2 || a == Action::TrainedPerfection
}

/// What the law of the falling bound asks of a state before a move of
/// upkeep: the durability is a multiple of 5; the crafting points of the
/// state and what its buffs and durability are worth fit in 16 bits; and
/// Manipulation is in force only where it is allowed.
pub open spec fn upkeep_is_followed(
    ctx: SolverContext,
    settings: Settings,
    state: SimulationState,
    action: Action,
) -> bool {
    &&& is_upkeep(action)
    &&& state.durability % 5 == 0
    &&& state.cp + spec_credit(ctx, state) <= i16::MAX
    &&& state.effects.manipulation > 0 ==> settings.allowed_actions.spec_has(Action::Manipulation)
}

/// What the buffs and the durability of a state are worth after a move of
/// upkeep is at most what they were worth before and what the move cost.
#[verifier::rlimit(40)]
pub proof fn lemma_upkeep_is_paid_for(
    ctx: SolverContext,
    settings: Settings,
    state: SimulationState,
    action: Action,
    next: SimulationState,
)
    requires
        ctx.valid(),
        ctx.settings == (Settings { adversarial: false, ..settings }),
        ctx.base_durability_cost == spec_base_durability_cost(settings),
        ctx.waste_not_cost == spec_waste_not_cost(settings),
        state.effects.valid(),
        upkeep_is_followed(ctx, settings, state, action),
        state.spec_use_action(action, Condition::Normal, settings) == Ok::<
            SimulationState,
            crate::state::ActionError,
        >(next),
        !next.spec_is_final(settings),
    ensures
        spec_credit(ctx, next) <= spec_credit(ctx, state) + action.spec_cp_cost(),
{
    crate::state::lemma_move_that_goes_on(state, action, settings, next);
    let bdc = ctx.base_durability_cost as int;
    let wnc = ctx.waste_not_cost as int;
    let mid = crate::state::spec_after_gain(state, action, Condition::Normal, settings);
    let m = state.effects.manipulation as int;
    let w = state.effects.waste_not as int;
    let m2 = next.effects.manipulation as int;
    let w2 = next.effects.waste_not as int;
    let du = spec_durability_units(state.durability);
    let dn = spec_durability_units(next.durability);
    let top = spec_durability_units(settings.max_durability);
    let cost = action.spec_cp_cost() as int;
    let restored: int = if m > 0 && action != Action::Manipulation {
        1
    } else {
        0
    };
    let before: int = if spec_credits_perfection(ctx, state) {
        1
    } else {
        0
    };
    let after: int = if spec_credits_perfection(ctx, next) {
        1
    } else {
        0
    };
    assert(mid.durability == state.durability);
    assert(du >= 1);
    assert(next.durability <= settings.max_durability || next.durability <= state.durability);
    assert(after == before);
    assert(m2 == (if action == Action::Manipulation {
        8int
    } else if m > 0 {
        m - 1
    } else {
        0
    }));
    assert(w2 == (if action == Action::WasteNot {
        4int
    } else if action == Action::WasteNot2 {
        8
    } else if w > 0 {
        w - 1
    } else {
        0
    }));
    assert(dn <= (if action == Action::MasterMend {
        du + 6 + restored
    } else if action == Action::ImmaculateMend {
        if top >= du {
            top
        } else {
            du
        }
    } else {
        du + restored
    }));
    assert(restored == 1 ==> bdc <= 12);
    assert(action == Action::WasteNot2 ==> wnc == 12);
    assert(action == Action::ImmaculateMend && top > 1 ==> bdc * (top - 1) <= 112) by {
        if action == Action::ImmaculateMend && top > 1 {
            let k = top - 1;
            assert(settings.allowed_actions.spec_has(Action::ImmaculateMend));
            let q = 112int / k;
            assert(bdc <= q);
            assert(q * k <= 112) by (nonlinear_arith)
                requires
                    q == 112int / k,
                    k >= 1,
            ;
            assert(bdc * k <= q * k) by (nonlinear_arith)
                requires
                    bdc <= q,
                    k >= 1,
            ;
        }
    }
    let kind: int = if action == Action::MasterMend {
        0
    } else if action == Action::ImmaculateMend {
        1
    } else if action == Action::Manipulation {
        2
    } else if action == Action::WasteNot {
        3
    } else if action == Action::WasteNot2 {
        4
    } else {
        5
    };
    assert(cost == (if kind == 0 {
        88int
    } else if kind == 1 {
        112
    } else if kind == 2 {
        96
    } else if kind == 3 {
        56
    } else if kind == 4 {
        98
    } else {
        0
    }));
    lemma_upkeep_sums(kind, bdc, wnc, m, w, m2, w2, du, dn, top, restored, cost);
    assert(spec_credit(ctx, state) == m * 12 + w * wnc + du * bdc + before * (4 * bdc));
    assert(spec_credit(ctx, next) == m2 * 12 + w2 * wnc + dn * bdc + after * (4 * bdc));
}

/// The sums behind `lemma_upkeep_is_paid_for`, over plain numbers.
proof fn lemma_upkeep_sums(
    kind: int,
    bdc: int,
    wnc: int,
    m: int,
    w: int,
    m2: int,
    w2: int,
    du: int,
    dn: int,
    top: int,
    restored: int,
    cost: int,
)
    requires
        0 <= kind <= 5,
        1 <= bdc <= 14,
        0 <= wnc <= 14,
        0 <= m <= 8,
        0 <= w <= 8,
        du >= 1,
        restored == 0 || restored == 1,
        restored == 1 ==> bdc <= 12 && m >= 1 && kind != 2,
        kind == 4 ==> wnc == 12,
        kind == 1 && top > 1 ==> bdc * (top - 1) <= 112,
        cost == (if kind == 0 {
            88int
        } else if kind == 1 {
            112
        } else if kind == 2 {
            96
        } else if kind == 3 {
            56
        } else if kind == 4 {
            98
        } else {
            0
        }),
        m2 == (if kind == 2 {
            8int
        } else if m > 0 {
            m - 1
        } else {
            0
        }),
        w2 == (if kind == 3 {
            4int
        } else if kind == 4 {
            8
        } else if w > 0 {
            w - 1
        } else {
            0
        }),
        dn <= (if kind == 0 {
            du + 6 + restored
        } else if kind == 1 {
            if top >= du {
                top
            } else {
                du
            }
        } else {
            du + restored
        }),
    ensures
        m2 * 12 + w2 * wnc + dn * bdc <= m * 12 + w * wnc + du * bdc + cost,
{
    let gain: int = if kind == 0 {
        6 + restored
    } else if kind == 1 {
        if top >= du {
            top - du
        } else {
            0
        }
    } else {
        restored
    };
    assert(dn <= du + gain);
    assert(dn * bdc <= (du + gain) * bdc) by (nonlinear_arith)
        requires
            dn <= du + gain,
            bdc >= 1,
    ;
    assert((du + gain) * bdc == du * bdc + gain * bdc) by (nonlinear_arith);
    assert(w2 * wnc <= w * wnc + (if kind == 3 {
        56int
    } else if kind == 4 {
        96
    } else {
        0
    })) by (nonlinear_arith)
        requires
            0 <= wnc <= 14,
            0 <= w <= 8,
            kind == 4 ==> wnc == 12,
            w2 == (if kind == 3 {
                4int
            } else if kind == 4 {
                8
            } else if w > 0 {
                w - 1
            } else {
                0
            }),
    ;
    if kind == 0 {
        assert(gain * bdc <= 84 + restored * 12) by (nonlinear_arith)
            requires
                gain == 6 + restored,
                restored == 0 || restored == 1,
                1 <= bdc <= 14,
                restored == 1 ==> bdc <= 12,
        ;
    } else if kind == 1 {
        if top >= du {
            assert(gain * bdc <= 112) by (nonlinear_arith)
                requires
                    gain == top - du,
                    du >= 1,
                    top >= du,
                    1 <= bdc <= 14,
                    top > 1 ==> bdc * (top - 1) <= 112,
            ;
        }
    } else {
        assert(gain * bdc <= restored * 12) by (nonlinear_arith)
            requires
                gain == restored,
                restored == 0 || restored == 1,
                1 <= bdc <= 14,
                restored == 1 ==> bdc <= 12,
        ;
    }
}

/// After a move of upkeep the reduction of the state is no better off than
/// it was before: the buffs have lost a turn, no combo is open, and there
/// are no more crafting points than before.
#[verifier::rlimit(40)]
pub proof fn lemma_upkeep_in_the_reduced_model(
    ctx: SolverContext,
    settings: Settings,
    state: SimulationState,
    action: Action,
    next: SimulationState,
)
    requires
        ctx.valid(),
        ctx.settings == (Settings { adversarial: false, ..settings }),
        ctx.base_durability_cost == spec_base_durability_cost(settings),
        ctx.waste_not_cost == spec_waste_not_cost(settings),
        state.effects.valid(),
        upkeep_is_followed(ctx, settings, state, action),
        state.spec_use_action(action, Condition::Normal, settings) == Ok::<
            SimulationState,
            crate::state::ActionError,
        >(next),
        !next.spec_is_final(settings),
    ensures
        is_better_off(spec_reduce(ctx, state), spec_reduce(ctx, next)),
        next.progress == state.progress,
        next.spec_get_quality() == state.spec_get_quality(),
{
    crate::state::lemma_move_that_goes_on(state, action, settings, next);
    crate::state::lemma_no_efficiency_no_progress(action, settings, state.effects);
    crate::state::lemma_no_efficiency_no_quality(
        action,
        settings,
        state.effects,
        Condition::Normal,
    );
    crate::state::lemma_no_efficiency_no_quality(action, settings, state.effects, Condition::Poor);
    lemma_upkeep_is_paid_for(ctx, settings, state, action, next);
    let mid = crate::state::spec_after_gain(state, action, Condition::Normal, settings);
    let e1 = crate::state::spec_effects_after_gain(
        action,
        state.effects,
        Condition::Normal,
        settings,
        0,
        0,
    );
    assert(mid.effects == e1);
    let w1 = crate::state::spec_effects_written(action, e1.spec_tick_down());
    assert(next.effects == w1);
    assert(next.effects.valid());
    let b1 = spec_reduced_effects(ctx, state.effects);
    let b2 = spec_reduced_effects(ctx, next.effects);
    assert(b2.inner_quiet == b1.inner_quiet);
    assert(b2.great_strides <= b1.great_strides && b2.innovation <= b1.innovation);
    assert(b2.veneration <= b1.veneration && b2.muscle_memory <= b1.muscle_memory);
    assert(b2.trained_perfection == b1.trained_perfection);
    assert(b2.heart_and_soul == b1.heart_and_soul);
    assert(b2.quick_innovation == b1.quick_innovation);
    assert(next.combo == Combo::NoCombo);
    assert(mid.unreliable_quality == state.unreliable_quality);
    lemma_reduction_is_plain(ctx, state);
    lemma_reduction_is_plain(ctx, next);
    let total = next.cp + spec_credit(ctx, next);
    assert(next.cp == state.cp - action.spec_cp_cost());
    assert(0 <= total <= state.cp + spec_credit(ctx, state));
}

/// The bound never rises along a move of upkeep after which the craft goes
/// on: a repair, Waste Not, Manipulation or Trained Perfection costs at
/// least the crafting points that the bound counts for what it gives, and
/// the turn that it takes gives nothing. This is stated for states whose
/// durability is a multiple of 5, whose crafting points fit in 16 bits
/// together with what their buffs and durability are worth, and in which
/// Manipulation is in force only where the settings allow it.
pub proof fn lemma_bound_falls_along_upkeep(
    ctx: SolverContext,
    settings: Settings,
    state: SimulationState,
    action: Action,
    next: SimulationState,
    bound: u16,
    next_bound: u16,
)
    requires
        ctx.valid(),
        ctx.settings == (Settings { adversarial: false, ..settings }),
        ctx.base_durability_cost == spec_base_durability_cost(settings),
        ctx.waste_not_cost == spec_waste_not_cost(settings),
        state.effects.valid(),
        upkeep_is_followed(ctx, settings, state, action),
        state.spec_use_action(action, Condition::Normal, settings) == Ok::<
            SimulationState,
            crate::state::ActionError,
        >(next),
        !next.spec_is_final(settings),
        is_bound(ctx, state, bound),
        is_bound(ctx, next, next_bound),
    ensures
        bound >= next_bound,
{
    let r = spec_reduce(ctx, state);
    let rn = spec_reduce(ctx, next);
    let missing = spec_missing_progress(ctx, state);
    lemma_upkeep_in_the_reduced_model(ctx, settings, state, action, next);
    assert(spec_missing_progress(ctx, next) == missing);
    if exists|v: ParetoValue| #[trigger] reachable(ctx, rn, v) && v.first >= missing {
        let best = choose|best: ParetoValue| #[trigger]
            is_best(ctx, rn, missing, best) && next_bound == spec_capped_total(
                ctx,
                best.second,
                next.spec_get_quality(),
            );
        let moves = choose|moves: Seq<Action>| #[trigger] outcome(ctx, rn, moves) == Some(best);
        assert(outcome(ctx, rn, moves) == Some(best)) by {
            reveal(reachable);
        }
        lemma_better_off_reaches_more(ctx, rn, r, moves, best);
        let better = choose|better: ParetoValue|
            reachable(ctx, r, better) && #[trigger] dominates(better, best);
        assert(reachable(ctx, r, better) && better.first >= missing);
        let top = choose|top: ParetoValue| #[trigger]
            is_best(ctx, r, missing, top) && bound == spec_capped_total(
                ctx,
                top.second,
                state.spec_get_quality(),
            );
        assert(better.second <= top.second);
    }
}

/// What the law of the falling bound asks of a state and a move: the move
/// is not Tricks of the Trade; the durability is a multiple of 5; the
/// crafting points of the state and what its buffs and durability are worth
/// fit in 16 bits; and Manipulation and Trained Perfection are in force
/// only where they are allowed.
pub open spec fn bound_follows(
    ctx: SolverContext,
    settings: Settings,
    state: SimulationState,
    action: Action,
) -> bool {
    &&& action != Action::TricksOfTheTrade
    &&& state.durability % 5 == 0
    &&& state.cp + spec_credit(ctx, state) <= i16::MAX
    &&& state.effects.manipulation > 0 ==> settings.allowed_actions.spec_has(Action::Manipulation)
    &&& state.effects.trained_perfection == SingleUse::Active
        ==> settings.allowed_actions.spec_has(Action::TrainedPerfection)
}

/// The bound never rises along a move after which the craft goes on: the
/// bound of a state is at least the bound of the state after the move, in
/// either model of the conditions. This is stated of every move but Tricks
/// of the Trade, which gives back crafting points that the bound has not
/// counted, and of states as a craft brings them about: with a durability
/// that is a multiple of 5, with crafting points that fit in 16 bits
/// together with what the buffs and the durability are worth, and with
/// Manipulation and Trained Perfection in force only where the settings
/// allow them.
pub proof fn lemma_bound_never_rises(
    ctx: SolverContext,
    settings: Settings,
    state: SimulationState,
    action: Action,
    next: SimulationState,
    bound: u16,
    next_bound: u16,
)
    requires
        ctx.valid(),
        ctx.settings == (Settings { adversarial: false, ..settings }),
        ctx.base_durability_cost == spec_base_durability_cost(settings),
        ctx.waste_not_cost == spec_waste_not_cost(settings),
        state.effects.valid(),
        bound_follows(ctx, settings, state, action),
        state.spec_use_action(action, Condition::Normal, settings) == Ok::<
            SimulationState,
            crate::state::ActionError,
        >(next),
        !next.spec_is_final(settings),
        is_bound(ctx, state, bound),
        is_bound(ctx, next, next_bound),
    ensures
        bound >= next_bound,
{
    if is_upkeep(action) {
        lemma_bound_falls_along_upkeep(ctx, settings, state, action, next, bound, next_bound);
    } else {
        assert(in_search(action));
        lemma_bound_falls_along_a_move(ctx, settings, state, action, next, bound, next_bound);
    }
}

/// The reduction of any state, computed.
pub fn reduce(ctx: &SolverContext, state: &SimulationState) -> (r: ReducedState)
    requires
        ctx.valid(),
        state.effects.valid(),
    ensures
        r == spec_reduce(*ctx, *state),
        r.valid(),
{
    reveal(spec_reduce);
    let perfection = state.effects.trained_perfection != SingleUse::Unavailable
        && ctx.settings.allowed_actions.has(Action::TrainedPerfection);
    let units: i32 = if state.durability >= 0 {
        (state.durability / 5) as i32
    } else {
        -((-(state.durability as i32)) / 5)
    };
    assert(units == spec_durability_units(state.durability));
    let bonus: i32 = if perfection {
        4 * ctx.base_durability_cost as i32
    } else {
        0
    };
    assert(-25 * 14 <= units * ctx.base_durability_cost <= 25 * 14) by (nonlinear_arith)
        requires
            -25 <= units <= 25,
            1 <= ctx.base_durability_cost <= 14,
    ;
    assert(0 <= state.effects.waste_not * ctx.waste_not_cost <= 8 * 14) by (nonlinear_arith)
        requires
            0 <= state.effects.waste_not <= 8,
            0 <= ctx.waste_not_cost <= 14,
    ;
    let credit: i32 = state.effects.manipulation as i32 * MANIPULATION_STACK_VALUE as i32
        + state.effects.waste_not as i32 * ctx.waste_not_cost as i32 + units
        * ctx.base_durability_cost as i32 + bonus;
    assert(credit == spec_credit(*ctx, *state));
    let mut effects = state.effects;
    if perfection {
        effects.trained_perfection = SingleUse::Unavailable;
    }
    let credited = SimulationState {
        cp: clamp_cp(state.cp as i32 + credit),
        durability: UNBOUNDED_DURABILITY,
        progress: state.progress,
        unreliable_quality: state.unreliable_quality,
        effects,
        combo: state.combo,
    };
    ReducedState::from_state(credited, ctx.base_durability_cost, ctx.waste_not_cost)
}

/// The first point of a front with at least `missing` progress: of the
/// points with that much progress it has the most quality.
pub fn first_with_progress(front: &Vec<ParetoValue>, missing: u16) -> (r: Option<ParetoValue>)
    requires
        is_front(front@),
    ensures
        r is None ==> forall|k: int| 0 <= k < front.len() ==> (#[trigger] front@[k]).first < missing,
        r matches Some(best) ==> front@.contains(best) && best.first >= missing && forall|k: int|
            0 <= k < front.len() && (#[trigger] front@[k]).first >= missing ==> front@[k].second
                <= best.second,
{
    let mut lo: usize = 0;
    let mut hi: usize = front.len();
    while lo < hi
        invariant
            lo <= hi <= front.len(),
            is_front(front@),
            forall|k: int| 0 <= k < lo ==> (#[trigger] front@[k]).first < missing,
            forall|k: int| hi <= k < front.len() ==> (#[trigger] front@[k]).first >= missing,
        decreases hi - lo,
    {
        let mid = lo + (hi - lo) / 2;
        if front[mid].first < missing {
            proof {
                assert forall|k: int| 0 <= k < mid + 1 implies (#[trigger] front@[k]).first
                    < missing by {
                    if k < mid {
                        assert(front@[k].first < front@[mid as int].first);
                    }
                }
            }
            lo = mid + 1;
        } else {
            proof {
                assert forall|k: int| mid <= k < front.len() implies (#[trigger] front@[k]).first
                    >= missing by {
                    if k > mid {
                        assert(front@[mid as int].first < front@[k].first);
                    }
                }
            }
            hi = mid;
        }
    }
    if lo == front.len() {
        None
    } else {
        proof {
            assert forall|k: int|
                0 <= k < front.len() && (#[trigger] front@[k]).first >= missing implies front@[k].second
                <= front@[lo as int].second by {
                if k > lo {
                    assert(front@[lo as int].second > front@[k].second);
                }
            }
        }
        Some(front[lo])
    }
}

/// The bound read off the front of the reduced state.
proof fn lemma_bound_from_front(
    ctx: SolverContext,
    state: SimulationState,
    front: Seq<ParetoValue>,
    found: Option<ParetoValue>,
    bound: u16,
)
    requires
        is_front_of(ctx, spec_reduce(ctx, state), front),
        found is None ==> forall|k: int|
            0 <= k < front.len() ==> (#[trigger] front[k]).first < spec_missing_progress(
                ctx,
                state,
            ),
        found matches Some(best) ==> front.contains(best) && best.first >= spec_missing_progress(
            ctx,
            state,
        ) && forall|k: int|
            0 <= k < front.len() && (#[trigger] front[k]).first >= spec_missing_progress(
                ctx,
                state,
            ) ==> front[k].second <= best.second,
        bound == (match found {
            Some(best) => spec_capped_total(ctx, best.second, state.spec_get_quality()),
            None => 0,
        }),
    ensures
        is_bound(ctx, state, bound),
{
    let s = spec_reduce(ctx, state);
    let missing = spec_missing_progress(ctx, state);
    match found {
        None => {
            assert forall|v: ParetoValue| #[trigger] reachable(ctx, s, v) implies v.first
                < missing by {
                lemma_front_of_covers(ctx, s, front, v);
                let j = choose|j: int| 0 <= j < front.len() && dominates(#[trigger] front[j], v);
                assert(front[j].first < missing);
            }
        },
        Some(best) => {
            let p = choose|p: int| 0 <= p < front.len() && front[p] == best;
            lemma_front_of_is_front(ctx, s, front);
            assert(reachable(ctx, s, front[p]));
            assert forall|v: ParetoValue| #[trigger]
                reachable(ctx, s, v) && v.first >= missing implies v.second <= best.second by {
                lemma_front_of_covers(ctx, s, front, v);
                let j = choose|j: int| 0 <= j < front.len() && dominates(#[trigger] front[j], v);
                assert(front[j].first >= missing);
            }
            assert(is_best(ctx, s, missing, best));
        },
    }
}

impl QualityUpperBoundSolver {
    /// The settings and prices of this solve.
    pub closed spec fn context(&self) -> SolverContext {
        self.context
    }

    /// The scratch stack of fronts.
    pub closed spec fn stack(&self) -> Seq<Seq<ParetoValue>> {
        self.pareto_front_builder@
    }

    /// The considered moves that are allowed.
    pub closed spec fn considered(&self) -> Seq<Action> {
        self.actions@
    }

    /// Whether the front of the state with this key has been computed.
    pub closed spec fn solved(&self, key: u64) -> bool {
        self.solved_states@.contains_key(key)
    }

    /// The prices fit the settings, the scratch stack holds fronts, and
    /// every front that was computed is the front of its state.
    pub closed spec fn wf(&self) -> bool {
        &&& self.context.valid()
        &&& self.pareto_front_builder.wf()
        &&& self.pareto_front_builder.spec_max_first() == self.context.max_first()
        &&& self.pareto_front_builder.spec_max_second() == self.context.max_second()
        &&& forall|a: Action|
            self.actions@.contains(a) <==> in_search(a)
                && self.context.settings.allowed_actions.spec_has(a)
        &&& forall|s: ReducedState|
            s.effects.valid() && self.solved_states@.contains_key(#[trigger] s.spec_key())
                ==> is_front_of(self.context, s, self.solved_states@[s.spec_key()]@)
    }

    /// A solver for the settings. The bound is computed under the normal
    /// condition whatever the settings say: what is certain under every
    /// condition is at most what the normal condition gives.
    pub fn new(settings: Settings) -> (r: QualityUpperBoundSolver)
        requires
            settings.valid(),
        ensures
            r.wf(),
            r.stack().len() == 0,
            forall|k: u64| !r.solved(k),
            r.context().settings == (Settings { adversarial: false, ..settings }),
            r.context().base_durability_cost == spec_base_durability_cost(settings),
            r.context().waste_not_cost == spec_waste_not_cost(settings),
    {
        let mut durability_cost: i16 = Action::MasterMend.cp_cost() / 6;
        if settings.allowed_actions.has(Action::Manipulation) {
            let manipulation = Action::Manipulation.cp_cost() / 8;
            if manipulation < durability_cost {
                durability_cost = manipulation;
            }
        }
        let units: i16 = (settings.max_durability / 5) as i16;
        if settings.allowed_actions.has(Action::ImmaculateMend) && units > 1 {
            let immaculate = Action::ImmaculateMend.cp_cost() / (units - 1);
            assert(4 <= immaculate <= 112) by {
                assert(1 <= units - 1 <= 24);
                assert(112int / (units - 1) >= 4) by (nonlinear_arith)
                    requires
                        1 <= units - 1 <= 24,
                ;
                assert(112int / (units - 1) <= 112) by (nonlinear_arith)
                    requires
                        1 <= units - 1 <= 24,
                ;
            }
            if immaculate < durability_cost {
                durability_cost = immaculate;
            }
        }
        let waste_not_cost: i16 = if settings.allowed_actions.has(Action::WasteNot2) {
            Action::WasteNot2.cp_cost() / 8
        } else {
            Action::WasteNot.cp_cost() / 4
        };
        let max_second: u16 = if settings.max_quality > 0x7fff {
            0xffff
        } else {
            2 * settings.max_quality
        };
        let context = SolverContext {
            settings: Settings { adversarial: false, ..settings },
            base_durability_cost: durability_cost,
            waste_not_cost,
        };
        assert(context.valid());
        assert(context.max_second() == max_second);
        QualityUpperBoundSolver {
            context,
            actions: search_actions().intersection(settings.allowed_actions).actions_iter(),
            solved_states: memo_new(),
            pareto_front_builder: ParetoFrontBuilder::new(settings.max_progress, max_second),
        }
    }

    /// Merges into the top front what can be made with `action` as the
    /// first move from `state`.
    fn build_child_front(&mut self, state: ReducedState, action: Action)
        requires
            old(self).wf(),
            state.valid(),
            in_search(action),
            old(self).stack().len() > 0,
            all_reachable(old(self).context(), state, old(self).stack().last()),
        ensures
            final(self).wf(),
            final(self).context() == old(self).context(),
            final(self).stack().len() == old(self).stack().len(),
            final(self).stack().drop_last() == old(self).stack().drop_last(),
            all_reachable(final(self).context(), state, final(self).stack().last()),
            forall|v: ParetoValue| #[trigger]
                covered(old(self).stack().last(), v) ==> covered(final(self).stack().last(), v),
            forall|v: ParetoValue| #[trigger]
                step_reaches(final(self).context(), state, action, v) ==> covered(
                    final(self).stack().last(),
                    v,
                ),
            forall|k: u64| old(self).solved(k) ==> final(self).solved(k),
            final(self).considered() == old(self).considered(),
            spec_child(final(self).context(), state, action) is None ==> final(self).stack()
                == old(self).stack() && forall|k: u64| final(self).solved(k) == old(self).solved(k),
        decreases state.cp + 0x8000, state.effects.token_rank(), 0int,
    {
        let ghost ctx = self.context;
        let ghost base = self.pareto_front_builder@.drop_last();
        let ghost t0 = self.pareto_front_builder@.last();
        let from = state.to_state();
        let outcome = from.use_action(action, Condition::Normal, &self.context.settings);
        if outcome.is_err() {
            proof {
                reveal(spec_child);
                assert(spec_child(ctx, state, action) is None);
                assert forall|v: ParetoValue| #[trigger]
                    step_reaches(ctx, state, action, v) implies covered(t0, v) by {
                    lemma_step_cases(ctx, state, action, v);
                }
            }
            return ;
        }
        let next = outcome.unwrap();
        let action_progress: u32 = next.progress;
        let action_quality: u16 = next.get_quality();
        let child = ReducedState::from_state(
            next,
            self.context.base_durability_cost,
            self.context.waste_not_cost,
        );
        let ghost gain = ParetoValue { first: action_progress as u16, second: action_quality };
        proof {
            assert(spec_child(ctx, state, action) == Some((child, gain))) by {
                reveal(spec_child);
            }
            lemma_child_descends(ctx, state, action);
        }
        if child.cp > 0 {
            let ghost mut f: Seq<ParetoValue>;
            match memo_get(&self.solved_states, child.key()) {
                Some(front) => {
                    proof {
                        f = front@;
                        lemma_front_of_is_front(ctx, child, front@);
                    }
                    self.pareto_front_builder.push_shifted(
                        front.as_slice(),
                        action_progress,
                        action_quality as u32,
                    );
                },
                None => {
                    self.solve_state(child);
                    proof {
                        f = self.pareto_front_builder@.last();
                        assert(self.pareto_front_builder@.drop_last() =~= base.push(t0));
                    }
                    self.pareto_front_builder.map(action_progress, action_quality as u32);
                },
            }
            let ghost m = self.pareto_front_builder@.last();
            assert(self.pareto_front_builder@.drop_last() =~= base.push(t0));
            self.pareto_front_builder.merge();
            proof {
                assert(self.pareto_front_builder@.drop_last() =~= base);
                lemma_merge_of_what_goes_on(
                    ctx,
                    state,
                    action,
                    child,
                    gain,
                    t0,
                    f,
                    m,
                    self.pareto_front_builder@.last(),
                );
            }
        }
        let ghost t1 = self.pareto_front_builder@.last();
        if child.cp as i32 + self.context.base_durability_cost as i32 >= 0 && action_progress != 0 {
            let single = [ParetoValue::new(action_progress as u16, action_quality)];
            assert(single@ =~= seq![gain]);
            assert(self.pareto_front_builder@.drop_last() =~= base);
            self.pareto_front_builder.push(&single);
            assert(self.pareto_front_builder@.drop_last() =~= base.push(t1));
            self.pareto_front_builder.merge();
            proof {
                assert(self.pareto_front_builder@.drop_last() =~= base);
                lemma_final_merge(
                    ctx,
                    state,
                    action,
                    child,
                    gain,
                    t1,
                    self.pareto_front_builder@.last(),
                );
            }
        }
        proof {
            let top = self.pareto_front_builder@.last();
            assert forall|v: ParetoValue| #[trigger]
                step_reaches(ctx, state, action, v) implies covered(top, v) by {
                lemma_step_cases(ctx, state, action, v);
                if child.cp > 0 && goes_on_to(ctx, child, gain, v) {
                    assert(covered(t1, v));
                }
            }
        }
    }

    /// Computes the front of what can be made from `state`, leaves it on
    /// top of the scratch stack and remembers it.
    fn solve_state(&mut self, state: ReducedState)
        requires
            old(self).wf(),
            state.valid(),
        ensures
            final(self).wf(),
            final(self).context() == old(self).context(),
            final(self).stack().len() == old(self).stack().len() + 1,
            final(self).stack().drop_last() == old(self).stack(),
            is_front_of(final(self).context(), state, final(self).stack().last()),
            final(self).solved(state.spec_key()),
            forall|k: u64| old(self).solved(k) ==> final(self).solved(k),
            final(self).considered() == old(self).considered(),
        decreases state.cp + 0x8000, state.effects.token_rank(), 1int,
    {
        let ghost ctx = self.context;
        let ghost base = self.pareto_front_builder@;
        self.pareto_front_builder.push_empty();
        let ghost actions = self.actions@;
        let mut i: usize = 0;
        let mut done = false;
        assert(self.pareto_front_builder@.drop_last() =~= base);
        while i < self.actions.len() && !done
            invariant
                i <= actions.len(),
                self.actions@ == actions,
                self.wf(),
                state.valid(),
                self.context == ctx,
                self.pareto_front_builder@.len() == base.len() + 1,
                self.pareto_front_builder@.drop_last() == base,
                all_reachable(ctx, state, self.pareto_front_builder@.last()),
                forall|a: Action| actions.contains(a) ==> in_search(a),
                forall|k: u64| old(self).solved(k) ==> self.solved(k),
                !done ==> forall|j: int, v: ParetoValue|
                    0 <= j < i && #[trigger] step_reaches(ctx, state, actions[j], v) ==> covered(
                        self.pareto_front_builder@.last(),
                        v,
                    ),
                done ==> self.pareto_front_builder@.last() == seq![
                    ParetoValue { first: ctx.max_first(), second: ctx.max_second() },
                ],
            decreases actions.len() - i,
        {
            let ghost top_before = self.pareto_front_builder@.last();
            assert(actions.contains(actions[i as int]));
            let action = self.actions[i];
            self.build_child_front(state, action);
            proof {
                let top = self.pareto_front_builder@.last();
                assert forall|j: int, v: ParetoValue|
                    0 <= j < i + 1 && #[trigger] step_reaches(
                        ctx,
                        state,
                        actions[j],
                        v,
                    ) implies covered(top, v) by {
                    if j < i {
                        assert(covered(top_before, v));
                    }
                }
            }
            i += 1;
            if self.pareto_front_builder.is_max() {
                done = true;
            }
        }
        let front = self.pareto_front_builder.peek().unwrap();
        proof {
            let top = self.pareto_front_builder@.last();
            assert(is_front(self.pareto_front_builder@[self.pareto_front_builder@.len() - 1]));
            assert forall|v: ParetoValue| #[trigger] reachable(ctx, state, v) implies covered(
                top,
                v,
            ) by {
                lemma_reachable_within(ctx, state, v);
                if done {
                    assert(dominates(top[0], v));
                } else {
                    lemma_reachable_by_first_move(ctx, state, v);
                    let a = choose|a: Action| step_reaches(ctx, state, a, v);
                    if !ctx.settings.allowed_actions.spec_has(a) {
                        crate::state::lemma_not_allowed_is_rejected(
                            state.spec_to_state(),
                            a,
                            Condition::Normal,
                            ctx.settings,
                        );
                        reveal(spec_child);
                    }
                    lemma_step_cases(ctx, state, a, v);
                    assert(actions.contains(a));
                    let j = choose|j: int| 0 <= j < actions.len() && actions[j] == a;
                    assert(step_reaches(ctx, state, actions[j], v));
                }
            }
            assert(is_front_of(ctx, state, top)) by {
                reveal(is_front_of);
            }
        }
        let ghost memo_before = self.solved_states@;
        memo_insert(&mut self.solved_states, state.key(), front);
        proof {
            assert forall|s: ReducedState|
                s.effects.valid() && self.solved_states@.contains_key(
                    #[trigger] s.spec_key(),
                ) implies is_front_of(self.context, s, self.solved_states@[s.spec_key()]@) by {
                if s.spec_key() == state.spec_key() {
                    lemma_key_injective(s, state);
                } else {
                    assert(memo_before.contains_key(s.spec_key()));
                }
            }
        }
    }

    /// An upper bound on the quality that a craft which goes on from
    /// `state` can end with, if it is to fill the progress bar; zero if
    /// the bar cannot be filled. At most twice the recipe's quality.
    pub fn quality_upper_bound(&mut self, state: SimulationState) -> (r: u16)
        requires
            old(self).wf(),
            state.effects.valid(),
        ensures
            final(self).wf(),
            final(self).context() == old(self).context(),
            final(self).stack().len() == 0 || final(self).stack() == old(self).stack(),
            is_bound(final(self).context(), state, r),
            r <= final(self).context().max_second(),
    {
        let ghost ctx = self.context;
        let current_quality = state.get_quality();
        let missing: u16 = if state.progress >= self.context.settings.max_progress as u32 {
            0
        } else {
            (self.context.settings.max_progress as u32 - state.progress) as u16
        };
        let reduced = reduce(&self.context, &state);
        let key = reduced.key();
        if memo_get(&self.solved_states, key).is_none() {
            self.solve_state(reduced);
            let ghost solved = *self;
            self.pareto_front_builder.clear();
            proof {
                assert(self.solved_states == solved.solved_states);
                assert(self.actions == solved.actions);
                assert(self.context == solved.context);
                assert forall|a: Action|
                    self.actions@.contains(a) <==> in_search(a)
                        && self.context.settings.allowed_actions.spec_has(a) by {
                    assert(solved.actions@.contains(a) <==> in_search(a)
                        && solved.context.settings.allowed_actions.spec_has(a));
                }
                assert(self.wf());
            }
        }
        let front = memo_get(&self.solved_states, key).unwrap();
        proof {
            assert(is_front_of(ctx, reduced, front@));
            lemma_front_of_is_front(ctx, reduced, front@);
        }
        let found = first_with_progress(front, missing);
        let max_second = self.pareto_front_builder.max_second();
        let bound = match found {
            Some(best) => {
                let total: u32 = best.second as u32 + current_quality as u32;
                if total >= max_second as u32 {
                    max_second
                } else {
                    total as u16
                }
            },
            None => 0,
        };
        proof {
            lemma_bound_from_front(ctx, state, front@, found, bound);
        }
        bound
    }
}

} // verus!
