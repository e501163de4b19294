use raphael::actions::Action;
use raphael::actions::Combo;
use raphael::backtracking::Backtracking;
use raphael::backtracking::SENTINEL;
use raphael::effects::Effects;
use raphael::macro_solver::duration;
use raphael::macro_solver::MacroSolver;
use raphael::macro_solver::SearchStatus;
use raphael::mask::ActionMask;
use raphael::search_queue::pareto_key;
use raphael::search_queue::SearchNode;
use raphael::search_queue::SearchQueue;
use raphael::search_queue::SearchTrace;
use raphael::settings::Settings;
use raphael::state::Condition;
use raphael::state::SimulationState;

fn small_settings() -> Settings {
    Settings {
        max_cp: 60,
        max_durability: 40,
        max_progress: 300,
        max_quality: 300,
        base_progress: 100,
        base_quality: 100,
        job_level: 30,
        allowed_actions: ActionMask::from_level(30, false),
        adversarial: false,
    }
}

fn node(cp: i16, progress: u32, quality: u16) -> SearchNode {
    SearchNode {
        state: SimulationState {
            cp,
            durability: 40,
            progress,
            unreliable_quality: [quality, quality],
            effects: Effects::new(),
            combo: Combo::NoCombo,
        },
        trace: None,
    }
}

fn drain(queue: &mut SearchQueue) -> Vec<(i16, u32, u16)> {
    let mut out = Vec::new();
    while let Some(n) = queue.pop() {
        out.push((n.state.cp, n.state.progress, n.state.get_quality()));
    }
    out
}

#[test]
fn trace_reads_back_in_the_order_of_the_moves() {
    let mut arena: Backtracking<Action> = Backtracking::new();
    let root = SearchTrace { parent: SENTINEL, action: Action::Reflect };
    assert_eq!(root.actions(&arena), vec![Action::Reflect]);
    let a = arena.push(Action::Reflect, SENTINEL);
    let b = arena.push(Action::Innovation, a);
    let trace = SearchTrace { parent: b, action: Action::BasicTouch };
    assert_eq!(
        trace.actions(&arena),
        vec![Action::Reflect, Action::Innovation, Action::BasicTouch]
    );
    let mut collected = vec![Action::Observe];
    trace.do_trace(&arena, &mut collected);
    assert_eq!(
        collected,
        vec![
            Action::Observe,
            Action::BasicTouch,
            Action::Innovation,
            Action::Reflect
        ]
    );
}

#[test]
fn empty_queue_hands_out_nothing() {
    let mut queue = SearchQueue::new(small_settings());
    assert_eq!(queue.buckets_left(), 61);
    assert!(!queue.is_drained());
    assert!(queue.pop().is_none());
    assert!(queue.is_drained());
    assert_eq!(queue.buckets_left(), 0);
    assert!(!queue.pop_bucket());
}

#[test]
fn queue_serves_the_most_crafting_points_first() {
    let mut queue = SearchQueue::new(small_settings());
    queue.push(node(5, 70, 0));
    queue.push(node(60, 0, 0));
    queue.push(node(31, 50, 0));
    assert_eq!(drain(&mut queue), vec![(60, 0, 0), (31, 50, 0), (5, 70, 0)]);
}

#[test]
fn queue_keeps_what_nothing_dominates() {
    let mut queue = SearchQueue::new(small_settings());
    queue.push(node(20, 10, 5));
    queue.push(node(20, 20, 6));
    queue.push(node(20, 5, 9));
    queue.push(node(20, 20, 6));
    queue.push(node(20, 1, 1));
    let mut served = drain(&mut queue);
    served.sort();
    assert_eq!(served, vec![(20, 5, 9), (20, 20, 6)]);
}

#[test]
fn queue_compares_within_a_class_only() {
    let mut queue = SearchQueue::new(small_settings());
    let strong = node(20, 20, 6);
    let mut other = node(20, 10, 5);
    other.state.durability = 30;
    assert!(pareto_key(&strong.state) != pareto_key(&other.state));
    queue.push(strong);
    queue.push(other);
    assert_eq!(drain(&mut queue).len(), 2);
}

#[test]
fn queue_drops_what_was_seen_with_more_crafting_points() {
    let mut queue = SearchQueue::new(small_settings());
    queue.push(node(30, 20, 6));
    queue.push(node(10, 10, 5));
    queue.push(node(10, 30, 0));
    assert_eq!(drain(&mut queue), vec![(30, 20, 6), (10, 30, 0)]);
}

#[test]
fn queue_lets_a_late_node_through_at_once() {
    let mut queue = SearchQueue::new(small_settings());
    queue.push(node(30, 20, 6));
    assert_eq!(queue.pop().map(|n| n.state.cp), Some(30));
    assert_eq!(queue.buckets_left(), 30);
    // the amount of 30 has been served: what comes now is let through at
    // once, unless a value seen in its class dominates it
    queue.push(node(30, 25, 5));
    queue.push(node(45, 1, 1));
    queue.push(node(30, 20, 5));
    queue.push(node(-1, 10, 99));
    assert_eq!(queue.buckets_left(), 30);
    let mut served = Vec::new();
    for _ in 0..2 {
        let n = queue.pop().unwrap();
        served.push((n.state.cp, n.state.progress));
    }
    assert_eq!(served, vec![(-1, 10), (30, 25)]);
    assert_eq!(queue.buckets_left(), 30);
    assert!(queue.pop().is_none());
    assert!(queue.is_drained());
}

#[test]
fn late_node_takes_the_place_of_ready_nodes_that_it_dominates() {
    let mut settings = small_settings();
    settings.max_cp = 0;
    let mut queue = SearchQueue::new(settings);
    assert!(queue.pop().is_none());
    assert_eq!(queue.buckets_left(), 0);
    let mut other = node(7, 1, 1);
    other.state.durability = 30;
    queue.push(node(5, 10, 10));
    queue.push(other);
    queue.push(node(5, 3, 30));
    // better in both than the first, not than the third, and of another
    // class than the second
    queue.push(node(9, 20, 20));
    let served = drain(&mut queue);
    assert_eq!(served, vec![(9, 20, 20), (5, 3, 30), (7, 1, 1)]);
    // what was dropped does not come back
    queue.push(node(5, 10, 10));
    assert!(queue.pop().is_none());
}

#[test]
fn late_nodes_come_out_without_one_that_an_earlier_dominates() {
    let mut queue = SearchQueue::new(small_settings());
    queue.push(node(60, 0, 0));
    assert_eq!(queue.pop().map(|n| n.state.cp), Some(60));
    let mut seed: u32 = 7;
    let mut served: Vec<(i8, u32, u16)> = Vec::new();
    let mut pushed: Vec<(i8, u32, u16)> = Vec::new();
    for round in 0..300 {
        seed = seed.wrapping_mul(1103515245).wrapping_add(12345);
        let progress = 1 + (seed >> 16) % 40;
        seed = seed.wrapping_mul(1103515245).wrapping_add(12345);
        let quality = 1 + ((seed >> 16) % 40) as u16;
        // every node is late: its amount lies above those still to serve
        let mut n = node(60 + (round % 5) as i16, progress, quality);
        n.state.durability = if seed & 1 == 0 { 40 } else { 30 };
        pushed.push((n.state.durability, progress, quality));
        queue.push(n);
        if round % 3 == 0 {
            if let Some(out) = queue.pop() {
                served.push((out.state.durability, out.state.progress, out.state.get_quality()));
            }
        }
    }
    while let Some(out) = queue.pop() {
        served.push((out.state.durability, out.state.progress, out.state.get_quality()));
    }
    for (i, later) in served.iter().enumerate() {
        for earlier in served[..i].iter() {
            assert!(!(earlier.0 == later.0 && earlier.1 >= later.1 && earlier.2 >= later.2));
        }
    }
    for p in pushed.iter() {
        assert!(served.iter().any(|s| s.0 == p.0 && s.1 >= p.1 && s.2 >= p.2));
    }
}

#[test]
fn queue_hands_each_node_out_once_and_in_falling_order() {
    let mut queue = SearchQueue::new(small_settings());
    let mut pushed = Vec::new();
    let mut seed: u32 = 99;
    for _ in 0..400 {
        seed = seed.wrapping_mul(1103515245).wrapping_add(12345);
        let cp = ((seed >> 16) % 61) as i16;
        seed = seed.wrapping_mul(1103515245).wrapping_add(12345);
        let progress = (seed >> 16) % 50;
        seed = seed.wrapping_mul(1103515245).wrapping_add(12345);
        let quality = ((seed >> 16) % 50) as u16;
        let mut n = node(cp, progress, quality);
        n.state.durability = if seed & 1 == 0 { 40 } else { 30 };
        pushed.push((cp, n.state.durability, progress, quality));
        queue.push(n);
    }
    let mut served: Vec<(i16, i8, u32, u16)> = Vec::new();
    while let Some(n) = queue.pop() {
        served.push((n.state.cp, n.state.durability, n.state.progress, n.state.get_quality()));
    }
    assert!(queue.pop().is_none());
    for pair in served.windows(2) {
        assert!(pair[0].0 >= pair[1].0);
    }
    for (i, later) in served.iter().enumerate() {
        for earlier in served[..i].iter() {
            // nothing comes out that an earlier node of its class dominates
            assert!(!(earlier.1 == later.1 && earlier.2 >= later.2 && earlier.3 >= later.3));
        }
    }
    for p in pushed.iter() {
        // what was pushed came out, or a node of its class at least as good did
        assert!(served
            .iter()
            .any(|s| s.1 == p.1 && s.0 >= p.0 && s.2 >= p.2 && s.3 >= p.3));
    }
}

fn best_by_exhaustion(settings: &Settings, state: SimulationState, depth: u32, best: &mut Option<u16>) {
    if depth == 0 {
        return;
    }
    for action in settings.allowed_actions.actions_iter() {
        if let Ok(child) = state.use_action(action, Condition::Normal, settings) {
            if child.is_final(settings) {
                if child.progress >= settings.max_progress as u32 {
                    let quality = child.get_quality();
                    if best.map_or(true, |b| quality > b) {
                        *best = Some(quality);
                    }
                }
            } else {
                best_by_exhaustion(settings, child, depth - 1, best);
            }
        }
    }
}

#[test]
fn solver_finds_the_best_quality_of_a_small_craft() {
    let settings = small_settings();
    let initial = SimulationState::new(&settings);
    let mut solver = MacroSolver::new(settings, initial);
    assert!(!solver.has_solution());
    assert!(solver.run(u64::MAX));
    assert!(solver.is_finished());
    assert!(solver.has_solution());
    let actions = solver.best_actions().clone();
    let end = SimulationState::from_macro(&settings, &actions).unwrap();
    assert!(end.progress >= settings.max_progress as u32);
    let mut best = None;
    best_by_exhaustion(&settings, initial, 7, &mut best);
    assert_eq!(Some(end.get_quality()), best);
    assert_eq!(end.get_quality(), 237);
    assert_eq!(solver.progress(), (61, 61));
}

#[test]
fn solver_reports_each_improvement() {
    let settings = small_settings();
    let mut solver = MacroSolver::new(settings, SimulationState::new(&settings));
    let mut qualities = Vec::new();
    loop {
        match solver.step() {
            SearchStatus::Finished => break,
            SearchStatus::Improved => {
                let end =
                    SimulationState::from_macro(&settings, solver.best_actions()).unwrap();
                assert!(end.progress >= settings.max_progress as u32);
                qualities.push((end.get_quality(), duration(solver.best_actions())));
            }
            SearchStatus::Working => {}
        }
    }
    assert!(!qualities.is_empty());
    for pair in qualities.windows(2) {
        assert!(pair[0].0 < pair[1].0 || (pair[0].0 == pair[1].0 && pair[0].1 >= pair[1].1));
    }
    assert_eq!(solver.step(), SearchStatus::Finished);
}

#[test]
fn solver_finds_nothing_where_the_bar_cannot_be_filled() {
    let mut settings = small_settings();
    settings.max_progress = 5000;
    let mut solver = MacroSolver::new(settings, SimulationState::new(&settings));
    assert!(solver.run(u64::MAX));
    assert!(!solver.has_solution());
    assert!(solver.best_actions().is_empty());
}

#[test]
fn solver_goes_on_from_a_given_state() {
    let settings = small_settings();
    let start =
        SimulationState::from_macro(&settings, &[Action::BasicTouch, Action::Veneration]).unwrap();
    let mut solver = MacroSolver::new(settings, start);
    assert!(solver.run(u64::MAX));
    assert!(solver.has_solution());
    let mut state = start;
    for action in solver.best_actions().iter() {
        state = state.use_action(*action, Condition::Normal, &settings).unwrap();
    }
    assert!(state.progress >= 300);
    assert!(state.get_quality() >= 100);
}

#[test]
fn run_makes_every_step_that_it_is_allowed() {
    let settings = small_settings();
    let mut by_steps = MacroSolver::new(settings, SimulationState::new(&settings));
    let mut by_run = MacroSolver::new(settings, SimulationState::new(&settings));
    for _ in 0..25 {
        by_steps.step();
    }
    assert_eq!(by_run.run(25), by_steps.is_finished());
    assert_eq!(by_run.best_actions(), by_steps.best_actions());
    assert_eq!(by_run.progress(), by_steps.progress());
    assert_eq!(by_run.is_finished(), by_steps.is_finished());
    // one more step on each leaves them alike again
    assert_eq!(by_run.step(), by_steps.step());
    assert_eq!(by_run.best_actions(), by_steps.best_actions());
}

#[test]
fn solver_stops_when_its_steps_are_used_up() {
    let settings = small_settings();
    let mut solver = MacroSolver::new(settings, SimulationState::new(&settings));
    assert!(!solver.run(1));
    assert!(!solver.is_finished());
    assert!(solver.run(u64::MAX));
}

#[test]
fn duration_adds_the_waits() {
    assert_eq!(duration(&vec![]), 0);
    assert_eq!(
        duration(&vec![Action::Veneration, Action::BasicSynthesis, Action::Innovation]),
        7
    );
    assert_eq!(duration(&vec![Action::BasicSynthesis; 100]), 255);
}
