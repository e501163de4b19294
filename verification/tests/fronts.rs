use raphael::pareto_front_builder::merge_fronts;
use raphael::pareto_front_builder::shift_clamp;
use raphael::pareto_front_builder::ParetoFrontBuilder;
use raphael::pareto_front_builder::ParetoValue;

fn front(points: &[(u16, u16)]) -> Vec<ParetoValue> {
    points.iter().map(|p| ParetoValue::new(p.0, p.1)).collect()
}

fn assert_antichain(values: &[ParetoValue]) {
    for (i, a) in values.iter().enumerate() {
        for (j, b) in values.iter().enumerate() {
            if i != j {
                assert!(!a.dominate(b), "{:?} dominates {:?}", a, b);
            }
        }
    }
    for pair in values.windows(2) {
        assert!(pair[0].first < pair[1].first);
        assert!(pair[0].second > pair[1].second);
    }
}

#[test]
fn dominance_is_at_least_in_both() {
    let a = ParetoValue::new(3, 5);
    assert!(a.dominate(&ParetoValue::new(3, 5)));
    assert!(a.dominate(&ParetoValue::new(2, 5)));
    assert!(!a.dominate(&ParetoValue::new(4, 1)));
    assert!(!a.dominate(&ParetoValue::new(1, 6)));
}

#[test]
fn merge_keeps_the_maximal_points_sorted() {
    let mut builder = ParetoFrontBuilder::new(100, 100);
    builder.push(&front(&[(1, 10), (3, 5)]));
    builder.push(&front(&[(2, 7), (3, 6), (5, 1)]));
    builder.merge();
    assert_eq!(builder.len(), 1);
    let top = builder.peek().unwrap();
    assert_eq!(top, front(&[(1, 10), (2, 7), (3, 6), (5, 1)]));
    assert_antichain(&top);
}

#[test]
fn merge_with_an_empty_front_changes_nothing() {
    let mut builder = ParetoFrontBuilder::new(100, 100);
    builder.push_empty();
    builder.push(&front(&[(2, 7), (5, 1)]));
    builder.merge();
    assert_eq!(builder.peek().unwrap(), front(&[(2, 7), (5, 1)]));
    builder.push_empty();
    builder.merge();
    assert_eq!(builder.peek().unwrap(), front(&[(2, 7), (5, 1)]));
}

#[test]
fn merge_holds_points_at_the_caps() {
    let mut builder = ParetoFrontBuilder::new(10, 20);
    builder.push(&front(&[(4, 50), (12, 30), (15, 2)]));
    builder.push_empty();
    builder.merge();
    assert_eq!(builder.peek().unwrap(), front(&[(10, 20)]));
    assert!(builder.is_max());
}

#[test]
fn merge_of_many_fronts_is_an_antichain() {
    let mut builder = ParetoFrontBuilder::new(1000, 1000);
    builder.push_empty();
    let mut seed: u32 = 7;
    for _ in 0..50 {
        let mut points = Vec::new();
        let mut first: u16 = 0;
        let mut second: u16 = 1000;
        for _ in 0..10 {
            seed = seed.wrapping_mul(1103515245).wrapping_add(12345);
            first += 1 + ((seed >> 16) % 40) as u16;
            seed = seed.wrapping_mul(1103515245).wrapping_add(12345);
            second -= 1 + ((seed >> 16) % 40) as u16;
            points.push(ParetoValue::new(first, second));
        }
        builder.push(&points);
        builder.merge();
        let top = builder.peek().unwrap();
        assert_antichain(&top);
        for p in points.iter() {
            assert!(top.iter().any(|t| t.dominate(p)));
        }
    }
}

#[test]
fn map_moves_and_holds_at_the_caps() {
    let mut builder = ParetoFrontBuilder::new(10, 20);
    builder.push(&front(&[(5, 9), (8, 7), (9, 3)]));
    builder.map(3, 0);
    assert_eq!(builder.peek().unwrap(), front(&[(8, 9), (10, 7)]));
    builder.clear();
    builder.push(&front(&[(1, 15), (2, 12), (3, 5)]));
    builder.map(0, 10);
    assert_eq!(builder.peek().unwrap(), front(&[(2, 20), (3, 15)]));
    builder.clear();
    builder.push(&front(&[(1, 15), (2, 12), (3, 5)]));
    builder.map(2, 1);
    assert_eq!(builder.peek().unwrap(), front(&[(3, 16), (4, 13), (5, 6)]));
    builder.map(70000, 70000);
    assert_eq!(builder.peek().unwrap(), front(&[(10, 20)]));
}

#[test]
fn push_shifted_is_push_and_map() {
    let values = front(&[(5, 9), (8, 7), (9, 3)]);
    let mut a = ParetoFrontBuilder::new(10, 20);
    a.push(&values);
    a.map(1, 12);
    let mut b = ParetoFrontBuilder::new(10, 20);
    b.push_shifted(&values, 1, 12);
    assert_eq!(a.peek().unwrap(), b.peek().unwrap());
    assert_eq!(b.peek().unwrap(), front(&[(6, 20), (9, 19), (10, 15)]));
}

#[test]
fn peek_and_clear() {
    let mut builder = ParetoFrontBuilder::new(10, 20);
    assert_eq!(builder.peek(), None);
    assert!(!builder.is_max());
    builder.push_empty();
    assert_eq!(builder.peek().unwrap(), front(&[]));
    assert!(!builder.is_max());
    builder.push(&front(&[(10, 20)]));
    assert!(builder.is_max());
    builder.push(&front(&[(10, 19)]));
    assert!(!builder.is_max());
    builder.push(&front(&[(9, 20), (10, 19)]));
    assert!(!builder.is_max());
    assert_eq!(builder.len(), 4);
    builder.clear();
    assert_eq!(builder.len(), 0);
    assert_eq!(builder.peek(), None);
    assert_eq!(builder.max_first(), 10);
    assert_eq!(builder.max_second(), 20);
}

#[test]
fn free_functions_on_fronts() {
    let a = front(&[(1, 9), (4, 4)]);
    let b = front(&[(1, 8), (2, 6), (4, 5), (7, 0)]);
    assert_eq!(
        merge_fronts(&a, &b, Vec::new()),
        front(&[(1, 9), (2, 6), (4, 5), (7, 0)])
    );
    assert_eq!(shift_clamp(&b, 1, 1, 5, 8, Vec::new()), front(&[(2, 8), (3, 7), (5, 6)]));
}
