use raphael::actions::Action;
use raphael::backtracking::Backtracking;
use raphael::backtracking::SENTINEL;
use raphael::mask::ActionMask;
use raphael::score::Score;
use raphael::settings::Settings;
use std::cmp::Ordering;

fn settings() -> Settings {
    Settings {
        max_cp: 100,
        max_durability: 40,
        max_progress: 100,
        max_quality: 1000,
        base_progress: 100,
        base_quality: 100,
        job_level: 90,
        allowed_actions: ActionMask::from_level(90, true),
        adversarial: false,
    }
}

#[test]
fn arena_reads_paths_root_first() {
    let mut arena: Backtracking<Action> = Backtracking::new();
    assert_eq!(arena.len(), 0);
    assert_eq!(SENTINEL, u32::MAX);
    let a = arena.push(Action::MuscleMemory, SENTINEL);
    let b = arena.push(Action::Veneration, a);
    let c = arena.push(Action::Groundwork, b);
    let d = arena.push(Action::Innovation, a);
    let e = arena.push(Action::Reflect, SENTINEL);
    assert_eq!((a, b, c, d, e), (0, 1, 2, 3, 4));
    assert_eq!(arena.len(), 5);
    assert_eq!(arena.get(SENTINEL), vec![]);
    assert_eq!(arena.get(a), vec![Action::MuscleMemory]);
    assert_eq!(
        arena.get(c),
        vec![Action::MuscleMemory, Action::Veneration, Action::Groundwork]
    );
    assert_eq!(arena.get(d), vec![Action::MuscleMemory, Action::Innovation]);
    assert_eq!(arena.get(e), vec![Action::Reflect]);
    assert_eq!(arena.entry(c), (Action::Groundwork, b));
    assert!(arena.has_room());
}

#[test]
fn arena_keeps_earlier_paths_when_it_grows() {
    let mut arena: Backtracking<u32> = Backtracking::new();
    let mut last = SENTINEL;
    for i in 0..100u32 {
        last = arena.push(i, last);
    }
    let path = arena.get(49);
    assert_eq!(path, (0..50).collect::<Vec<u32>>());
    assert_eq!(arena.get(last).len(), 100);
}

#[test]
fn score_splits_quality_at_the_maximum() {
    let s = Score::new(700, 20, 8, &settings());
    assert_eq!(s, Score { quality: 700, duration: 20, steps: 8, quality_overflow: 0 });
    let s = Score::new(1000, 20, 8, &settings());
    assert_eq!(s, Score { quality: 1000, duration: 20, steps: 8, quality_overflow: 0 });
    let s = Score::new(1234, 20, 8, &settings());
    assert_eq!(s, Score { quality: 1000, duration: 20, steps: 8, quality_overflow: 234 });
}

#[test]
fn score_order_prefers_quality_then_short_macros() {
    let base = Score { quality: 500, duration: 20, steps: 8, quality_overflow: 3 };
    assert_eq!(base.cmp(&base), Ordering::Equal);
    assert_eq!(Score { quality: 501, ..base }.cmp(&base), Ordering::Greater);
    assert_eq!(Score { quality: 499, duration: 1, ..base }.cmp(&base), Ordering::Less);
    assert_eq!(Score { duration: 19, ..base }.cmp(&base), Ordering::Greater);
    assert_eq!(Score { duration: 21, steps: 1, ..base }.cmp(&base), Ordering::Less);
    assert_eq!(Score { steps: 7, ..base }.cmp(&base), Ordering::Greater);
    assert_eq!(Score { steps: 9, quality_overflow: 9, ..base }.cmp(&base), Ordering::Less);
    assert_eq!(Score { quality_overflow: 4, ..base }.cmp(&base), Ordering::Greater);
    assert_eq!(Score { quality_overflow: 2, ..base }.cmp(&base), Ordering::Less);
    assert!(Score { quality: 501, ..base } > base);
    assert!(Score { duration: 21, ..base } < base);
    assert_eq!(base.partial_cmp(&base), Some(Ordering::Equal));
    assert!(Score { steps: 7, ..base }.is_better_than(&base));
    assert!(!base.is_better_than(&base));
}

#[test]
fn score_order_is_a_total_order_on_samples() {
    let mut samples = Vec::new();
    for quality in [0u16, 1, 500] {
        for duration in [0u8, 3, 255] {
            for steps in [0u8, 9] {
                for quality_overflow in [0u16, 7] {
                    samples.push(Score { quality, duration, steps, quality_overflow });
                }
            }
        }
    }
    for a in samples.iter() {
        assert_eq!(a.cmp(a), Ordering::Equal);
        for b in samples.iter() {
            assert_eq!(a.cmp(b), b.cmp(a).reverse());
            if a.cmp(b) == Ordering::Equal {
                assert_eq!(a, b);
            }
            for c in samples.iter() {
                if a.cmp(b) != Ordering::Greater && b.cmp(c) != Ordering::Greater {
                    assert!(a.cmp(c) != Ordering::Greater);
                }
            }
        }
    }
}

#[test]
fn radix_similarity_counts_the_common_high_bits() {
    let zero = Score { quality: 0, duration: 0, steps: 0, quality_overflow: 0 };
    assert_eq!(Score::radix_bits(), 48);
    assert_eq!(zero.radix_similarity(&zero), 48);
    assert_eq!(Score { quality: 0x8000, ..zero }.radix_similarity(&zero), 0);
    assert_eq!(Score { quality: 1, ..zero }.radix_similarity(&zero), 15);
    assert_eq!(Score { quality: 0x0100, ..zero }.radix_similarity(&zero), 7);
    assert_eq!(Score { duration: 0x80, ..zero }.radix_similarity(&zero), 16);
    assert_eq!(Score { duration: 1, ..zero }.radix_similarity(&zero), 23);
    assert_eq!(Score { steps: 0x80, ..zero }.radix_similarity(&zero), 24);
    assert_eq!(Score { steps: 3, ..zero }.radix_similarity(&zero), 30);
    assert_eq!(Score { quality_overflow: 0x8000, ..zero }.radix_similarity(&zero), 32);
    assert_eq!(Score { quality_overflow: 1, ..zero }.radix_similarity(&zero), 47);
    // the first field that differs decides
    assert_eq!(
        Score { quality: 5, duration: 9, steps: 1, quality_overflow: 2 }
            .radix_similarity(&Score { quality: 4, duration: 0, steps: 0, quality_overflow: 0 }),
        15
    );
    let a = Score { quality: 0x1234, duration: 0x56, steps: 0x78, quality_overflow: 0x9abc };
    let b = Score { quality: 0x1234, duration: 0x56, steps: 0x79, quality_overflow: 0 };
    let pack = |s: &Score| {
        ((s.quality as u64) << 32)
            | ((s.duration as u64) << 24)
            | ((s.steps as u64) << 16)
            | s.quality_overflow as u64
    };
    let xor = pack(&a) ^ pack(&b);
    assert_eq!(a.radix_similarity(&b), xor.leading_zeros() - 16);
}

#[test]
fn similarity_of_the_outer_two_of_three_ascending_scores() {
    let mut samples = Vec::new();
    for quality in [0u16, 1, 2, 500, 0x8000] {
        for duration in [0u8, 3, 4, 255] {
            for steps in [0u8, 9] {
                for quality_overflow in [0u16, 7, 8] {
                    samples.push(Score { quality, duration, steps, quality_overflow });
                }
            }
        }
    }
    samples.sort_by(|a, b| a.cmp(b));
    for (i, a) in samples.iter().enumerate() {
        for (j, b) in samples.iter().enumerate().skip(i) {
            for c in samples.iter().skip(j) {
                assert_eq!(
                    a.radix_similarity(c),
                    a.radix_similarity(b).min(b.radix_similarity(c))
                );
            }
        }
    }
}
