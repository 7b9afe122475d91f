use ascent::{Game, GameError};

// Construction

#[test]
fn new_rejects_unsatisfiable_bounds() {
    assert_eq!(Game::new(5, 1, 3).err(), Some(GameError::UnsatisfiableBounds));
    assert_eq!(Game::new(1, 5, 3).err(), Some(GameError::UnsatisfiableBounds));
}

#[test]
fn new_accepts_tight_bounds() {
    assert!(Game::new(3, 1, 3).is_ok());
    assert!(Game::new(1, 7, 7).is_ok());
}

#[test]
fn new_initial_state() {
    let g = Game::new(3, 1, 9).unwrap();
    assert_eq!(g.slot_count(), 3);
    assert_eq!(g.num_filled(), 0);
    assert_eq!(g.num_available(), 3);
    let next = g.next().unwrap();
    assert!((1..=9).contains(&next));
    for i in 0..3 {
        let s = g.slot(i);
        assert!(s.enabled);
        assert!(s.value.is_none());
    }
}

#[test]
fn new_zero_slots() {
    let g = Game::new(0, 5, 5).unwrap();
    assert_eq!(g.num_filled(), 0);
    assert_eq!(g.num_available(), 0);
    assert_eq!(g.next(), None);
}

#[test]
fn from_pool_rejects_duplicates() {
    assert_eq!(
        Game::from_pool(vec![3, 1, 4, 1], 1, 9).err(),
        Some(GameError::InvalidPool)
    );
}

#[test]
fn from_pool_rejects_out_of_bounds() {
    assert_eq!(
        Game::from_pool(vec![3, 12], 1, 9).err(),
        Some(GameError::InvalidPool)
    );
    assert_eq!(
        Game::from_pool(vec![3], 5, 4).err(),
        Some(GameError::InvalidPool)
    );
}

// The concrete three-slot scenario: pool drawn tail-first as 5, 8, 2.

#[test]
fn scenario_three_slots() {
    let mut g = Game::from_pool(vec![2, 8, 5], 1, 9).unwrap();

    // Draw 5: no slot filled yet, every slot is legal.
    assert_eq!(g.next(), Some(5));
    assert_eq!(g.num_available(), 3);
    assert!(g.step(1).is_ok());
    assert_eq!(g.num_filled(), 1);
    assert_eq!(g.slot(1).value, Some(5));

    // Draw 8: slot 0 would need a value below 5, so only slot 2 is legal.
    assert_eq!(g.next(), Some(8));
    assert!(!g.slot(0).enabled);
    assert!(!g.slot(1).enabled);
    assert!(g.slot(2).enabled);
    assert_eq!(g.num_available(), 1);
    assert!(g.step(2).is_ok());
    assert_eq!(g.num_filled(), 2);

    // Draw 2: only slot 0 is legal.
    assert_eq!(g.next(), Some(2));
    assert!(g.slot(0).enabled);
    assert_eq!(g.num_available(), 1);
    assert!(g.step(0).is_ok());

    // Complete: slots read 2, 5, 8 and nothing is left to place.
    assert_eq!(g.num_filled(), 3);
    assert_eq!(g.num_available(), 0);
    assert_eq!(g.next(), None);
    assert_eq!(g.slot(0).value, Some(2));
    assert_eq!(g.slot(1).value, Some(5));
    assert_eq!(g.slot(2).value, Some(8));
}

// Placement errors leave the game unchanged.

#[test]
fn step_invalid_slot() {
    let mut g = Game::from_pool(vec![2, 8, 5], 1, 9).unwrap();
    assert_eq!(g.step(3), Err(GameError::InvalidSlot));
    assert_eq!(g.step(99), Err(GameError::InvalidSlot));
    assert_eq!(g.num_filled(), 0);
    assert_eq!(g.next(), Some(5));
}

#[test]
fn step_not_enabled_leaves_state() {
    let mut g = Game::from_pool(vec![2, 8, 5], 1, 9).unwrap();
    assert!(g.step(1).is_ok());
    // Next value is 8; slot 0 would break the ascending order.
    assert_eq!(g.step(0), Err(GameError::NotEnabled));
    assert_eq!(g.num_filled(), 1);
    assert_eq!(g.num_available(), 1);
    assert_eq!(g.next(), Some(8));
    assert_eq!(g.slot(0).value, None);
}

// The filled values stay strictly ascending after every single step.

#[test]
fn ascending_after_every_step() {
    let mut g = Game::from_pool(vec![7, 1, 9, 4], 1, 9).unwrap();
    let count = 4;
    for _ in 0..count {
        match g.hint() {
            Some(idx) => assert!(g.step(idx).is_ok()),
            None => break,
        }
        let filled: Vec<u32> = (0..count).filter_map(|i| g.slot(i).value).collect();
        for w in filled.windows(2) {
            assert!(w[0] < w[1]);
        }
    }
}

// Dead end at the window edge: two filled neighbours bracket the next value
// with no empty slot between them (the window edges collide), so nothing is
// enabled and the game is stuck short of completion.

#[test]
fn boundary_collision_is_dead_end() {
    let mut g = Game::from_pool(vec![5, 9, 2], 1, 9).unwrap();
    assert!(g.step(0).is_ok()); // 2 at slot 0
    assert!(g.step(1).is_ok()); // 9 at slot 1
    // Next is 5, which must sit above 2 and below 9, but slots 0 and 1 are
    // adjacent: the window is empty, slot 2 included.
    assert_eq!(g.next(), Some(5));
    assert!(!g.slot(2).enabled);
    assert_eq!(g.num_available(), 0);
    assert!(g.num_filled() < 3);
    assert_eq!(g.hint(), None);

    // From a dead end, a hint-guided turn is a no-op.
    g.tick();
    assert_eq!(g.num_filled(), 2);
    assert_eq!(g.next(), Some(5));
    assert_eq!(g.num_available(), 0);
}

// The same bracket one slot apart leaves exactly that slot enabled.

#[test]
fn boundary_single_gap_is_enabled() {
    let mut g = Game::from_pool(vec![5, 9, 2], 1, 9).unwrap();
    assert!(g.step(0).is_ok()); // 2 at slot 0
    assert!(g.step(2).is_ok()); // 9 at slot 2
    assert_eq!(g.next(), Some(5));
    assert!(!g.slot(0).enabled);
    assert!(g.slot(1).enabled);
    assert!(!g.slot(2).enabled);
    assert_eq!(g.num_available(), 1);
    assert_eq!(g.hint(), Some(1));
    assert!(g.step(1).is_ok());
    assert_eq!(g.num_filled(), 3);
}

// The hint lands on an enabled, empty slot, in the bucket of the next value.

#[test]
fn hint_exact_bucket() {
    // Three empty slots over [1, 9]: buckets are 1..=3, 4..=6, 7..=9 and the
    // next value 5 falls in the middle one.
    let g = Game::from_pool(vec![2, 8, 5], 1, 9).unwrap();
    assert_eq!(g.hint(), Some(1));

    // Next value 9 over [1, 9] falls in the last bucket.
    let g2 = Game::from_pool(vec![2, 8, 9], 1, 9).unwrap();
    assert_eq!(g2.hint(), Some(2));

    // Next value 1 falls in the first bucket.
    let g3 = Game::from_pool(vec![2, 8, 1], 1, 9).unwrap();
    assert_eq!(g3.hint(), Some(0));
}

#[test]
fn hint_is_enabled_and_empty() {
    let mut g = Game::new(5, 1, 20).unwrap();
    while g.num_available() > 0 {
        let idx = g.hint().unwrap();
        let s = g.slot(idx);
        assert!(s.enabled);
        assert!(s.value.is_none());
        g.tick();
    }
    assert_eq!(g.hint(), None);
}

// Repeated hint-guided turns always reach completion or a dead end.

#[test]
fn tick_runs_to_terminal() {
    for _ in 0..20 {
        let mut g = Game::new(4, 1, 8).unwrap();
        let mut turns = 0;
        while g.num_available() > 0 {
            let before = g.num_filled();
            g.tick();
            assert_eq!(g.num_filled(), before + 1);
            turns += 1;
            assert!(turns <= 4);
        }
        let done = g.num_filled() == 4;
        let exhausted = g.next().is_none();
        assert_eq!(done, exhausted);
    }
}

#[test]
fn autoplay_reaches_terminal_state() {
    for _ in 0..20 {
        let mut g = Game::new(5, 1, 10).unwrap();
        g.autoplay();
        assert_eq!(g.num_available(), 0);
        let done = g.num_filled() == 5;
        let exhausted = g.next().is_none();
        assert_eq!(done, exhausted);
    }
}

// A full-range pool holds every value exactly once.

#[test]
fn pool_draws_are_distinct() {
    let mut g = Game::new(10, 1, 10).unwrap();
    let mut seen = Vec::new();
    while let Some(v) = g.next() {
        assert!((1..=10).contains(&v));
        assert!(!seen.contains(&v));
        seen.push(v);
        match g.hint() {
            Some(idx) => assert!(g.step(idx).is_ok()),
            None => break,
        }
    }
    if g.num_filled() == 10 {
        assert_eq!(seen.len(), 10);
        assert_eq!(g.next(), None);
    }
}

// Rendering: empty string while unset, the decimal value once set.

#[test]
fn render_empty_and_single_digit() {
    let mut g = Game::from_pool(vec![5], 1, 9).unwrap();
    assert_eq!(g.slot(0).render(), "");
    assert!(g.step(0).is_ok());
    assert_eq!(g.slot(0).render(), "5");
}

#[test]
fn render_multi_digit() {
    let mut g = Game::from_pool(vec![123], 1, 200).unwrap();
    assert!(g.step(0).is_ok());
    assert_eq!(g.slot(0).render(), "123");

    let mut g2 = Game::from_pool(vec![10], 1, 200).unwrap();
    assert!(g2.step(0).is_ok());
    assert_eq!(g2.slot(0).render(), "10");
}
