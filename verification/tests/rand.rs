use snake::rand::{Rng, SeedSource, FALLBACK_SEED};
use snake::Vec2;

#[test]
fn seeding_from_entropy_is_recorded() {
    let rng = Rng::new(Some(123456789));
    assert_eq!(rng.state, 123456789);
    assert!(matches!(rng.source, SeedSource::Entropy));
}

#[test]
fn missing_entropy_falls_back_to_the_fixed_seed() {
    let rng = Rng::new(None);
    assert_eq!(rng.state, FALLBACK_SEED);
    assert!(matches!(rng.source, SeedSource::Fallback));
}

#[test]
fn the_recurrence_produces_its_exact_values() {
    let mut rng = Rng::new(Some(1));
    assert_eq!(rng.next_raw(), 7806831264735756412);
    assert_eq!(rng.next_raw(), 9396908728118811419);
    assert_eq!(rng.next_raw(), 11960119808228829710);
    assert_eq!(rng.state, 11960119808228829710);
}

#[test]
fn the_sequence_is_deterministic_per_seed() {
    let mut a = Rng::new(Some(77));
    let mut b = Rng::new(Some(77));
    for _ in 0..20 {
        assert_eq!(a.next_raw(), b.next_raw());
    }
    let mut c = Rng::new(Some(78));
    let mut differs = false;
    let mut a2 = Rng::new(Some(77));
    for _ in 0..20 {
        if a2.next_raw() != c.next_raw() {
            differs = true;
        }
    }
    assert!(differs);
}

#[test]
fn range_draws_stay_inside_the_range() {
    let mut rng = Rng::new(Some(31415));
    for _ in 0..200 {
        let v = rng.random_range(3, 17);
        assert!((3..17).contains(&v));
    }
    let mut rng = Rng::new(None);
    for _ in 0..200 {
        let v = rng.random_range(-5, 6);
        assert!((-5..6).contains(&v));
    }
}

#[test]
fn threshold_zero_never_fires_and_full_always_does() {
    let mut rng = Rng::new(Some(2));
    for _ in 0..50 {
        assert!(!rng.random_bool(0, 100));
    }
    for _ in 0..50 {
        assert!(rng.random_bool(100, 100));
    }
}

#[test]
fn free_cells_are_never_taken_from_the_occupied_list() {
    let occupied = vec![
        Vec2 { x: 0, y: 0 },
        Vec2 { x: 1, y: 1 },
        Vec2 { x: 2, y: 0 },
    ];
    let mut rng = Rng::new(Some(99));
    for _ in 0..50 {
        let c = rng.random_block(&occupied, 3, 2).expect("a free cell exists");
        assert!(!occupied.iter().any(|b| b.x == c.x && b.y == c.y));
        assert!((0..3).contains(&c.x) && (0..2).contains(&c.y));
    }
}

#[test]
fn a_single_free_cell_is_always_found() {
    // every cell of the 2 by 2 grid but (1, 0) is occupied
    let occupied = vec![
        Vec2 { x: 0, y: 0 },
        Vec2 { x: 0, y: 1 },
        Vec2 { x: 1, y: 1 },
    ];
    let mut rng = Rng::new(Some(4));
    let c = rng.random_block(&occupied, 2, 2).expect("one cell is free");
    assert_eq!((c.x, c.y), (1, 0));
}

#[test]
fn a_full_grid_yields_nothing() {
    let occupied = vec![
        Vec2 { x: 0, y: 0 },
        Vec2 { x: 1, y: 0 },
        Vec2 { x: 0, y: 1 },
        Vec2 { x: 1, y: 1 },
    ];
    let mut rng = Rng::new(Some(8));
    assert!(rng.random_block(&occupied, 2, 2).is_none());
}
