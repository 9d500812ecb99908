use potion_sim::order::{get_order, select_order};
use potion_sim::potion::{IdAllocator, Multiplier, Potion};

fn mult(x: f64) -> Multiplier {
    Multiplier::from_bits(x.to_bits()).unwrap()
}

fn all_potions() -> Vec<Potion> {
    let two_thirds = mult(2.0 / 3.0);
    let one = mult(1.0);
    let two = mult(2.0);
    let mut ids = IdAllocator::new();
    vec![
        Potion::new("AAA", 0, 30, 0, two_thirds, 119048, &mut ids),
        Potion::new("MMM", 30, 0, 0, two_thirds, 119048, &mut ids),
        Potion::new("LLL", 0, 0, 30, two_thirds, 119048, &mut ids),
        Potion::new("AAL", 0, 20, 10, one, 95238, &mut ids),
        Potion::new("AAM", 10, 20, 0, one, 95238, &mut ids),
        Potion::new("MMA", 20, 10, 0, one, 95238, &mut ids),
        Potion::new("MML", 20, 0, 10, one, 95238, &mut ids),
        Potion::new("ALL", 0, 10, 20, one, 95238, &mut ids),
        Potion::new("MLL", 10, 0, 20, one, 95238, &mut ids),
        Potion::new("MAL", 10, 10, 10, two, 71429, &mut ids),
    ]
}

#[test]
fn select_order_splits_each_stretch_in_thirds() {
    let potions = all_potions();
    assert_eq!(select_order(&potions, 0), 0);
    assert_eq!(select_order(&potions, 119047), 0);
    assert_eq!(select_order(&potions, 119048), 1);
    assert_eq!(select_order(&potions, 238095), 1);
    assert_eq!(select_order(&potions, 238096), 2);
    assert_eq!(select_order(&potions, 357143), 2);
    assert_eq!(select_order(&potions, 357144), 3);
}

#[test]
fn select_order_reaches_the_last_potion() {
    let potions = all_potions();
    let start = 3 * (1_000_001 - 71429);
    assert_eq!(select_order(&potions, start - 1), 26);
    assert_eq!(select_order(&potions, start), 27);
    assert_eq!(select_order(&potions, start + 71429), 28);
    assert_eq!(select_order(&potions, start + 2 * 71429), 29);
    assert_eq!(select_order(&potions, 3 * 1_000_001 - 1), 29);
}

#[test]
fn select_order_skips_potions_that_are_never_ordered() {
    let mut ids = IdAllocator::new();
    let one = mult(1.0);
    let potions = vec![
        Potion::new("never", 10, 0, 0, one, 0, &mut ids),
        Potion::new("always", 0, 10, 0, one, 5, &mut ids),
    ];
    assert_eq!(select_order(&potions, 0), 3);
    assert_eq!(select_order(&potions, 5), 4);
    assert_eq!(select_order(&potions, 14), 5);
}

#[test]
fn get_order_gives_a_potion_id() {
    let potions = all_potions();
    let mut seen = std::collections::HashSet::new();
    for _ in 0..1000 {
        let id = get_order(&potions);
        assert!((0..30).contains(&id));
        seen.insert(id);
    }
    // The draws are spread over the potions, not stuck on one of them.
    assert!(seen.len() >= 10);
}

#[test]
fn select_order_reads_ids_only_of_ordered_potions() {
    let mut ids = IdAllocator::new();
    let one = mult(1.0);
    let mut never = Potion::new("never", 10, 0, 0, one, 0, &mut ids);
    never.id_range = vec![];
    let mut many = Potion::new("many", 0, 10, 0, one, 2, &mut ids);
    many.id_range = vec![7, 8, 9, 10];
    let potions = vec![never, many];
    assert_eq!(select_order(&potions, 0), 7);
    assert_eq!(select_order(&potions, 3), 8);
    assert_eq!(select_order(&potions, 5), 9);
}
