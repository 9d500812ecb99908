use std::collections::HashMap;

use potion_sim::potion::{IdAllocator, Multiplier, Potion};
use potion_sim::simulation::{efficiency_terms, simulate_potion_order, LayoutRun, SimulationError};

fn mult(x: f64) -> Multiplier {
    Multiplier::from_bits(x.to_bits()).unwrap()
}

fn all_potions() -> Vec<Potion> {
    let two_thirds = mult(2.0 / 3.0);
    let one = mult(1.0);
    let two = mult(2.0);
    let mut ids = IdAllocator::new();
    vec![
        Potion::new("AAA", 0, 30, 0, two_thirds, 119048, &mut ids),
        Potion::new("MMM", 30, 0, 0, two_thirds, 119048, &mut ids),
        Potion::new("LLL", 0, 0, 30, two_thirds, 119048, &mut ids),
        Potion::new("AAL", 0, 20, 10, one, 95238, &mut ids),
        Potion::new("AAM", 10, 20, 0, one, 95238, &mut ids),
        Potion::new("MMA", 20, 10, 0, one, 95238, &mut ids),
        Potion::new("MML", 20, 0, 10, one, 95238, &mut ids),
        Potion::new("ALL", 0, 10, 20, one, 95238, &mut ids),
        Potion::new("MLL", 10, 0, 20, one, 95238, &mut ids),
        Potion::new("MAL", 10, 10, 10, two, 71429, &mut ids),
    ]
}

fn by_id(potions: &[Potion]) -> HashMap<i32, Potion> {
    let mut map = HashMap::new();
    for potion in potions {
        for &id in &potion.id_range {
            map.insert(id, potion.clone());
        }
    }
    map
}

#[test]
fn simulate_potion_order_passes_the_targets() {
    let potions = all_potions();
    let map = by_id(&potions);
    let run = simulate_potion_order(&potions[0..9], &potions, &map, 3052, 2627, 3525).unwrap();
    assert!(run.mox_points > 3052 && run.aga_points > 2627 && run.lye_points > 3525);
    assert!(run.num_inventories >= 1);
    assert!(run.mox_cost >= 0 && run.aga_cost >= 0 && run.lye_cost >= 0);
    assert!(run.mox_cost <= 270 * run.num_inventories);
}

#[test]
fn simulate_potion_order_with_passed_targets_plays_nothing() {
    let potions = all_potions();
    let map = by_id(&potions);
    let run = simulate_potion_order(&potions[0..9], &potions, &map, -1, -1, -1).unwrap();
    assert_eq!(
        run,
        LayoutRun {
            mox_cost: 0,
            aga_cost: 0,
            lye_cost: 0,
            mox_points: 0,
            aga_points: 0,
            lye_points: 0,
            num_inventories: 0
        }
    );
}

#[test]
fn simulate_potion_order_one_inventory_for_zero_targets() {
    let potions = all_potions();
    let map = by_id(&potions);
    // Zero targets still need points of all three resources; the run ends
    // as soon as each has some.
    let run = simulate_potion_order(&potions[0..9], &potions, &map, 0, 0, 0).unwrap();
    assert!(run.num_inventories >= 1);
    assert!(run.mox_points > 0 && run.aga_points > 0 && run.lye_points > 0);
}

#[test]
fn simulate_potion_order_reports_overflow() {
    // Potions that sell for nothing: only thrown-away potions earn points,
    // a few per inventory, while each inventory costs 200_000 or more of
    // mox; the mox cost leaves i32 long before the mox target is passed.
    let zero = mult(0.0);
    let mut ids = IdAllocator::new();
    let potions: Vec<Potion> = (0..9)
        .map(|_| Potion::new("M", 10_000, 0, 0, zero, 111_112, &mut ids))
        .collect();
    let map = by_id(&potions);
    let r = simulate_potion_order(&potions, &potions, &map, i32::MAX, 0, 0);
    assert_eq!(r, Err(SimulationError::Overflow));
}

#[test]
fn efficiency_terms_adds_the_inventory_bonus() {
    let run = LayoutRun {
        mox_cost: 100,
        aga_cost: 200,
        lye_cost: 300,
        mox_points: 10,
        aga_points: 20,
        lye_points: 30,
        num_inventories: 4,
    };
    assert_eq!(efficiency_terms(&run), (300, 600));
}

#[test]
fn simulate_potion_order_passed_targets_need_no_layout() {
    let run = simulate_potion_order(&[], &[], &HashMap::new(), -1, -5, i32::MIN).unwrap();
    assert_eq!(run.num_inventories, 0);
    assert_eq!(efficiency_terms(&run), (0, 0));
}
