use std::collections::HashMap;

use potion_sim::inventory::{index_by_id, lay_out, leftover_inputs, play_round, position_of, simulate_inventory};
use potion_sim::potion::{IdAllocator, Multiplier, Potion};
use potion_sim::simulation::SimulationError;

fn mult(x: f64) -> Multiplier {
    Multiplier::from_bits(x.to_bits()).unwrap()
}

fn all_potions() -> Vec<Potion> {
    let two_thirds = mult(2.0 / 3.0);
    let one = mult(1.0);
    let two = mult(2.0);
    let mut ids = IdAllocator::new();
    vec![
        Potion::new("AAA", 0, 30, 0, two_thirds, 119048, &mut ids),
        Potion::new("MMM", 30, 0, 0, two_thirds, 119048, &mut ids),
        Potion::new("LLL", 0, 0, 30, two_thirds, 119048, &mut ids),
        Potion::new("AAL", 0, 20, 10, one, 95238, &mut ids),
        Potion::new("AAM", 10, 20, 0, one, 95238, &mut ids),
        Potion::new("MMA", 20, 10, 0, one, 95238, &mut ids),
        Potion::new("MML", 20, 0, 10, one, 95238, &mut ids),
        Potion::new("ALL", 0, 10, 20, one, 95238, &mut ids),
        Potion::new("MLL", 10, 0, 20, one, 95238, &mut ids),
        Potion::new("MAL", 10, 10, 10, two, 71429, &mut ids),
    ]
}

fn by_id(potions: &[Potion]) -> HashMap<i32, Potion> {
    let mut map = HashMap::new();
    for potion in potions {
        for &id in &potion.id_range {
            map.insert(id, potion.clone());
        }
    }
    map
}

const FIRST_NINE_LAYOUT: [i32; 27] = [
    0, 1, 2, 21, 3, 4, 5, 22, 6, 7, 8, 23, 9, 10, 11, 24, 12, 13, 14, 25, 15, 16, 17, 26, 18, 19, 20,
];

#[test]
fn lay_out_fills_the_right_column_with_the_last_two() {
    let potions = all_potions();
    let (inventory, cost) = lay_out(&potions[0..9]);
    assert_eq!(inventory, FIRST_NINE_LAYOUT.to_vec());
    assert_eq!(cost, (270, 270, 270));
}

#[test]
fn lay_out_puts_the_seventh_potion_in_the_bottom_row() {
    let potions = all_potions();
    let subset: Vec<Potion> = vec![
        potions[0].clone(),
        potions[1].clone(),
        potions[2].clone(),
        potions[3].clone(),
        potions[4].clone(),
        potions[5].clone(),
        potions[9].clone(),
        potions[7].clone(),
        potions[8].clone(),
    ];
    let (inventory, cost) = lay_out(&subset);
    assert_eq!(inventory.len(), 27);
    assert_eq!(&inventory[24..27], &[27, 28, 29]);
    assert_eq!(cost, (3 * 80, 3 * 100, 3 * 90));
}

#[test]
fn position_of_finds_the_first_copy() {
    let v = vec![5, 7, 5, 9];
    assert_eq!(position_of(&v, 5), Some(0));
    assert_eq!(position_of(&v, 9), Some(3));
    assert_eq!(position_of(&v, 4), None);
    assert_eq!(position_of(&Vec::new(), 4), None);
}

#[test]
fn play_round_three_sales_earn_the_combo() {
    let potions = all_potions();
    let map = by_id(&potions);
    let mut inventory = FIRST_NINE_LAYOUT.to_vec();
    let points = play_round(&mut inventory, &[0, 3, 6], &map);
    assert_eq!(points, (28, 28, 28));
    let expected: Vec<i32> = FIRST_NINE_LAYOUT.iter().copied().filter(|&id| id != 0 && id != 3 && id != 6).collect();
    assert_eq!(inventory, expected);
}

#[test]
fn play_round_two_sales() {
    let potions = all_potions();
    let map = by_id(&potions);
    let mut inventory = FIRST_NINE_LAYOUT.to_vec();
    // AAL (0, 20, 10), then a missing MAL, then MMA (20, 10, 0): multiplier 1.2.
    let points = play_round(&mut inventory, &[9, 27, 15], &map);
    assert_eq!(points, (24, 36, 12));
    assert_eq!(inventory.len(), 25);
}

#[test]
fn play_round_without_a_sale_throws_the_first_away() {
    let potions = all_potions();
    let map = by_id(&potions);
    let mut inventory = FIRST_NINE_LAYOUT.to_vec();
    let points = play_round(&mut inventory, &[27, 28, 29], &map);
    assert_eq!(points, (0, 10, 0));
    assert_eq!(inventory, FIRST_NINE_LAYOUT[1..].to_vec());
}

#[test]
fn play_round_sells_each_copy_once() {
    let potions = all_potions();
    let map = by_id(&potions);
    let mut inventory = FIRST_NINE_LAYOUT.to_vec();
    let points = play_round(&mut inventory, &[1, 1, 100], &map);
    assert_eq!(points, (0, 20, 0));
    assert_eq!(inventory.len(), 26);
    assert!(!inventory.contains(&1));
}

#[test]
fn play_round_with_the_same_potion_twice() {
    let potions = all_potions();
    let map = by_id(&potions);
    let mut inventory = vec![4, 4, 4, 0];
    // MMM (20, 0, 0) twice: multiplier 1.2 on 40.
    let points = play_round(&mut inventory, &[4, 4, 7], &map);
    assert_eq!(points, (48, 0, 0));
    assert_eq!(inventory, vec![4, 0]);
}

#[test]
fn leftover_inputs_sums_the_ingredients() {
    let potions = all_potions();
    let map = by_id(&potions);
    assert_eq!(leftover_inputs(&vec![9, 10], &map), (0, 40, 20));
    assert_eq!(leftover_inputs(&vec![], &map), (0, 0, 0));
    assert_eq!(leftover_inputs(&vec![27, 3, 18], &map), (60, 10, 20));
}

#[test]
fn simulate_inventory_charges_what_it_used() {
    let potions = all_potions();
    let map = by_id(&potions);
    for _ in 0..200 {
        let (mc, ac, lc, mp, ap, lp) = simulate_inventory(&potions[0..9], &potions, &map).unwrap();
        assert!((0..=270).contains(&mc));
        assert!((0..=270).contains(&ac));
        assert!((0..=270).contains(&lc));
        // Five to seven potions are left, each with 30 ingredients in all.
        let left = 810 - (mc + ac + lc);
        assert!((150..=210).contains(&left));
        assert!(left % 30 == 0);
        assert!(mp >= 0 && ap >= 0 && lp >= 0);
        assert!(mp + ap + lp > 0);
    }
}

#[test]
fn simulate_inventory_reports_a_cost_past_i32() {
    let mut ids = IdAllocator::new();
    let one = mult(1.0);
    let potions: Vec<Potion> = (0..9)
        .map(|_| Potion::new("M", i32::MAX, 0, 0, one, 111_112, &mut ids))
        .collect();
    let map = by_id(&potions);
    assert_eq!(simulate_inventory(&potions, &potions, &map), Err(SimulationError::Overflow));
}

#[test]
fn simulate_inventory_with_negative_amounts() {
    // Potions that lose points when sold.
    let mut ids = IdAllocator::new();
    let loss = mult(-1.0);
    let potions: Vec<Potion> = (0..9)
        .map(|_| Potion::new("L", 0, 0, 10, loss, 111_112, &mut ids))
        .collect();
    let map = by_id(&potions);
    for _ in 0..50 {
        let (mc, ac, lc, mp, ap, lp) = simulate_inventory(&potions, &potions, &map).unwrap();
        assert_eq!((mc, ac), (0, 0));
        assert!((200..=220).contains(&lc));
        assert_eq!((mp, ap), (0, 0));
        assert!(lp % 10 == 0);
    }
}

#[test]
fn play_round_rounds_losses_toward_zero() {
    let mut ids = IdAllocator::new();
    let loss = mult(-1.0);
    let potions = vec![
        Potion::new("A", 0, 7, 0, loss, 1, &mut ids),
        Potion::new("B", 5, 0, 0, mult(1.0), 1, &mut ids),
    ];
    let map = by_id(&potions);
    // B sells first (5, 0, 0); A then sells at 1.2: aga -7 * 1.2 = -8.4 -> -8.
    let mut inventory = vec![0, 3];
    let points = play_round(&mut inventory, &[3, 0, 99], &map);
    assert_eq!(points, (6, -8, 0));
    assert!(inventory.is_empty());
}

#[test]
fn play_round_ignores_names_and_rarities() {
    let potions = all_potions();
    let map = by_id(&potions);
    let renamed: Vec<Potion> = potions
        .iter()
        .map(|p| {
            let mut q = p.clone();
            q.name = String::from("other");
            q.rarity = 7;
            q
        })
        .collect();
    let other = by_id(&renamed);
    let mut a = FIRST_NINE_LAYOUT.to_vec();
    let mut b = FIRST_NINE_LAYOUT.to_vec();
    assert_eq!(play_round(&mut a, &[9, 27, 15], &map), play_round(&mut b, &[9, 27, 15], &other));
    assert_eq!(a, b);
}

fn double_product(points: i64, steps: u32) -> i64 {
    let mut multiplier = 1.0;
    for _ in 0..steps {
        multiplier += 0.2;
    }
    (points as f64 * multiplier) as i32 as i64
}

fn three_sales(mox: i32, aga: i32) -> (i64, i64, i64) {
    let mut p = Potion::new("P", 0, 0, 0, mult(1.0), 1, &mut IdAllocator::new());
    p.output_mox = mox;
    p.output_aga = aga;
    let map = by_id(&[p]);
    let mut inventory = vec![0, 1, 2];
    play_round(&mut inventory, &[0, 1, 2], &map)
}

#[test]
fn play_round_scales_as_double_arithmetic_does() {
    for v in 1..3000 {
        // Three sales of one potion: multiplier 1.0 + 0.2 + 0.2.
        let (m, a, _) = three_sales(1, v);
        assert_eq!(m, double_product(3, 2));
        assert_eq!(a, double_product(3 * v as i64, 2), "three sales of {}", v);
        let (_, a, _) = three_sales(1, -v);
        assert_eq!(a, double_product(-3 * v as i64, 2), "three losses of {}", v);
    }
    assert_eq!(three_sales(1, 15).1, 62);
}

#[test]
fn play_round_two_sales_scale_as_doubles() {
    for v in 1..3000 {
        let mut p = Potion::new("P", 0, 0, 0, mult(1.0), 1, &mut IdAllocator::new());
        p.output_mox = v;
        let map = by_id(&[p]);
        let mut inventory = vec![0, 1, 2];
        let (m, _, _) = play_round(&mut inventory, &[0, 1, 99], &map);
        assert_eq!(m, double_product(2 * v as i64, 1), "two sales of {}", v);
    }
}

#[test]
fn index_by_id_maps_each_id_to_its_owner() {
    let potions = all_potions();
    let map = index_by_id(&potions);
    assert_eq!(map.len(), 30);
    for (k, p) in potions.iter().enumerate() {
        for &id in &p.id_range {
            assert_eq!(id as usize / 3, k);
            let q = &map[&id];
            assert_eq!(q.name, p.name);
            assert_eq!(q.id_range, p.id_range);
            assert_eq!((q.input_mox, q.output_aga, q.output_lye_fail, q.rarity), (p.input_mox, p.output_aga, p.output_lye_fail, p.rarity));
        }
    }
}

#[test]
fn index_by_id_keeps_the_last_owner_of_a_shared_id() {
    let potions = all_potions();
    let mut later = potions[4].clone();
    later.name = String::from("later");
    let list = vec![potions[4].clone(), later];
    let map = index_by_id(&list);
    assert_eq!(map.len(), 3);
    assert_eq!(map[&12].name, "later");
}
