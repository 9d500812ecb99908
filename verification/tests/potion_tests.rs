use potion_sim::potion::{scale, IdAllocator, Multiplier, Potion, FAIL_POINTS};

fn mult(x: f64) -> Multiplier {
    Multiplier::from_bits(x.to_bits()).unwrap()
}

#[test]
fn new_potion_takes_the_next_three_ids() {
    let mut ids = IdAllocator::new();
    let a = Potion::new("AAA", 0, 30, 0, mult(2.0 / 3.0), 119048, &mut ids);
    let b = Potion::new("MMM", 30, 0, 0, mult(2.0 / 3.0), 119048, &mut ids);
    assert_eq!(a.id_range, vec![0, 1, 2]);
    assert_eq!(b.id_range, vec![3, 4, 5]);
    assert_eq!(ids.next, 6);
}

#[test]
fn new_potion_scales_outputs() {
    let mut ids = IdAllocator::new();
    let a = Potion::new("AAA", 0, 30, 0, mult(2.0 / 3.0), 119048, &mut ids);
    assert_eq!(a.name, "AAA");
    assert_eq!((a.input_mox, a.input_aga, a.input_lye), (0, 30, 0));
    assert_eq!((a.output_mox, a.output_aga, a.output_lye), (0, 20, 0));
    assert_eq!(a.rarity, 119048);
    let mal = Potion::new("MAL", 10, 10, 10, mult(2.0), 71429, &mut ids);
    assert_eq!((mal.output_mox, mal.output_aga, mal.output_lye), (20, 20, 20));
}

#[test]
fn fail_points_go_to_lye_then_aga_then_mox() {
    let mut ids = IdAllocator::new();
    let mal = Potion::new("MAL", 10, 10, 10, mult(2.0), 71429, &mut ids);
    assert_eq!((mal.output_mox_fail, mal.output_aga_fail, mal.output_lye_fail), (0, 0, FAIL_POINTS));
    let aam = Potion::new("AAM", 10, 20, 0, mult(1.0), 95238, &mut ids);
    assert_eq!((aam.output_mox_fail, aam.output_aga_fail, aam.output_lye_fail), (0, 10, 0));
    let mmm = Potion::new("MMM", 30, 0, 0, mult(2.0 / 3.0), 119048, &mut ids);
    assert_eq!((mmm.output_mox_fail, mmm.output_aga_fail, mmm.output_lye_fail), (10, 0, 0));
}

#[test]
fn id_allocator_wraps_like_a_counter() {
    let mut ids = IdAllocator { next: i32::MAX - 2 };
    let p = Potion::new("LLL", 0, 0, 30, mult(2.0 / 3.0), 1, &mut ids);
    assert_eq!(p.id_range, vec![i32::MAX - 2, i32::MAX - 1, i32::MAX]);
    assert_eq!(ids.next, i32::MIN);
}

#[test]
fn scale_rounds_down() {
    assert_eq!(scale(30, mult(2.0 / 3.0)), 20);
    assert_eq!(scale(20, mult(2.0 / 3.0)), 13);
    assert_eq!(scale(7, mult(1.0 / 2.0)), 3);
    assert_eq!(scale(10, mult(3.0 / 2.0)), 15);
    assert_eq!(scale(10_000, mult(100.0)), 1_000_000);
    assert_eq!(scale(0, mult(5.0 / 7.0)), 0);
}

#[test]
fn scale_rounds_toward_zero_and_saturates() {
    assert_eq!(scale(-7, mult(1.0 / 2.0)), -3);
    assert_eq!(scale(7, mult(-0.5)), -3);
    assert_eq!(scale(i32::MAX, mult(2.0)), i32::MAX);
    assert_eq!(scale(i32::MIN, mult(2.0)), i32::MIN);
    assert_eq!(scale(i32::MIN, mult(i32::MIN as f64)), i32::MAX);
}

#[test]
fn new_potion_accepts_any_amounts() {
    let mut ids = IdAllocator::new();
    let p = Potion::new("odd", -5, i32::MAX, 0, mult(3.0 / 2.0), 0, &mut ids);
    assert_eq!((p.output_mox, p.output_aga, p.output_lye), (-7, i32::MAX, 0));
    // No lye, some aga: the fail point goes to aga.
    assert_eq!((p.output_mox_fail, p.output_aga_fail, p.output_lye_fail), (0, 10, 0));
    let q = Potion::new("none", -1, -1, -1, mult(1.0), 0, &mut ids);
    assert_eq!((q.output_mox_fail, q.output_aga_fail, q.output_lye_fail), (10, 0, 0));
}

#[test]
fn scale_is_the_double_product() {
    let factors = [2.0 / 3.0, 0.57, 0.1, 1.1, 1.0 / 7.0, 2.0, 1e-310, 1e300, -0.3, 3.0, 0.0, -0.0, 12345.678];
    for &x in &factors {
        for a in (-20_000..20_000).chain([i32::MIN, i32::MAX, i32::MIN + 1, 1 << 30]) {
            assert_eq!(scale(a, mult(x)), (a as f64 * x) as i32, "{} * {}", a, x);
        }
    }
    assert_eq!(scale(100, mult(0.57)), 56);
}

#[test]
fn from_bits_reads_the_double() {
    let m = Multiplier::from_bits(1.5f64.to_bits()).unwrap();
    assert_eq!((m.mantissa, m.exponent), (3 << 51, -52));
    let m = Multiplier::from_bits((-0.5f64).to_bits()).unwrap();
    assert_eq!((m.mantissa, m.exponent), (-(1 << 52), -53));
    let m = Multiplier::from_bits(5e-324f64.to_bits()).unwrap();
    assert_eq!((m.mantissa, m.exponent), (1, -1074));
    assert!(Multiplier::from_bits(f64::INFINITY.to_bits()).is_none());
    assert!(Multiplier::from_bits(f64::NAN.to_bits()).is_none());
}
