use std::collections::HashMap;
use vstd::prelude::*;
use crate::potion::{trunc_div, Potion, RARITY_UNIT};
use crate::order::{drawable, get_order, orderable, total_rarity};
use crate::simulation::SimulationError;
use vstd::arithmetic::power2::{lemma_pow2_strictly_increases, lemma_pow2_unfold, pow2};

verus! {

broadcast use vstd::std_specs::hash::group_hash_axioms;

/// Orders that customers place in one round.
pub const ORDERS_PER_ROUND: usize = 3;

/// The order multiplier, in tenths, before any order of a round is filled.
pub const BASE_MULTIPLIER: i32 = 10;

/// What each further filled order of a round adds to the multiplier, in tenths.
pub const MULTIPLIER_STEP: i32 = 2;

/// A triple of amounts (mox, aga, lye).
pub type Amounts = (int, int, int);

pub open spec fn add3(a: Amounts, b: Amounts) -> Amounts {
    (a.0 + b.0, a.1 + b.1, a.2 + b.2)
}

pub open spec fn sub3(a: Amounts, b: Amounts) -> Amounts {
    (a.0 - b.0, a.1 - b.1, a.2 - b.2)
}

/// `x` multiplied by `tenths / 10`, rounded toward zero.
pub open spec fn scale_tenths(x: int, tenths: int) -> int {
    trunc_div(x * tenths, 10)
}

/// Some power of two lies in `lo ..= hi`.
pub open spec fn power_of_two_between(lo: int, hi: int) -> bool {
    exists|e: nat| lo <= #[trigger] pow2(e) <= hi
}

/// The magnitude of `x`.
pub open spec fn magnitude(x: int) -> int {
    if x < 0 {
        -x
    } else {
        x
    }
}

/// The multiplier of a round is added up in double precision: 1.0, then
/// 0.2 per step. After two steps it is the double just below 1.4 (by
/// 0.4 * 2^-52), and the product of a point count `x = ±5j` with it, once
/// rounded to a double, falls short of `±7j` by one unit exactly when no
/// power of two lies in `4j ..= 7j`. Every other product that a round
/// forms (point counts of magnitude at most `3 * 2^31`, at 1.0, 1.2 or 1.4)
/// truncates to the product in tenths.
pub open spec fn double_falls_short(x: int, tenths: int) -> bool {
    &&& tenths == BASE_MULTIPLIER + 2 * MULTIPLIER_STEP
    &&& x != 0
    &&& x % 5 == 0
    &&& !power_of_two_between(4 * (magnitude(x) / 5), 7 * (magnitude(x) / 5))
}

/// `x` multiplied by the round multiplier `tenths / 10` as the double
/// product truncated toward zero (see `double_falls_short`).
pub open spec fn round_scale(x: int, tenths: int) -> int {
    if double_falls_short(x, tenths) {
        if x > 0 {
            scale_tenths(x, tenths) - 1
        } else {
            scale_tenths(x, tenths) + 1
        }
    } else {
        scale_tenths(x, tenths)
    }
}

/// Each amount of `a` multiplied by the round multiplier `tenths / 10`
/// (see `round_scale`).
pub open spec fn scale3(a: Amounts, tenths: int) -> Amounts {
    (round_scale(a.0, tenths), round_scale(a.1, tenths), round_scale(a.2, tenths))
}

/// The amounts of `a` lie within `bound` of zero.
pub open spec fn within(a: Amounts, bound: int) -> bool {
    -bound <= a.0 <= bound && -bound <= a.1 <= bound && -bound <= a.2 <= bound
}

/// Every amount of the pair fits in an `i32`.
pub open spec fn all_fit(t: (Amounts, Amounts)) -> bool {
    &&& i32::MIN <= t.0.0 <= i32::MAX
    &&& i32::MIN <= t.0.1 <= i32::MAX
    &&& i32::MIN <= t.0.2 <= i32::MAX
    &&& i32::MIN <= t.1.0 <= i32::MAX
    &&& i32::MIN <= t.1.1 <= i32::MAX
    &&& i32::MIN <= t.1.2 <= i32::MAX
}

/// Every id of `inv` is a key of `by_id`.
pub open spec fn ids_known(inv: Seq<i32>, by_id: Map<i32, Potion>) -> bool {
    forall|k: int| 0 <= k < inv.len() ==> by_id.contains_key(#[trigger] inv[k])
}

/// The state of a round while its orders are filled one by one: what is
/// left of the inventory, whether some order was filled, the points of the
/// filled orders, and the multiplier in tenths.
pub struct FillState {
    pub inv: Seq<i32>,
    pub filled: bool,
    pub points: Amounts,
    pub multiplier: int,
}

/// Fills one order from the state `st`: if the ordered id is in the
/// inventory, its first copy is sold, its points are added, and the
/// multiplier goes up by one step when earlier orders of the round earned
/// points; otherwise nothing changes.
pub open spec fn fill_order(st: FillState, order: i32, by_id: Map<i32, Potion>) -> FillState {
    match st.inv.index_of_first(order) {
        Some(idx) => FillState {
            inv: st.inv.remove(idx),
            filled: true,
            points: add3(st.points, by_id[order].outputs()),
            multiplier: if st.points.0 > 0 || st.points.1 > 0 || st.points.2 > 0 {
                st.multiplier + MULTIPLIER_STEP
            } else {
                st.multiplier
            },
        },
        None => st,
    }
}

/// The state after filling `orders` in turn, from the inventory `inv`.
pub open spec fn fill_orders(inv: Seq<i32>, orders: Seq<i32>, by_id: Map<i32, Potion>) -> FillState
    decreases orders.len(),
{
    if orders.len() == 0 {
        FillState { inv, filled: false, points: (0, 0, 0), multiplier: BASE_MULTIPLIER as int }
    } else {
        fill_order(fill_orders(inv, orders.drop_last(), by_id), orders.last(), by_id)
    }
}

/// One round played on the inventory `inv` with the orders `orders`: the
/// orders are filled in turn; when none could be filled, the first potion
/// of the inventory is thrown away for its fail points. The points of the
/// round are those of its orders times its multiplier, as the double
/// product truncated toward zero (see `round_scale`). Gives the inventory
/// after the round and the points earned.
pub open spec fn round_outcome(inv: Seq<i32>, orders: Seq<i32>, by_id: Map<i32, Potion>) -> (Seq<i32>, Amounts) {
    let st = fill_orders(inv, orders, by_id);
    if st.filled {
        (st.inv, scale3(st.points, st.multiplier))
    } else {
        (st.inv.remove(0), scale3(by_id[st.inv[0]].fail_outputs(), st.multiplier))
    }
}

/// Two potions have the same name, amounts, rarity and ids.
pub open spec fn same_potion(a: Potion, b: Potion) -> bool {
    &&& a.name == b.name
    &&& a.inputs() == b.inputs()
    &&& a.outputs() == b.outputs()
    &&& a.fail_outputs() == b.fail_outputs()
    &&& a.rarity == b.rarity
    &&& a.id_range@ == b.id_range@
}

/// The index of the last potion of the list whose ids hold `id`, or -1.
pub open spec fn last_owner(potions: Seq<Potion>, id: i32) -> int
    decreases potions.len(),
{
    if potions.len() == 0 {
        -1
    } else if potions.last().id_range@.contains(id) {
        potions.len() - 1
    } else {
        last_owner(potions.drop_last(), id)
    }
}

/// The index of the last owner lies in the list.
pub proof fn lemma_last_owner(potions: Seq<Potion>, id: i32)
    ensures
        -1 <= last_owner(potions, id) < potions.len(),
        last_owner(potions, id) >= 0 ==> potions[last_owner(potions, id)].id_range@.contains(id),
    decreases potions.len(),
{
    if potions.len() > 0 && !potions.last().id_range@.contains(id) {
        lemma_last_owner(potions.drop_last(), id);
    }
}

/// A copy of `p`, field by field.
pub fn copy_potion(p: &Potion) -> (c: Potion)
    ensures
        same_potion(c, *p),
{
    let mut ids: Vec<i32> = Vec::new();
    let mut j: usize = 0;
    while j < p.id_range.len()
        invariant
            j <= p.id_range@.len(),
            ids@ == p.id_range@.take(j as int),
        decreases p.id_range@.len() - j,
    {
        ids.push(p.id_range[j]);
        j = j + 1;
        assert(ids@ =~= p.id_range@.take(j as int));
    }
    assert(p.id_range@.take(j as int) =~= p.id_range@);
    Potion {
        name: p.name.clone(),
        input_mox: p.input_mox,
        input_aga: p.input_aga,
        input_lye: p.input_lye,
        output_mox: p.output_mox,
        output_aga: p.output_aga,
        output_lye: p.output_lye,
        output_mox_fail: p.output_mox_fail,
        output_aga_fail: p.output_aga_fail,
        output_lye_fail: p.output_lye_fail,
        rarity: p.rarity,
        id_range: ids,
    }
}

/// The map from each id of the listed potions to (a copy of) the potion
/// that holds it; where several hold an id, the last of them.
pub fn index_by_id(potions: &[Potion]) -> (m: HashMap<i32, Potion>)
    ensures
        forall|id: i32| #[trigger] m@.contains_key(id) <==> last_owner(potions@, id) >= 0,
        forall|id: i32| #[trigger] m@.contains_key(id) ==> same_potion(m@[id], potions@[last_owner(potions@, id)]),
{
    let mut m: HashMap<i32, Potion> = HashMap::new();
    let mut k: usize = 0;
    assert(potions@.take(0) =~= Seq::<Potion>::empty());
    while k < potions.len()
        invariant
            k <= potions@.len(),
            forall|id: i32| #[trigger] m@.contains_key(id) <==> last_owner(potions@.take(k as int), id) >= 0,
            forall|id: i32| #[trigger] m@.contains_key(id) ==> same_potion(m@[id], potions@[last_owner(potions@.take(k as int), id)]),
        decreases potions@.len() - k,
    {
        let potion = &potions[k];
        let ghost before = potions@.take(k as int);
        let ghost after = potions@.take(k + 1);
        assert(after.drop_last() =~= before);
        assert(after.last() == *potion);
        proof {
            assert forall|id: i32| #[trigger] last_owner(before, id) >= 0 implies last_owner(before, id) < k
                && potions@[last_owner(before, id)] == before[last_owner(before, id)] by {
                lemma_last_owner(before, id);
            }
        }
        let mut j: usize = 0;
        while j < potion.id_range.len()
            invariant
                j <= potion.id_range@.len(),
                *potion == potions@[k as int],
                before == potions@.take(k as int),
                k < potions@.len(),
                forall|id: i32| #[trigger] last_owner(before, id) >= 0 ==> last_owner(before, id) < k
                    && potions@[last_owner(before, id)] == before[last_owner(before, id)],
                forall|id: i32| #[trigger] m@.contains_key(id) <==> (last_owner(before, id) >= 0
                    || potion.id_range@.take(j as int).contains(id)),
                forall|id: i32| #[trigger] m@.contains_key(id) ==> same_potion(m@[id],
                    if potion.id_range@.take(j as int).contains(id) { *potion } else { potions@[last_owner(before, id)] }),
            decreases potion.id_range@.len() - j,
        {
            let id = potion.id_range[j];
            let c = copy_potion(potion);
            let ghost old_m = m@;
            let ghost seen = potion.id_range@.take(j as int);
            m.insert(id, c);
            assert(m@ == old_m.insert(id, c));
            let ghost seen2 = potion.id_range@.take(j + 1);
            assert(seen2 =~= seen.push(id));
            assert forall|x: i32| seen2.contains(x) <==> (seen.contains(x) || x == id) by {
                if seen2.contains(x) {
                    let t = choose|t: int| 0 <= t < seen2.len() && seen2[t] == x;
                    if t < seen.len() {
                        assert(seen[t] == x);
                    }
                }
                if seen.contains(x) {
                    let t = choose|t: int| 0 <= t < seen.len() && seen[t] == x;
                    assert(seen2[t] == x);
                }
                if x == id {
                    assert(seen2[j as int] == x);
                }
            }
            j = j + 1;
        }
        assert(potion.id_range@.take(j as int) =~= potion.id_range@);
        assert forall|id: i32| #[trigger] m@.contains_key(id) <==> last_owner(potions@.take(k + 1), id) >= 0 by {
            assert(potions@.take(k + 1) == after);
        }
        assert forall|id: i32| #[trigger] m@.contains_key(id) implies same_potion(m@[id], potions@[last_owner(potions@.take(k + 1), id)]) by {
            assert(potions@.take(k + 1) == after);
        }
        k = k + 1;
    }
    assert(potions@.take(k as int) =~= potions@);
    m
}

/// The first index at which `x` stands in `v`, if any.
pub fn position_of(v: &Vec<i32>, x: i32) -> (r: Option<usize>)
    ensures
        r matches Some(i) ==> v@.index_of_first(x) == Some(i as int),
        r is None ==> v@.index_of_first(x) is None,
{
    proof {
        v@.index_of_first_ensures(x);
    }
    let mut i: usize = 0;
    while i < v.len()
        invariant
            i <= v@.len(),
            forall|j: int| 0 <= j < i ==> v@[j] != x,
        decreases v@.len() - i,
    {
        if v[i] == x {
            proof {
                v@.index_of_first_ensures(x);
            }
            assert(v@.contains(x));
            let ghost k = v@.index_of_first(x).unwrap();
            assert(k == i) by {
                if k < i {
                    assert(v@[k] != x);
                }
                if k > i {
                    assert(v@[i as int] != x);
                }
            }
            return Some(i);
        }
        i = i + 1;
    }
    assert(!v@.contains(x));
    None
}

/// The potion that `by_id` holds for `id`.
fn lookup(by_id: &HashMap<i32, Potion>, id: i32) -> (p: &Potion)
    requires
        by_id@.contains_key(id),
    ensures
        *p == by_id@[id],
{
    let r = by_id.get(&id);
    r.unwrap()
}


/// The elements of `small` all occur in `big`, as often at least.
pub open spec fn sub_bag(small: Seq<i32>, big: Seq<i32>) -> bool {
    small.to_multiset().subset_of(big.to_multiset())
}

/// Every id of a sub-bag of a known inventory is known.
pub proof fn lemma_sub_bag_known(small: Seq<i32>, big: Seq<i32>, by_id: Map<i32, Potion>)
    requires
        sub_bag(small, big),
        ids_known(big, by_id),
    ensures
        ids_known(small, by_id),
{
    broadcast use vstd::seq_lib::group_to_multiset_ensures;

    assert forall|k: int| 0 <= k < small.len() implies by_id.contains_key(#[trigger] small[k]) by {
        let x = small[k];
        assert(small.contains(x));
        assert(small.to_multiset().count(x) > 0);
        assert(big.to_multiset().count(x) > 0);
        assert(big.contains(x));
        let j = choose|j: int| 0 <= j < big.len() && big[j] == x;
        assert(by_id.contains_key(big[j]));
    }
}

/// Every element of a sub-bag is an element of the bag.
pub proof fn lemma_sub_bag_contains(small: Seq<i32>, big: Seq<i32>, x: i32)
    requires
        sub_bag(small, big),
        small.contains(x),
    ensures
        big.contains(x),
{
    broadcast use vstd::seq_lib::group_to_multiset_ensures;

    assert(small.to_multiset().count(x) > 0);
    assert(big.to_multiset().count(x) > 0);
}

/// Removing one element leaves a sub-bag, one shorter.
pub proof fn lemma_remove_sub_bag(s: Seq<i32>, i: int)
    requires
        0 <= i < s.len(),
    ensures
        sub_bag(s.remove(i), s),
        s.remove(i).len() == s.len() - 1,
{
    broadcast use vstd::seq_lib::group_to_multiset_ensures;
    broadcast use vstd::multiset::group_multiset_axioms;

    assert(s.remove(i).to_multiset() == s.to_multiset().remove(s[i]));
}

/// Sub-bags compose.
pub proof fn lemma_sub_bag_trans(a: Seq<i32>, b: Seq<i32>, c: Seq<i32>)
    requires
        sub_bag(a, b),
        sub_bag(b, c),
    ensures
        sub_bag(a, c),
{
}

/// What filling a list of orders does to the inventory, the points and the
/// multiplier: it sells potions of the inventory only, at most one per
/// order, each adding an `i32` worth of points per resource and at most one
/// step to the multiplier; when it sells none, nothing changes.
pub proof fn lemma_fill_orders(inv: Seq<i32>, orders: Seq<i32>, by_id: Map<i32, Potion>)
    requires
        ids_known(inv, by_id),
    ensures
        ({
            let st = fill_orders(inv, orders, by_id);
            let sold = inv.len() - st.inv.len();
            &&& sub_bag(st.inv, inv)
            &&& 0 <= sold <= orders.len()
            &&& st.filled <==> sold > 0
            &&& !st.filled ==> st.inv == inv && st.points == (0int, 0int, 0int)
                && st.multiplier == BASE_MULTIPLIER
            &&& within(st.points, sold * 0x8000_0000int)
            &&& BASE_MULTIPLIER <= st.multiplier <= BASE_MULTIPLIER + MULTIPLIER_STEP * sold
        }),
    decreases orders.len(),
{
    broadcast use vstd::seq_lib::group_to_multiset_ensures;
    broadcast use vstd::multiset::group_multiset_axioms;

    if orders.len() == 0 {
        assert(sub_bag(inv, inv));
    } else {
        let rest = orders.drop_last();
        lemma_fill_orders(inv, rest, by_id);
        let prev = fill_orders(inv, rest, by_id);
        let order = orders.last();
        lemma_sub_bag_known(prev.inv, inv, by_id);
        prev.inv.index_of_first_ensures(order);
        match prev.inv.index_of_first(order) {
            Some(idx) => {
                lemma_remove_sub_bag(prev.inv, idx);
                lemma_sub_bag_trans(prev.inv.remove(idx), prev.inv, inv);
            },
            None => {},
        }
    }
}

/// The points a round earns from `x` at the multiplier `m`: at most
/// `5 * 2^31` either way.
pub proof fn lemma_scale_bound(x: int, m: int)
    requires
        -3 * 0x8000_0000int <= x <= 3 * 0x8000_0000int,
        BASE_MULTIPLIER <= m <= BASE_MULTIPLIER + 3 * MULTIPLIER_STEP,
    ensures
        -5 * 0x8000_0000int <= scale_tenths(x, m) <= 5 * 0x8000_0000int,
        -5 * 0x8000_0000int <= round_scale(x, m) <= 5 * 0x8000_0000int,
        x >= 0 ==> 0 <= round_scale(x, m) <= scale_tenths(x, m),
{
    if x > 0 {
        assert(x * m / 10 >= 1) by (nonlinear_arith)
            requires
                x >= 1,
                m >= 10,
        ;
    }
    if x >= 0 {
        assert(0 <= x * m / 10 <= 5 * 0x8000_0000int) by (nonlinear_arith)
            requires
                0 <= x <= 3 * 0x8000_0000int,
                10 <= m <= 16,
        ;
    } else {
        assert(0 <= (-(x * m)) / 10 <= 5 * 0x8000_0000int) by (nonlinear_arith)
            requires
                -3 * 0x8000_0000int <= x < 0,
                10 <= m <= 16,
        ;
    }
}

/// A round sells or throws away at least one potion and at most one per
/// order, takes nothing into the inventory, and earns at most `5 * 2^31`
/// points of each resource either way.
pub proof fn law_round_bounds(inv: Seq<i32>, orders: Seq<i32>, by_id: Map<i32, Potion>)
    requires
        inv.len() > 0,
        orders.len() == ORDERS_PER_ROUND,
        ids_known(inv, by_id),
    ensures
        ({
            let (after, pts) = round_outcome(inv, orders, by_id);
            &&& sub_bag(after, inv)
            &&& inv.len() - ORDERS_PER_ROUND <= after.len() <= inv.len() - 1
            &&& within(pts, 5 * 0x8000_0000int)
        }),
{
    lemma_fill_orders(inv, orders, by_id);
    let st = fill_orders(inv, orders, by_id);
    if st.filled {
        lemma_scale_bound(st.points.0, st.multiplier);
        lemma_scale_bound(st.points.1, st.multiplier);
        lemma_scale_bound(st.points.2, st.multiplier);
    } else {
        lemma_remove_sub_bag(inv, 0);
        let f = by_id[inv[0]].fail_outputs();
        lemma_scale_bound(f.0, st.multiplier);
        lemma_scale_bound(f.1, st.multiplier);
        lemma_scale_bound(f.2, st.multiplier);
    }
}

/// Whether a power of two lies in `lo ..= hi`.
fn has_power_of_two_between(lo: u64, hi: u64) -> (r: bool)
    requires
        1 <= lo <= hi <= 0x1_0000_0000_0000,
    ensures
        r == power_of_two_between(lo as int, hi as int),
{
    let mut p: u64 = 1;
    let ghost mut e: nat = 0;
    assert(pow2(0) == 1) by {
        vstd::arithmetic::power2::lemma2_to64();
    }
    while p <= hi / 2
        invariant
            1 <= p <= hi <= 0x1_0000_0000_0000,
            p == pow2(e),
        decreases hi - p,
    {
        proof {
            lemma_pow2_unfold(e + 1);
        }
        p = p * 2;
        proof {
            e = e + 1;
        }
    }
    if p >= lo {
        assert(lo <= pow2(e) <= hi);
        true
    } else {
        assert forall|f: nat| lo <= #[trigger] pow2(f) <= hi implies false by {
            lemma_pow2_unfold(e + 1);
            if f > e + 1 {
                lemma_pow2_strictly_increases(e + 1, f);
            } else if f < e {
                lemma_pow2_strictly_increases(f, e);
            }
        }
        false
    }
}

/// `x` multiplied by the round multiplier `m / 10` (see `round_scale`).
fn scale_by_tenths(x: i64, m: i64) -> (r: i64)
    requires
        -3 * 0x8000_0000int <= x <= 3 * 0x8000_0000int,
        BASE_MULTIPLIER <= m <= BASE_MULTIPLIER + 3 * MULTIPLIER_STEP,
    ensures
        r == round_scale(x as int, m as int),
{
    proof {
        lemma_scale_bound(x as int, m as int);
    }
    assert(-48 * 0x8000_0000int <= x * m <= 48 * 0x8000_0000int) by (nonlinear_arith)
        requires
            -3 * 0x8000_0000int <= x <= 3 * 0x8000_0000int,
            10 <= m <= 16,
    ;
    let p: i64 = x * m;
    let t: i64 = if p >= 0 {
        p / 10
    } else {
        -((-p) / 10)
    };
    let a: i64 = if x < 0 {
        -x
    } else {
        x
    };
    assert(a as int == magnitude(x as int));
    let tenths_14: i64 = (BASE_MULTIPLIER + 2 * MULTIPLIER_STEP) as i64;
    if m == tenths_14 && a != 0 && a % 5 == 0 {
        let j: u64 = (a / 5) as u64;
        assert((x as int) % 5 == 0) by {
            if x < 0 {
                assert(x == -a);
            }
        }
        if !has_power_of_two_between(4 * j, 7 * j) {
            if x > 0 {
                return t - 1;
            } else {
                return t + 1;
            }
        }
    } else {
        assert(!double_falls_short(x as int, m as int)) by {
            if m == tenths_14 && a != 0 {
                assert((x as int) % 5 != 0) by {
                    if x < 0 {
                        assert(x == -a);
                    }
                }
            }
        }
    }
    t
}

/// Plays one round on `inventory` with the three `orders` (see
/// `round_outcome`) and returns the points it earned, per resource.
pub fn play_round(inventory: &mut Vec<i32>, orders: &[i32], by_id: &HashMap<i32, Potion>) -> (pts: (i64, i64, i64))
    requires
        old(inventory)@.len() > 0,
        orders@.len() == ORDERS_PER_ROUND,
        ids_known(old(inventory)@, by_id@),
    ensures
        round_outcome(old(inventory)@, orders@, by_id@) == (final(inventory)@, (pts.0 as int, pts.1 as int, pts.2 as int)),
{
    let ghost inv0 = inventory@;
    let mut order_failed = true;
    let mut order_multiplier: i64 = BASE_MULTIPLIER as i64;
    let mut order_mox_points: i64 = 0;
    let mut order_aga_points: i64 = 0;
    let mut order_lye_points: i64 = 0;
    let mut k: usize = 0;
    assert(orders@.take(0) =~= Seq::<i32>::empty());
    while k < orders.len()
        invariant
            k <= orders@.len() == ORDERS_PER_ROUND,
            ids_known(inv0, by_id@),
            fill_orders(inv0, orders@.take(k as int), by_id@) == (FillState {
                inv: inventory@,
                filled: !order_failed,
                points: (order_mox_points as int, order_aga_points as int, order_lye_points as int),
                multiplier: order_multiplier as int,
            }),
            inv0.len() - inventory@.len() <= k,
        decreases orders@.len() - k,
    {
        let order = orders[k];
        proof {
            lemma_fill_orders(inv0, orders@.take(k as int), by_id@);
            lemma_sub_bag_known(inventory@, inv0, by_id@);
            inventory@.index_of_first_ensures(order);
            assert(orders@.take(k + 1).drop_last() =~= orders@.take(k as int));
            assert(orders@.take(k + 1).last() == order);
        }
        match position_of(inventory, order) {
            Some(index) => {
                order_failed = false;
                if order_mox_points > 0 || order_aga_points > 0 || order_lye_points > 0 {
                    order_multiplier = order_multiplier + MULTIPLIER_STEP as i64;
                }
                assert(by_id@.contains_key(inventory@[index as int]));
                let potion = lookup(by_id, order);
                order_mox_points = order_mox_points + potion.output_mox as i64;
                order_aga_points = order_aga_points + potion.output_aga as i64;
                order_lye_points = order_lye_points + potion.output_lye as i64;
                inventory.remove(index);
            },
            None => {},
        }
        k = k + 1;
    }
    assert(orders@.take(ORDERS_PER_ROUND as int) =~= orders@);
    proof {
        lemma_fill_orders(inv0, orders@, by_id@);
    }
    if order_failed {
        let id = inventory.remove(0);
        assert(by_id@.contains_key(inv0[0]));
        let potion = lookup(by_id, id);
        order_mox_points = potion.output_mox_fail as i64;
        order_aga_points = potion.output_aga_fail as i64;
        order_lye_points = potion.output_lye_fail as i64;
    }
    let mox = scale_by_tenths(order_mox_points, order_multiplier);
    let aga = scale_by_tenths(order_aga_points, order_multiplier);
    let lye = scale_by_tenths(order_lye_points, order_multiplier);
    (mox, aga, lye)
}

/// Potions in a layout: seven fill the left part of the grid, two the
/// right-hand column.
pub const LAYOUT_POTIONS: usize = 9;

/// The inventory slots: rows of four, the last row with three.
pub const INVENTORY_SLOTS: usize = 27;

/// A round is played while the inventory holds more potions than this.
pub const INVENTORY_KEEP: usize = 7;

/// The id in slot `k` of the inventory laid out from `subset`. The grid has
/// rows of four: the right-hand slot of each of the first six rows (3, 7,
/// ..., 23) holds the three copies of potion 7, then those of potion 8; the
/// other slots, in order, hold the three copies of each of potions 0 to 6.
pub open spec fn layout_slot(subset: Seq<Potion>, k: int) -> i32 {
    if k < 24 && k % 4 == 3 {
        let row = k / 4;
        if row < 3 {
            subset[7].id_range@[row]
        } else {
            subset[8].id_range@[row - 3]
        }
    } else {
        let n = if k < 24 { k - k / 4 } else { k - 6 };
        subset[n / 3].id_range@[n % 3]
    }
}

/// The inventory laid out from the first nine potions of `subset`.
pub open spec fn layout(subset: Seq<Potion>) -> Seq<i32> {
    Seq::new(INVENTORY_SLOTS as nat, |k: int| layout_slot(subset, k))
}

/// The ingredients of the listed potions, summed per resource.
pub open spec fn inputs_of(potions: Seq<Potion>) -> Amounts
    decreases potions.len(),
{
    if potions.len() == 0 {
        (0, 0, 0)
    } else {
        add3(inputs_of(potions.drop_last()), potions.last().inputs())
    }
}

/// What a layout costs: three copies of each of its nine potions.
pub open spec fn layout_cost(subset: Seq<Potion>) -> Amounts {
    let c = inputs_of(subset.take(LAYOUT_POTIONS as int));
    (3 * c.0, 3 * c.1, 3 * c.2)
}

/// The ingredients of the potions with the listed ids, summed per resource.
pub open spec fn inputs_of_ids(ids: Seq<i32>, by_id: Map<i32, Potion>) -> Amounts
    decreases ids.len(),
{
    if ids.len() == 0 {
        (0, 0, 0)
    } else {
        add3(inputs_of_ids(ids.drop_last(), by_id), by_id[ids.last()].inputs())
    }
}

/// The list has the nine potions of a layout, each with exactly three ids.
pub open spec fn layout_wf(subset: Seq<Potion>) -> bool {
    &&& subset.len() >= LAYOUT_POTIONS
    &&& forall|k: int| 0 <= k < LAYOUT_POTIONS ==> (#[trigger] subset[k]).id_range@.len() == 3
}

/// Lays out the inventory (see `layout`) and returns it with its cost
/// (see `layout_cost`).
pub fn lay_out(subset: &[Potion]) -> (r: (Vec<i32>, (i64, i64, i64)))
    requires
        layout_wf(subset@),
    ensures
        r.0@ == layout(subset@),
        forall|row: int, col: int|
            0 <= row < 6 && 0 <= col < 3 ==> r.0@[4 * row + col] == #[trigger] subset@[row].id_range@[col],
        forall|col: int| 0 <= col < 3 ==> r.0@[24 + col] == #[trigger] subset@[6].id_range@[col],
        forall|row: int| 0 <= row < 3 ==> r.0@[4 * row + 3] == #[trigger] subset@[7].id_range@[row],
        forall|row: int| 3 <= row < 6 ==> r.0@[4 * row + 3] == #[trigger] subset@[8].id_range@[row - 3],
        (r.1.0 as int, r.1.1 as int, r.1.2 as int) == layout_cost(subset@),
{
    let mut inventory: Vec<i32> = Vec::new();
    let mut mox_cost: i64 = 0;
    let mut aga_cost: i64 = 0;
    let mut lye_cost: i64 = 0;
    let mut i: usize = 0;
    while i < LAYOUT_POTIONS
        invariant
            i <= LAYOUT_POTIONS,
            layout_wf(subset@),
            inventory@.len() == if i <= 7 { 3 * i } else { 21 },
            forall|n: int| 0 <= n < 3 * i && n < 21 ==> inventory@[n] == #[trigger] subset@[n / 3].id_range@[n % 3],
            ({
                let c = inputs_of(subset@.take(i as int));
                &&& mox_cost == 3 * c.0
                &&& aga_cost == 3 * c.1
                &&& lye_cost == 3 * c.2
                &&& within(c, i * 0x8000_0000int)
            }),
        decreases LAYOUT_POTIONS - i,
    {
        let potion = &subset[i];
        assert(subset@.take(i + 1).drop_last() =~= subset@.take(i as int));
        mox_cost = mox_cost + 3 * potion.input_mox as i64;
        aga_cost = aga_cost + 3 * potion.input_aga as i64;
        lye_cost = lye_cost + 3 * potion.input_lye as i64;
        if i < 7 {
            let mut j: usize = 0;
            while j < 3
                invariant
                    i < 7,
                    j <= 3,
                    potion.id_range@.len() == 3,
                    *potion == subset@[i as int],
                    inventory@.len() == 3 * i + j,
                    forall|n: int| 0 <= n < 3 * i + j ==> inventory@[n] == #[trigger] subset@[n / 3].id_range@[n % 3],
                decreases 3 - j,
            {
                inventory.push(potion.id_range[j]);
                assert(inventory@[3 * i + j] == subset@[(3 * i + j) / 3].id_range@[(3 * i + j) % 3]);
                j = j + 1;
            }
        }
        i = i + 1;
    }
    assert(subset@.take(9) =~= subset@.take(LAYOUT_POTIONS as int));
    let ghost base = inventory@;
    let mut i: usize = 0;
    while i < 2
        invariant
            i <= 2,
            layout_wf(subset@),
            base.len() == 21,
            inventory@.len() == 21 + 3 * i,
            forall|k: int| 0 <= k < 21 + 3 * i ==> #[trigger] inventory@[k] == (
                if k < 12 * i && k % 4 == 3 {
                    subset@[7 + k / 12].id_range@[(k % 12) / 4]
                } else {
                    base[if k < 12 * i { k - k / 4 } else { k - 3 * i }]
                }),
        decreases 2 - i,
    {
        let potion = &subset[7 + i];
        let mut j: usize = 0;
        while j < 3
            invariant
                i < 2,
                j <= 3,
                potion.id_range@.len() == 3,
                *potion == subset@[7 + i],
                base.len() == 21,
                inventory@.len() == 21 + 3 * i + j,
                forall|k: int| 0 <= k < 21 + 3 * i + j ==> #[trigger] inventory@[k] == (
                    if k < 12 * i + 4 * j && k % 4 == 3 {
                        subset@[7 + k / 12].id_range@[(k % 12) / 4]
                    } else {
                        base[if k < 12 * i + 4 * j { k - k / 4 } else { k - 3 * i - j }]
                    }),
            decreases 3 - j,
        {
            let ghost before = inventory@;
            let pos: usize = (12 * i) + 3 + (4 * j);
            inventory.insert(pos, potion.id_range[j]);
            assert forall|k: int| 0 <= k < 21 + 3 * i + j + 1 implies #[trigger] inventory@[k] == (
                if k < 12 * i + 4 * (j + 1) && k % 4 == 3 {
                    subset@[7 + k / 12].id_range@[(k % 12) / 4]
                } else {
                    base[if k < 12 * i + 4 * (j + 1) { k - k / 4 } else { k - 3 * i - (j + 1) }]
                }) by {
                if k < pos {
                    assert(inventory@[k] == before[k]);
                } else if k > pos {
                    assert(inventory@[k] == before[k - 1]);
                }
            }
            j = j + 1;
        }
        i = i + 1;
    }
    assert(inventory@ =~= layout(subset@));
    proof {
        crate::laws::law_left_part(subset@);
        crate::laws::law_bottom_row(subset@);
        crate::laws::law_right_column(subset@);
        assert forall|col: int| 0 <= col < 3 implies inventory@[24 + col] == #[trigger] subset@[6].id_range@[col] by {
            assert(layout(subset@).subrange(24, 27)[col] == inventory@[24 + col]);
        }
    }
    (inventory, (mox_cost, aga_cost, lye_cost))
}

/// The inventory and the points, per resource, after playing `rounds` in
/// turn from the inventory `inv`.
pub open spec fn play_rounds(inv: Seq<i32>, rounds: Seq<Seq<i32>>, by_id: Map<i32, Potion>) -> (Seq<i32>, Amounts)
    decreases rounds.len(),
{
    if rounds.len() == 0 {
        (inv, (0, 0, 0))
    } else {
        let (before, pts) = play_rounds(inv, rounds.drop_last(), by_id);
        let (after, more) = round_outcome(before, rounds.last(), by_id);
        (after, add3(pts, more))
    }
}

/// `rounds` is a complete game on the layout of `subset`: each round has
/// three orders that a customer can draw from `full`, a round is played only
/// while more than `INVENTORY_KEEP` potions are left, and the game stops as
/// soon as no more are.
pub open spec fn valid_game(subset: Seq<Potion>, full: Seq<Potion>, by_id: Map<i32, Potion>, rounds: Seq<Seq<i32>>) -> bool {
    &&& forall|i: int| 0 <= i < rounds.len() ==> (#[trigger] rounds[i]).len() == ORDERS_PER_ROUND
    &&& forall|i: int, j: int| 0 <= i < rounds.len() && 0 <= j < ORDERS_PER_ROUND ==> drawable(full, #[trigger] rounds[i][j])
    &&& forall|k: int| 0 <= k < rounds.len() ==> (#[trigger] play_rounds(layout(subset), rounds.take(k), by_id)).0.len() > INVENTORY_KEEP
    &&& play_rounds(layout(subset), rounds, by_id).0.len() <= INVENTORY_KEEP
}

/// The result of the game `rounds`: the resources spent (the layout's cost
/// less the ingredients of the potions left over) and the points earned.
pub open spec fn game_result(subset: Seq<Potion>, by_id: Map<i32, Potion>, rounds: Seq<Seq<i32>>) -> (Amounts, Amounts) {
    let (left, pts) = play_rounds(layout(subset), rounds, by_id);
    (sub3(layout_cost(subset), inputs_of_ids(left, by_id)), pts)
}

/// The six numbers of an inventory simulation: costs, then points, each as
/// (mox, aga, lye).
pub open spec fn as_amounts(r: (i32, i32, i32, i32, i32, i32)) -> (Amounts, Amounts) {
    ((r.0 as int, r.1 as int, r.2 as int), (r.3 as int, r.4 as int, r.5 as int))
}

/// What an inventory simulation returns for the exact totals `t`: the six
/// numbers when they all fit in `i32`, else `Overflow`.
pub open spec fn reported(t: (Amounts, Amounts), r: Result<(i32, i32, i32, i32, i32, i32), SimulationError>) -> bool {
    if all_fit(t) {
        r matches Ok(v) && as_amounts(v) == t
    } else {
        r == Err::<(i32, i32, i32, i32, i32, i32), SimulationError>(SimulationError::Overflow)
    }
}

/// `r` is what some complete game on the layout of `subset` gives.
pub open spec fn inventory_outcome(
    subset: Seq<Potion>,
    full: Seq<Potion>,
    by_id: Map<i32, Potion>,
    r: Result<(i32, i32, i32, i32, i32, i32), SimulationError>,
) -> bool {
    exists|rounds: Seq<Seq<i32>>| #[trigger] valid_game(subset, full, by_id, rounds)
        && reported(game_result(subset, by_id, rounds), r)
}

/// The ingredients of the potions with the listed ids, summed per resource
/// (see `inputs_of_ids`).
pub fn leftover_inputs(ids: &Vec<i32>, by_id: &HashMap<i32, Potion>) -> (r: (i64, i64, i64))
    requires
        ids@.len() <= 0xffff_ffff,
        ids_known(ids@, by_id@),
    ensures
        (r.0 as int, r.1 as int, r.2 as int) == inputs_of_ids(ids@, by_id@),
        within((r.0 as int, r.1 as int, r.2 as int), ids@.len() * 0x8000_0000int),
{
    let mut mox: i64 = 0;
    let mut aga: i64 = 0;
    let mut lye: i64 = 0;
    let mut i: usize = 0;
    while i < ids.len()
        invariant
            i <= ids@.len() <= 0xffff_ffff,
            ids_known(ids@, by_id@),
            (mox as int, aga as int, lye as int) == inputs_of_ids(ids@.take(i as int), by_id@),
            within((mox as int, aga as int, lye as int), i * 0x8000_0000int),
        decreases ids@.len() - i,
    {
        assert(ids@.take(i + 1).drop_last() =~= ids@.take(i as int));
        assert(by_id@.contains_key(ids@[i as int]));
        let potion = lookup(by_id, ids[i]);
        mox = mox + potion.input_mox as i64;
        aga = aga + potion.input_aga as i64;
        lye = lye + potion.input_lye as i64;
        i = i + 1;
    }
    assert(ids@.take(i as int) =~= ids@);
    (mox, aga, lye)
}

/// `x` as an `i32`, when it fits.
fn narrow(x: i64) -> (r: Option<i32>)
    ensures
        i32::MIN <= x <= i32::MAX ==> r == Some(x as i32),
        !(i32::MIN <= x <= i32::MAX) ==> r is None,
{
    if i32::MIN as i64 <= x && x <= i32::MAX as i64 {
        Some(x as i32)
    } else {
        None
    }
}

/// Plays one whole inventory: lays out `potions_subset`, plays rounds of
/// three orders drawn from `potions_full_list` while more than
/// `INVENTORY_KEEP` potions are left, and returns the costs (the layout's
/// cost less the ingredients of the potions left over) and the points
/// earned, as (mox cost, aga cost, lye cost, mox points, aga points, lye
/// points), or `Overflow` when one of them does not fit in `i32`. Which game
/// is played is chance; every outcome is that of some complete game (see
/// `inventory_outcome`).
pub fn simulate_inventory(
    potions_subset: &[Potion],
    potions_full_list: &[Potion],
    potions_by_id: &HashMap<i32, Potion>,
) -> (r: Result<(i32, i32, i32, i32, i32, i32), SimulationError>)
    requires
        layout_wf(potions_subset@),
        orderable(potions_full_list@),
        total_rarity(potions_full_list@) >= RARITY_UNIT,
        ids_known(layout(potions_subset@), potions_by_id@),
    ensures
        inventory_outcome(potions_subset@, potions_full_list@, potions_by_id@, r),
{
    let (mut inventory, costs) = lay_out(potions_subset);
    let (mox_cost, aga_cost, lye_cost) = costs;
    let ghost init = inventory@;
    let ghost by_id = potions_by_id@;
    let ghost mut rounds: Seq<Seq<i32>> = Seq::empty();
    let mut mox_points: i64 = 0;
    let mut aga_points: i64 = 0;
    let mut lye_points: i64 = 0;
    while inventory.len() > INVENTORY_KEEP
        invariant
            init == layout(potions_subset@),
            by_id == potions_by_id@,
            orderable(potions_full_list@),
            total_rarity(potions_full_list@) >= RARITY_UNIT,
            ids_known(init, by_id),
            sub_bag(inventory@, init),
            init.len() == INVENTORY_SLOTS,
            inventory@.len() <= INVENTORY_SLOTS,
            play_rounds(init, rounds, by_id) == (inventory@, (mox_points as int, aga_points as int, lye_points as int)),
            forall|i: int| 0 <= i < rounds.len() ==> (#[trigger] rounds[i]).len() == ORDERS_PER_ROUND,
            forall|i: int, j: int| 0 <= i < rounds.len() && 0 <= j < ORDERS_PER_ROUND ==> drawable(potions_full_list@, #[trigger] rounds[i][j]),
            forall|k: int| 0 <= k < rounds.len() ==> (#[trigger] play_rounds(init, rounds.take(k), by_id)).0.len() > INVENTORY_KEEP,
            within((mox_points as int, aga_points as int, lye_points as int), (INVENTORY_SLOTS - inventory@.len()) * (5 * 0x8000_0000int)),
        decreases inventory@.len(),
    {
        let mut orders: Vec<i32> = Vec::new();
        orders.push(get_order(potions_full_list));
        orders.push(get_order(potions_full_list));
        orders.push(get_order(potions_full_list));
        let ghost before = inventory@;
        proof {
            lemma_sub_bag_known(inventory@, init, by_id);
            law_round_bounds(inventory@, orders@, by_id);
        }
        let (m, a, l) = play_round(&mut inventory, orders.as_slice(), potions_by_id);
        assert(inventory@.len() <= before.len() - 1);
        assert(within((m as int, a as int, l as int), 5 * 0x8000_0000int));
        proof {
            let n = (INVENTORY_SLOTS - inventory@.len()) as int;
            let n0 = (INVENTORY_SLOTS - before.len()) as int;
            assert(n >= n0 + 1);
            assert(within((mox_points + m, aga_points + a, lye_points + l), n * (5 * 0x8000_0000int))) by (nonlinear_arith)
                requires
                    n >= n0 + 1,
                    within((mox_points as int, aga_points as int, lye_points as int), n0 * (5 * 0x8000_0000int)),
                    within((m as int, a as int, l as int), 5 * 0x8000_0000int),
            ;
            assert(n <= 27);
            assert(n * (5 * 0x8000_0000int) <= 27 * (5 * 0x8000_0000int)) by (nonlinear_arith)
                requires
                    n <= 27,
            ;
        }
        proof {
            lemma_sub_bag_trans(inventory@, before, init);
            let new_rounds = rounds.push(orders@);
            assert(new_rounds.drop_last() =~= rounds);
            assert forall|k: int| 0 <= k < new_rounds.len() implies (#[trigger] play_rounds(init, new_rounds.take(k), by_id)).0.len() > INVENTORY_KEEP by {
                if k < rounds.len() {
                    assert(new_rounds.take(k) =~= rounds.take(k));
                } else {
                    assert(new_rounds.take(k) =~= rounds);
                }
            }
            assert forall|i: int, j: int| 0 <= i < new_rounds.len() && 0 <= j < ORDERS_PER_ROUND implies drawable(potions_full_list@, #[trigger] new_rounds[i][j]) by {
                if i < rounds.len() {
                    assert(new_rounds[i] == rounds[i]);
                }
            }
            rounds = new_rounds;
        }
        mox_points = mox_points + m;
        aga_points = aga_points + a;
        lye_points = lye_points + l;
    }
    proof {
        lemma_sub_bag_known(inventory@, init, by_id);
    }
    let (mox_left, aga_left, lye_left) = leftover_inputs(&inventory, potions_by_id);
    assert(within((mox_left as int, aga_left as int, lye_left as int), 27 * 0x8000_0000int)) by {
        assert(inventory@.len() * 0x8000_0000int <= 27 * 0x8000_0000int) by (nonlinear_arith)
            requires
                inventory@.len() <= 27,
        ;
    }
    assert(within((mox_cost as int, aga_cost as int, lye_cost as int), 27 * 0x8000_0000int)) by {
        lemma_layout_cost_bound(potions_subset@);
    }
    let ghost totals = game_result(potions_subset@, by_id, rounds);
    assert(valid_game(potions_subset@, potions_full_list@, by_id, rounds));
    let r = match (
        narrow(mox_cost - mox_left),
        narrow(aga_cost - aga_left),
        narrow(lye_cost - lye_left),
        narrow(mox_points),
        narrow(aga_points),
        narrow(lye_points),
    ) {
        (Some(mc), Some(ac), Some(lc), Some(mp), Some(ap), Some(lp)) => Ok((mc, ac, lc, mp, ap, lp)),
        _ => Err(SimulationError::Overflow),
    };
    assert(reported(totals, r));
    r
}

/// A layout's cost lies within `27 * 2^31` of zero per resource.
proof fn lemma_layout_cost_bound(subset: Seq<Potion>)
    requires
        layout_wf(subset),
    ensures
        within(layout_cost(subset), 27 * 0x8000_0000int),
{
    lemma_inputs_of_bound(subset.take(LAYOUT_POTIONS as int));
}

/// The ingredients of `n` potions lie within `n * 2^31` of zero.
proof fn lemma_inputs_of_bound(potions: Seq<Potion>)
    ensures
        within(inputs_of(potions), potions.len() * 0x8000_0000int),
    decreases potions.len(),
{
    if potions.len() > 0 {
        lemma_inputs_of_bound(potions.drop_last());
    }
}

} // verus!
