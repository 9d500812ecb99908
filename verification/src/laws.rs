use vstd::prelude::*;
use crate::inventory::{
    add3, within, fill_orders, game_result, ids_known, inputs_of, inputs_of_ids, layout, layout_cost, layout_wf,
    lemma_fill_orders, lemma_remove_sub_bag, lemma_sub_bag_contains, law_round_bounds, lemma_sub_bag_known, lemma_sub_bag_trans,
    play_rounds, round_outcome, sub3, sub_bag, valid_game, BASE_MULTIPLIER, INVENTORY_KEEP, LAYOUT_POTIONS,
    MULTIPLIER_STEP, ORDERS_PER_ROUND, INVENTORY_SLOTS,
};
use crate::order::{drawable, orderable, order_for, total_rarity};
use crate::potion::Potion;
use crate::simulation::{sum_results, targets_passed};
use crate::inventory::{scale3, scale_tenths, round_scale, lemma_scale_bound, inventory_outcome, reported};

verus! {

/// Rounds played in turn while more than `INVENTORY_KEEP` potions are left
/// only ever sell or throw away potions of the starting inventory, at least
/// one and at most three per round, and earn no negative points.
pub proof fn lemma_rounds_shrink(inv: Seq<i32>, rounds: Seq<Seq<i32>>, by_id: Map<i32, Potion>)
    requires
        ids_known(inv, by_id),
        forall|i: int| 0 <= i < rounds.len() ==> (#[trigger] rounds[i]).len() == ORDERS_PER_ROUND,
        forall|k: int| 0 <= k < rounds.len() ==> (#[trigger] play_rounds(inv, rounds.take(k), by_id)).0.len() > INVENTORY_KEEP,
    ensures
        ({
            let (left, pts) = play_rounds(inv, rounds, by_id);
            &&& sub_bag(left, inv)
            &&& inv.len() - 3 * rounds.len() <= left.len() <= inv.len() - rounds.len()
            &&& within(pts, rounds.len() * (5 * 0x8000_0000int))
        }),
    decreases rounds.len(),
{
    broadcast use vstd::seq_lib::group_to_multiset_ensures;
    broadcast use vstd::multiset::group_multiset_axioms;

    if rounds.len() == 0 {
        assert(sub_bag(inv, inv));
    } else {
        let n = rounds.len() - 1;
        let rest = rounds.drop_last();
        assert forall|k: int| 0 <= k < rest.len() implies (#[trigger] play_rounds(inv, rest.take(k), by_id)).0.len() > INVENTORY_KEEP by {
            assert(rest.take(k) =~= rounds.take(k));
        }
        assert forall|i: int| 0 <= i < rest.len() implies (#[trigger] rest[i]).len() == ORDERS_PER_ROUND by {
            assert(rest[i] == rounds[i]);
        }
        lemma_rounds_shrink(inv, rest, by_id);
        assert(rounds.take(n) =~= rest);
        let (before, pts) = play_rounds(inv, rest, by_id);
        assert(before.len() > INVENTORY_KEEP);
        lemma_sub_bag_known(before, inv, by_id);
        law_round_bounds(before, rounds.last(), by_id);
        let (after, more) = round_outcome(before, rounds.last(), by_id);
        lemma_sub_bag_trans(after, before, inv);
        assert(within(add3(pts, more), rounds.len() * (5 * 0x8000_0000int))) by (nonlinear_arith)
            requires
                within(pts, n * (5 * 0x8000_0000int)),
                within(more, 5 * 0x8000_0000int),
                rounds.len() == n + 1,
        ;
    }
}

/// A game on a layout lasts seven to twenty rounds and ends with five to
/// seven potions of the layout left.
pub proof fn law_game_length(subset: Seq<Potion>, full: Seq<Potion>, by_id: Map<i32, Potion>, rounds: Seq<Seq<i32>>)
    requires
        ids_known(layout(subset), by_id),
        valid_game(subset, full, by_id, rounds),
    ensures
        ({
            let (left, pts) = play_rounds(layout(subset), rounds, by_id);
            &&& 7 <= rounds.len() <= 20
            &&& 5 <= left.len() <= INVENTORY_KEEP
            &&& sub_bag(left, layout(subset))
        }),
{
    let init = layout(subset);
    lemma_rounds_shrink(init, rounds, by_id);
    if rounds.len() > 0 {
        let n = rounds.len() - 1;
        let rest = rounds.drop_last();
        assert(rounds.take(n) =~= rest);
        assert forall|k: int| 0 <= k < rest.len() implies (#[trigger] play_rounds(init, rest.take(k), by_id)).0.len() > INVENTORY_KEEP by {
            assert(rest.take(k) =~= rounds.take(k));
            assert(play_rounds(init, rounds.take(k), by_id).0.len() > INVENTORY_KEEP);
        }
        assert forall|i: int| 0 <= i < rest.len() implies (#[trigger] rest[i]).len() == ORDERS_PER_ROUND by {
            assert(rest[i] == rounds[i]);
        }
        lemma_rounds_shrink(init, rest, by_id);
        let (before, pts) = play_rounds(init, rest, by_id);
        assert(before.len() > INVENTORY_KEEP);
        lemma_sub_bag_known(before, init, by_id);
        assert(rounds[n] == rounds.last());
        law_round_bounds(before, rounds.last(), by_id);
    }
}

/// The bottom row of a layout (slots 24 to 26) holds the three copies of
/// its seventh potion.
pub proof fn law_bottom_row(subset: Seq<Potion>)
    requires
        layout_wf(subset),
    ensures
        layout(subset).subrange(24, 27) == subset[6].id_range@,
{
    assert(layout(subset).subrange(24, 27) =~= subset[6].id_range@);
}

/// The left part of the grid holds the first seven potions in list order,
/// three copies each: row `r < 6` holds the copies of potion `r` in its
/// first three slots, and the bottom row those of potion 6.
pub proof fn law_left_part(subset: Seq<Potion>)
    requires
        layout_wf(subset),
    ensures
        forall|row: int, col: int|
            0 <= row < 6 && 0 <= col < 3 ==> layout(subset)[4 * row + col] == #[trigger] subset[row].id_range@[col],
        forall|col: int| 0 <= col < 3 ==> layout(subset)[24 + col] == #[trigger] subset[6].id_range@[col],
{
    assert forall|row: int, col: int| 0 <= row < 6 && 0 <= col < 3 implies layout(subset)[4 * row + col]
        == #[trigger] subset[row].id_range@[col] by {
        let k = 4 * row + col;
        assert(k / 4 == row && k % 4 == col);
        let n = k - k / 4;
        assert(n == 3 * row + col);
        assert(n / 3 == row && n % 3 == col);
    }
    assert forall|col: int| 0 <= col < 3 implies layout(subset)[24 + col] == #[trigger] subset[6].id_range@[col] by {
        let n = 24 + col - 6;
        assert(n / 3 == 6 && n % 3 == col);
    }
}

/// The right-hand column of the first six rows holds the copies of the
/// eighth potion, then those of the ninth, top to bottom.
pub proof fn law_right_column(subset: Seq<Potion>)
    requires
        layout_wf(subset),
    ensures
        forall|row: int| 0 <= row < 3 ==> #[trigger] layout(subset)[4 * row + 3] == subset[7].id_range@[row],
        forall|row: int| 3 <= row < 6 ==> #[trigger] layout(subset)[4 * row + 3] == subset[8].id_range@[row - 3],
{
}


/// How the draws are shared out: the `j`-th id of the `k`-th potion is the
/// order of exactly the draws of a stretch as long as the potion's rarity,
/// which starts after three times the rarities of the potions before it and
/// `j` times its own.
pub proof fn law_draw_stretches(potions: Seq<Potion>, k: int, j: int, t: int)
    requires
        orderable(potions),
        0 <= k < potions.len(),
        0 <= j < 3,
        3 * total_rarity(potions.take(k)) + j * potions[k].rarity <= t,
        t < 3 * total_rarity(potions.take(k)) + (j + 1) * potions[k].rarity,
    ensures
        order_for(potions, t) == Some(potions[k].id_range@[j]),
    decreases k,
{
    let r = potions[k].rarity as int;
    if k == 0 {
        assert(potions.take(0) =~= Seq::<Potion>::empty());
        assert(total_rarity(potions.take(0)) == 0);
        assert(j == 0 ==> j * r == 0 && (j + 1) * r == r) by (nonlinear_arith);
        assert(j == 1 ==> j * r == r && (j + 1) * r == 2 * r) by (nonlinear_arith);
        assert(j == 2 ==> j * r == 2 * r && (j + 1) * r == 3 * r) by (nonlinear_arith);
    } else {
        let rest = potions.drop_first();
        let r0 = potions[0].rarity as int;
        assert(potions.take(k).drop_first() =~= rest.take(k - 1));
        assert(potions.take(k)[0] == potions[0]);
        assert(total_rarity(potions.take(k)) == r0 + total_rarity(rest.take(k - 1)));
        assert(orderable(rest)) by {
            assert forall|i: int| 0 <= i < rest.len() && (#[trigger] rest[i]).rarity > 0 implies rest[i].id_range@.len() >= 3 by {
                assert(rest[i] == potions[i + 1]);
            }
        }
        assert(rest[k - 1] == potions[k]);
        lemma_total_rarity_nonneg(rest.take(k - 1));
        assert(t >= 3 * r0) by (nonlinear_arith)
            requires
                t >= 3 * (r0 + total_rarity(rest.take(k - 1))) + j * r,
                total_rarity(rest.take(k - 1)) >= 0,
                j >= 0,
                r >= 0,
        {
        }
        law_draw_stretches(rest, k - 1, j, t - 3 * r0);
    }
}

/// Total rarities are never negative.
pub proof fn lemma_total_rarity_nonneg(potions: Seq<Potion>)
    ensures
        total_rarity(potions) >= 0,
    decreases potions.len(),
{
    if potions.len() > 0 {
        lemma_total_rarity_nonneg(potions.drop_first());
    }
}

/// The combo: when every potion of the inventory earns points when sold,
/// and no negative points,
/// the multiplier of a round in which `n >= 1` orders were filled is one
/// plus a fifth for every order after the first (in tenths,
/// `BASE_MULTIPLIER + MULTIPLIER_STEP * (n - 1)`).
pub proof fn law_combo_multiplier(inv: Seq<i32>, orders: Seq<i32>, by_id: Map<i32, Potion>)
    requires
        ids_known(inv, by_id),
        forall|k: int| 0 <= k < inv.len() ==> {
            let o = #[trigger] by_id[inv[k]].outputs();
            &&& o.0 >= 0 && o.1 >= 0 && o.2 >= 0
            &&& o.0 > 0 || o.1 > 0 || o.2 > 0
        },
    ensures
        ({
            let st = fill_orders(inv, orders, by_id);
            let sold = inv.len() - st.inv.len();
            &&& st.filled ==> st.multiplier == BASE_MULTIPLIER + MULTIPLIER_STEP * (sold - 1)
            &&& st.filled ==> (st.points.0 > 0 || st.points.1 > 0 || st.points.2 > 0)
        }),
    decreases orders.len(),
{
    broadcast use vstd::seq_lib::group_to_multiset_ensures;
    broadcast use vstd::multiset::group_multiset_axioms;

    lemma_fill_orders(inv, orders, by_id);
    if orders.len() > 0 {
        let rest = orders.drop_last();
        law_combo_multiplier(inv, rest, by_id);
        lemma_fill_orders(inv, rest, by_id);
        let prev = fill_orders(inv, rest, by_id);
        let order = orders.last();
        prev.inv.index_of_first_ensures(order);
        match prev.inv.index_of_first(order) {
            Some(idx) => {
                assert(prev.inv.contains(order));
                assert(prev.inv.to_multiset().count(order) > 0);
                assert(inv.to_multiset().count(order) > 0);
                assert(inv.contains(order));
                let k = choose|k: int| 0 <= k < inv.len() && inv[k] == order;
                let o = by_id[inv[k]].outputs();
                assert(o.0 > 0 || o.1 > 0 || o.2 > 0);
                assert(o.0 >= 0 && o.1 >= 0 && o.2 >= 0);
                lemma_remove_sub_bag(prev.inv, idx);
            },
            None => {},
        }
    }
}


/// Taking one id out of a list takes its potion's ingredients out of the
/// list's sum.
pub proof fn lemma_inputs_remove(s: Seq<i32>, i: int, by_id: Map<i32, Potion>)
    requires
        0 <= i < s.len(),
    ensures
        inputs_of_ids(s, by_id) == add3(inputs_of_ids(s.remove(i), by_id), by_id[s[i]].inputs()),
    decreases s.len(),
{
    if i == s.len() - 1 {
        assert(s.remove(i) =~= s.drop_last());
    } else {
        lemma_inputs_remove(s.drop_last(), i, by_id);
        assert(s.remove(i).drop_last() =~= s.drop_last().remove(i));
        assert(s.remove(i).last() == s.last());
    }
}

/// Every id of `inv` names a potion of `by_id` whose ingredients are not
/// negative.
pub open spec fn inputs_nonneg(inv: Seq<i32>, by_id: Map<i32, Potion>) -> bool {
    forall|k: int| 0 <= k < inv.len() ==> {
        let p = #[trigger] by_id[inv[k]];
        p.input_mox >= 0 && p.input_aga >= 0 && p.input_lye >= 0
    }
}

/// A sub-bag of a list whose ingredients are not negative has none either.
pub proof fn lemma_sub_bag_inputs_nonneg(small: Seq<i32>, big: Seq<i32>, by_id: Map<i32, Potion>)
    requires
        sub_bag(small, big),
        inputs_nonneg(big, by_id),
    ensures
        inputs_nonneg(small, by_id),
{
    assert forall|k: int| 0 <= k < small.len() implies {
        let p = #[trigger] by_id[small[k]];
        p.input_mox >= 0 && p.input_aga >= 0 && p.input_lye >= 0
    } by {
        lemma_sub_bag_contains(small, big, small[k]);
        let j = choose|j: int| 0 <= j < big.len() && big[j] == small[k];
        assert(by_id[big[j]].input_mox >= 0);
    }
}

/// The ingredients of a sub-bag of a known list are at most those of the
/// list, per resource.
pub proof fn lemma_inputs_sub_bag(a: Seq<i32>, b: Seq<i32>, by_id: Map<i32, Potion>)
    requires
        sub_bag(a, b),
        ids_known(b, by_id),
        inputs_nonneg(b, by_id),
    ensures
        inputs_of_ids(a, by_id).0 <= inputs_of_ids(b, by_id).0,
        inputs_of_ids(a, by_id).1 <= inputs_of_ids(b, by_id).1,
        inputs_of_ids(a, by_id).2 <= inputs_of_ids(b, by_id).2,
        0 <= inputs_of_ids(a, by_id).0,
        0 <= inputs_of_ids(a, by_id).1,
        0 <= inputs_of_ids(a, by_id).2,
    decreases a.len(),
{
    broadcast use vstd::seq_lib::group_to_multiset_ensures;
    broadcast use vstd::multiset::group_multiset_axioms;

    lemma_sub_bag_known(a, b, by_id);
    lemma_sub_bag_inputs_nonneg(a, b, by_id);
    if a.len() == 0 {
        lemma_inputs_nonneg(b, by_id);
    } else {
        let x = a.last();
        assert(a.contains(x));
        assert(a.to_multiset().count(x) > 0);
        assert(b.to_multiset().count(x) > 0);
        assert(b.contains(x));
        let idx = choose|idx: int| 0 <= idx < b.len() && b[idx] == x;
        let b2 = b.remove(idx);
        let a2 = a.drop_last();
        assert(a2.to_multiset() == a.to_multiset().remove(x)) by {
            assert(a =~= a2.push(x));
        }
        assert(b2.to_multiset() == b.to_multiset().remove(x));
        assert(sub_bag(a2, b2)) by {
            assert(a2.to_multiset().subset_of(b2.to_multiset()));
        }
        lemma_remove_sub_bag(b, idx);
        lemma_sub_bag_known(b2, b, by_id);
        lemma_sub_bag_inputs_nonneg(b2, b, by_id);
        lemma_inputs_sub_bag(a2, b2, by_id);
        lemma_inputs_remove(b, idx, by_id);
        assert(by_id[b[idx]].input_mox >= 0 && by_id[b[idx]].input_aga >= 0 && by_id[b[idx]].input_lye >= 0);
    }
}

/// Sums of ingredients of a known list are never negative.
pub proof fn lemma_inputs_nonneg(s: Seq<i32>, by_id: Map<i32, Potion>)
    requires
        inputs_nonneg(s, by_id),
    ensures
        0 <= inputs_of_ids(s, by_id).0,
        0 <= inputs_of_ids(s, by_id).1,
        0 <= inputs_of_ids(s, by_id).2,
    decreases s.len(),
{
    if s.len() > 0 {
        assert(inputs_nonneg(s.drop_last(), by_id)) by {
            assert forall|k: int| 0 <= k < s.drop_last().len() implies {
                let p = #[trigger] by_id[s.drop_last()[k]];
                p.input_mox >= 0 && p.input_aga >= 0 && p.input_lye >= 0
            } by {
                assert(s.drop_last()[k] == s[k]);
            }
        }
        lemma_inputs_nonneg(s.drop_last(), by_id);
        assert(by_id[s[s.len() - 1]].input_mox >= 0);
    }
}


/// The ids of the listed potions, in list order, three per potion.
pub open spec fn ids_of(potions: Seq<Potion>) -> Seq<i32>
    decreases potions.len(),
{
    if potions.len() == 0 {
        Seq::empty()
    } else {
        ids_of(potions.drop_last()) + potions.last().id_range@
    }
}

/// Each of the layout's potions maps, by each of its ids, to a potion with
/// the same ingredients.
pub open spec fn ids_agree(subset: Seq<Potion>, by_id: Map<i32, Potion>) -> bool {
    forall|k: int, j: int|
        0 <= k < LAYOUT_POTIONS && 0 <= j < 3 ==> by_id.contains_key(#[trigger] subset[k].id_range@[j])
            && by_id[subset[k].id_range@[j]].inputs() == subset[k].inputs()
}

/// Where each id of a list of three-id potions stands.
pub proof fn lemma_ids_of_index(potions: Seq<Potion>)
    requires
        forall|k: int| 0 <= k < potions.len() ==> (#[trigger] potions[k]).id_range@.len() == 3,
    ensures
        ids_of(potions).len() == 3 * potions.len(),
        forall|n: int| 0 <= n < 3 * potions.len() ==> #[trigger] ids_of(potions)[n] == potions[n / 3].id_range@[n % 3],
    decreases potions.len(),
{
    if potions.len() > 0 {
        let rest = potions.drop_last();
        assert forall|k: int| 0 <= k < rest.len() implies (#[trigger] rest[k]).id_range@.len() == 3 by {
            assert(rest[k] == potions[k]);
        }
        lemma_ids_of_index(rest);
        let m = potions.len() - 1;
        assert(potions.last() == potions[m]);
        assert forall|n: int| 0 <= n < 3 * potions.len() implies #[trigger] ids_of(potions)[n] == potions[n / 3].id_range@[n % 3] by {
            if n < 3 * m {
                assert(ids_of(potions)[n] == ids_of(rest)[n]);
                assert(rest[n / 3] == potions[n / 3]);
            } else {
                assert(ids_of(potions)[n] == potions[m].id_range@[n - 3 * m]);
                assert(n / 3 == m);
            }
        }
    }
}

/// A layout holds the same ids as its nine potions, each as often.
#[verifier::rlimit(50)]
pub proof fn lemma_layout_bag(subset: Seq<Potion>)
    requires
        layout_wf(subset),
    ensures
        layout(subset).to_multiset() == ids_of(subset.take(LAYOUT_POTIONS as int)).to_multiset(),
{
    let t9 = subset.take(9);
    let t8 = subset.take(8);
    let t7 = subset.take(7);
    assert(t9 =~= subset.take(LAYOUT_POTIONS as int));
    assert(subset[7].id_range@.len() == 3 && subset[8].id_range@.len() == 3);
    let base = ids_of(t7);
    let a = subset[7].id_range@;
    let b = subset[8].id_range@;
    let s6 = base.insert(3, a[0]).insert(7, a[1]).insert(11, a[2]).insert(15, b[0]).insert(19, b[1]).insert(23, b[2]);
    assert(layout(subset) == s6) by {
        assert forall|k: int| 0 <= k < t7.len() implies (#[trigger] t7[k]).id_range@.len() == 3 by {
            assert(t7[k] == subset[k]);
        }
        lemma_ids_of_index(t7);
        assert forall|n: int| 0 <= n < 21 implies #[trigger] base[n] == subset[n / 3].id_range@[n % 3] by {
            assert(t7[n / 3] == subset[n / 3]);
        }
        assert(layout(subset) =~= s6);
    }
    assert(ids_of(t9) == base + a + b) by {
        assert(t9.drop_last() =~= t8);
        assert(t8.drop_last() =~= t7);
        assert(t9.last() == subset[8]);
        assert(t8.last() == subset[7]);
        assert(ids_of(t8) == base + a);
        assert(ids_of(t9) == ids_of(t8) + b);
    }
    let m = base.to_multiset().insert(a[0]).insert(a[1]).insert(a[2]).insert(b[0]).insert(b[1]).insert(b[2]);
    assert(s6.to_multiset() == m) by {
        broadcast use vstd::seq_lib::group_to_multiset_ensures;

        assert(base.len() == 21) by {
            assert forall|k: int| 0 <= k < t7.len() implies (#[trigger] t7[k]).id_range@.len() == 3 by {
                assert(t7[k] == subset[k]);
            }
            lemma_ids_of_index(t7);
        }
    }
    assert((base + a + b).to_multiset() == m) by {
        broadcast use vstd::seq_lib::group_to_multiset_ensures;

        assert(base + a + b =~= base.push(a[0]).push(a[1]).push(a[2]).push(b[0]).push(b[1]).push(b[2]));
    }
}

/// The ingredients of two lists of ids together are the sums of each.
pub proof fn lemma_inputs_concat(a: Seq<i32>, b: Seq<i32>, by_id: Map<i32, Potion>)
    ensures
        inputs_of_ids(a + b, by_id) == add3(inputs_of_ids(a, by_id), inputs_of_ids(b, by_id)),
    decreases b.len(),
{
    if b.len() == 0 {
        assert(a + b =~= a);
    } else {
        lemma_inputs_concat(a, b.drop_last(), by_id);
        assert((a + b).drop_last() =~= a + b.drop_last());
        assert((a + b).last() == b.last());
    }
}

/// Two lists of known ids that hold the same ids as often have the same
/// ingredients.
pub proof fn lemma_inputs_same_bag(a: Seq<i32>, b: Seq<i32>, by_id: Map<i32, Potion>)
    requires
        a.to_multiset() == b.to_multiset(),
        ids_known(b, by_id),
        inputs_nonneg(b, by_id),
    ensures
        inputs_of_ids(a, by_id) == inputs_of_ids(b, by_id),
{
    lemma_sub_bag_inputs_nonneg(a, b, by_id);
    lemma_inputs_sub_bag(a, b, by_id);
    lemma_sub_bag_known(a, b, by_id);
    lemma_inputs_sub_bag(b, a, by_id);
}

/// When the ids agree with the potions, the ingredients of the ids of a
/// list of potions are three times the ingredients of the list.
pub proof fn lemma_inputs_ids_of(subset: Seq<Potion>, n: int, by_id: Map<i32, Potion>)
    requires
        0 <= n <= LAYOUT_POTIONS,
        layout_wf(subset),
        ids_agree(subset, by_id),
    ensures
        ({
            let c = inputs_of(subset.take(n));
            inputs_of_ids(ids_of(subset.take(n)), by_id) == (3 * c.0, 3 * c.1, 3 * c.2)
        }),
    decreases n,
{
    if n == 0 {
        assert(subset.take(0) =~= Seq::<Potion>::empty());
        assert(ids_of(subset.take(0)) =~= Seq::<i32>::empty());
    } else {
        lemma_inputs_ids_of(subset, n - 1, by_id);
        let t = subset.take(n);
        assert(t.drop_last() =~= subset.take(n - 1));
        assert(t.last() == subset[n - 1]);
        let p = subset[n - 1];
        assert(p.id_range@.len() == 3);
        let ids = p.id_range@;
        lemma_inputs_concat(ids_of(subset.take(n - 1)), ids, by_id);
        assert(by_id.contains_key(subset[n - 1].id_range@[0]));
        assert(by_id.contains_key(subset[n - 1].id_range@[1]));
        assert(by_id.contains_key(subset[n - 1].id_range@[2]));
        assert(ids.drop_last().drop_last().drop_last() =~= Seq::<i32>::empty());
        assert(ids.drop_last().drop_last().last() == ids[0]);
        assert(ids.drop_last().last() == ids[1]);
        assert(ids.last() == ids[2]);
        assert(by_id[ids[0]].inputs() == p.inputs());
        assert(by_id[ids[1]].inputs() == p.inputs());
        assert(by_id[ids[2]].inputs() == p.inputs());
        let i1 = ids.drop_last().drop_last();
        let i2 = ids.drop_last();
        assert(inputs_of_ids(i1.drop_last(), by_id) == (0int, 0int, 0int));
        assert(inputs_of_ids(i1, by_id) == p.inputs());
        assert(inputs_of_ids(i2, by_id) == add3(p.inputs(), p.inputs()));
        assert(inputs_of_ids(ids, by_id) == (3 * p.input_mox, 3 * p.input_aga, 3 * p.input_lye));
    }
}

/// What a game charges is what it used up: when the ids agree with the
/// potions and no ingredient is negative, the cost of a game equals the ingredients of the potions that
/// left the inventory, so it is never negative and at most the cost of the
/// whole layout.
pub proof fn law_cost_is_spent(subset: Seq<Potion>, full: Seq<Potion>, by_id: Map<i32, Potion>, rounds: Seq<Seq<i32>>)
    requires
        layout_wf(subset),
        ids_known(layout(subset), by_id),
        ids_agree(subset, by_id),
        forall|k: int| 0 <= k < LAYOUT_POTIONS ==> {
            let p = #[trigger] subset[k];
            p.input_mox >= 0 && p.input_aga >= 0 && p.input_lye >= 0
        },
        valid_game(subset, full, by_id, rounds),
    ensures
        ({
            let (cost, pts) = game_result(subset, by_id, rounds);
            let left = play_rounds(layout(subset), rounds, by_id).0;
            let all = layout_cost(subset);
            &&& cost == sub3(inputs_of_ids(layout(subset), by_id), inputs_of_ids(left, by_id))
            &&& 0 <= cost.0 <= all.0
            &&& 0 <= cost.1 <= all.1
            &&& 0 <= cost.2 <= all.2
        }),
{
    law_game_length(subset, full, by_id, rounds);
    assert(inputs_nonneg(layout(subset), by_id)) by {
        assert forall|k: int| 0 <= k < layout(subset).len() implies {
            let p = #[trigger] by_id[layout(subset)[k]];
            p.input_mox >= 0 && p.input_aga >= 0 && p.input_lye >= 0
        } by {
            if k < 24 && k % 4 == 3 {
                let row = k / 4;
                if row < 3 {
                    assert(by_id[subset[7].id_range@[row]].inputs() == subset[7].inputs());
                } else {
                    assert(by_id[subset[8].id_range@[row - 3]].inputs() == subset[8].inputs());
                }
            } else {
                let n = if k < 24 { k - k / 4 } else { k - 6 };
                assert(by_id[subset[n / 3].id_range@[n % 3]].inputs() == subset[n / 3].inputs());
            }
        }
    }
    lemma_layout_bag(subset);
    lemma_inputs_same_bag(ids_of(subset.take(LAYOUT_POTIONS as int)), layout(subset), by_id);
    lemma_inputs_ids_of(subset, LAYOUT_POTIONS as int, by_id);
    let left = play_rounds(layout(subset), rounds, by_id).0;
    lemma_inputs_sub_bag(left, layout(subset), by_id);
}


/// Targets that are not negative are passed only after at least one
/// inventory: a run that passes them has played some.
pub proof fn law_targets_need_a_run(
    runs: Seq<(i32, i32, i32, i32, i32, i32)>,
    max_mox: i32,
    max_aga: i32,
    max_lye: i32,
)
    requires
        max_mox >= 0 || max_aga >= 0 || max_lye >= 0,
        targets_passed(sum_results(runs).1, max_mox, max_aga, max_lye),
    ensures
        runs.len() >= 1,
{
}


/// Every id of `inv` names a potion of `by_id` whose sale and fail points
/// all lie between zero and `m`.
pub open spec fn outputs_within(inv: Seq<i32>, by_id: Map<i32, Potion>, m: int) -> bool {
    forall|k: int| 0 <= k < inv.len() ==> {
        let p = #[trigger] by_id[inv[k]];
        &&& 0 <= p.output_mox <= m && 0 <= p.output_aga <= m && 0 <= p.output_lye <= m
        &&& 0 <= p.output_mox_fail <= m && 0 <= p.output_aga_fail <= m && 0 <= p.output_lye_fail <= m
    }
}

/// A sub-bag of a list with points in `0 ..= m` has points in that range too.
pub proof fn lemma_sub_bag_outputs_within(small: Seq<i32>, big: Seq<i32>, by_id: Map<i32, Potion>, m: int)
    requires
        sub_bag(small, big),
        outputs_within(big, by_id, m),
    ensures
        outputs_within(small, by_id, m),
{
    assert forall|k: int| 0 <= k < small.len() implies {
        let p = #[trigger] by_id[small[k]];
        &&& 0 <= p.output_mox <= m && 0 <= p.output_aga <= m && 0 <= p.output_lye <= m
        &&& 0 <= p.output_mox_fail <= m && 0 <= p.output_aga_fail <= m && 0 <= p.output_lye_fail <= m
    } by {
        lemma_sub_bag_contains(small, big, small[k]);
        let j = choose|j: int| 0 <= j < big.len() && big[j] == small[k];
        assert(by_id[big[j]].output_mox <= m);
    }
}

/// Filling orders from potions with points in `0 ..= m` earns between zero
/// and `m` per potion sold, and raises the multiplier only after the first
/// sale.
pub proof fn lemma_fill_bounded(inv: Seq<i32>, orders: Seq<i32>, by_id: Map<i32, Potion>, m: int)
    requires
        ids_known(inv, by_id),
        outputs_within(inv, by_id, m),
    ensures
        ({
            let st = fill_orders(inv, orders, by_id);
            let sold = inv.len() - st.inv.len();
            &&& 0 <= st.points.0 <= sold * m
            &&& 0 <= st.points.1 <= sold * m
            &&& 0 <= st.points.2 <= sold * m
            &&& st.filled ==> st.multiplier <= BASE_MULTIPLIER + MULTIPLIER_STEP * (sold - 1)
        }),
    decreases orders.len(),
{
    lemma_fill_orders(inv, orders, by_id);
    if orders.len() > 0 {
        let rest = orders.drop_last();
        lemma_fill_bounded(inv, rest, by_id, m);
        lemma_fill_orders(inv, rest, by_id);
        let prev = fill_orders(inv, rest, by_id);
        let order = orders.last();
        prev.inv.index_of_first_ensures(order);
        lemma_sub_bag_outputs_within(prev.inv, inv, by_id, m);
        match prev.inv.index_of_first(order) {
            Some(idx) => {
                lemma_remove_sub_bag(prev.inv, idx);
                let p = by_id[prev.inv[idx]];
                assert(0 <= p.output_mox <= m && 0 <= p.output_aga <= m && 0 <= p.output_lye <= m);
                let sold0 = inv.len() - prev.inv.len();
                assert((sold0 + 1) * m == sold0 * m + m) by (nonlinear_arith);
            },
            None => {},
        }
    }
}

/// A round played from potions with points in `0 ..= m` earns, per
/// resource, at least zero and at most `1.4 * m` per potion that leaves the
/// inventory.
pub proof fn lemma_round_points(inv: Seq<i32>, orders: Seq<i32>, by_id: Map<i32, Potion>, m: int)
    requires
        inv.len() > 0,
        orders.len() == ORDERS_PER_ROUND,
        ids_known(inv, by_id),
        outputs_within(inv, by_id, m),
    ensures
        ({
            let (after, pts) = round_outcome(inv, orders, by_id);
            let gone = inv.len() - after.len();
            &&& 0 <= pts.0 && 10 * pts.0 <= 14 * m * gone
            &&& 0 <= pts.1 && 10 * pts.1 <= 14 * m * gone
            &&& 0 <= pts.2 && 10 * pts.2 <= 14 * m * gone
        }),
{
    lemma_fill_orders(inv, orders, by_id);
    lemma_fill_bounded(inv, orders, by_id, m);
    assert(by_id[inv[0]].output_mox <= m);
    let st = fill_orders(inv, orders, by_id);
    let sold = inv.len() - st.inv.len();
    if st.filled {
        let t = st.multiplier;
        assert forall|x: int| 0 <= x <= sold * m implies 0 <= #[trigger] scale_tenths(x, t) && 10 * scale_tenths(x, t)
            <= 14 * m * sold by {
            assert(x * t >= 0 && 0 <= x * t / 10 && 10 * (x * t / 10) <= 14 * m * sold) by (nonlinear_arith)
                requires
                    0 <= x <= sold * m,
                    1 <= sold <= 3,
                    10 <= t <= 10 + 2 * (sold - 1),
                    m >= 0,
            ;
        }
        let (after, pts) = round_outcome(inv, orders, by_id);
        assert(after == st.inv);
        assert(pts == scale3(st.points, t));
        lemma_scale_bound(st.points.0, t);
        lemma_scale_bound(st.points.1, t);
        lemma_scale_bound(st.points.2, t);
        assert(0 <= scale_tenths(st.points.0, t));
        assert(0 <= scale_tenths(st.points.1, t));
        assert(0 <= scale_tenths(st.points.2, t));
    } else {
        lemma_remove_sub_bag(inv, 0);
        let p = by_id[inv[0]];
        assert(0 <= p.output_mox_fail <= m && 0 <= p.output_aga_fail <= m && 0 <= p.output_lye_fail <= m);
        assert forall|x: int| 0 <= x <= m implies #[trigger] scale_tenths(x, 10) == x by {
            assert(x * 10 >= 0 && x * 10 / 10 == x) by (nonlinear_arith)
                requires
                    x >= 0,
            ;
        }
        let (after, pts) = round_outcome(inv, orders, by_id);
        assert(after.len() == inv.len() - 1);
        assert(14 * m * (inv.len() - after.len()) == 14 * m) by (nonlinear_arith)
            requires
                inv.len() - after.len() == 1,
        ;
        assert(st.multiplier == 10);
        assert(pts == scale3(p.fail_outputs(), 10));
        assert(round_scale(p.output_mox_fail as int, 10) == p.output_mox_fail);
        assert(round_scale(p.output_aga_fail as int, 10) == p.output_aga_fail);
        assert(round_scale(p.output_lye_fail as int, 10) == p.output_lye_fail);
    }
}

/// Rounds played from potions with points in `0 ..= m` earn, per resource,
/// at least zero and at most `1.4 * m` per potion that left the inventory.
pub proof fn lemma_rounds_points(inv: Seq<i32>, rounds: Seq<Seq<i32>>, by_id: Map<i32, Potion>, m: int)
    requires
        ids_known(inv, by_id),
        outputs_within(inv, by_id, m),
        forall|i: int| 0 <= i < rounds.len() ==> (#[trigger] rounds[i]).len() == ORDERS_PER_ROUND,
        forall|k: int| 0 <= k < rounds.len() ==> (#[trigger] play_rounds(inv, rounds.take(k), by_id)).0.len() > INVENTORY_KEEP,
    ensures
        ({
            let (left, pts) = play_rounds(inv, rounds, by_id);
            let gone = inv.len() - left.len();
            &&& 0 <= pts.0 && 10 * pts.0 <= 14 * m * gone
            &&& 0 <= pts.1 && 10 * pts.1 <= 14 * m * gone
            &&& 0 <= pts.2 && 10 * pts.2 <= 14 * m * gone
        }),
    decreases rounds.len(),
{
    if rounds.len() > 0 {
        let n = rounds.len() - 1;
        let rest = rounds.drop_last();
        assert forall|k: int| 0 <= k < rest.len() implies (#[trigger] play_rounds(inv, rest.take(k), by_id)).0.len() > INVENTORY_KEEP by {
            assert(rest.take(k) =~= rounds.take(k));
        }
        assert forall|i: int| 0 <= i < rest.len() implies (#[trigger] rest[i]).len() == ORDERS_PER_ROUND by {
            assert(rest[i] == rounds[i]);
        }
        lemma_rounds_points(inv, rest, by_id, m);
        lemma_rounds_shrink(inv, rest, by_id);
        assert(rounds.take(n) =~= rest);
        let (before, pts) = play_rounds(inv, rest, by_id);
        assert(before.len() > INVENTORY_KEEP);
        lemma_sub_bag_known(before, inv, by_id);
        lemma_sub_bag_outputs_within(before, inv, by_id, m);
        lemma_round_points(before, rounds.last(), by_id, m);
        law_round_bounds(before, rounds.last(), by_id);
        let (after, more) = round_outcome(before, rounds.last(), by_id);
        let g1 = inv.len() - before.len();
        let g2 = before.len() - after.len();
        assert(14 * m * g1 + 14 * m * g2 == 14 * m * (g1 + g2)) by (nonlinear_arith);
        let (left, tot) = play_rounds(inv, rounds, by_id);
        assert(left == after && tot == add3(pts, more));
        assert(inv.len() - left.len() == g1 + g2);
    } else {
        assert(14 * m * 0 == 0) by (nonlinear_arith);
    }
}

/// The points of a game from potions whose points lie in `0 ..= m` are
/// never negative and at most `1.4 * m` per potion that left the inventory
/// (so at most `1.4 * 22 * m`).
pub proof fn law_points_bound(subset: Seq<Potion>, full: Seq<Potion>, by_id: Map<i32, Potion>, rounds: Seq<Seq<i32>>, m: int)
    requires
        ids_known(layout(subset), by_id),
        outputs_within(layout(subset), by_id, m),
        valid_game(subset, full, by_id, rounds),
    ensures
        ({
            let (left, pts) = play_rounds(layout(subset), rounds, by_id);
            let gone = INVENTORY_SLOTS - left.len();
            &&& 0 <= pts.0 && 10 * pts.0 <= 14 * m * gone
            &&& 0 <= pts.1 && 10 * pts.1 <= 14 * m * gone
            &&& 0 <= pts.2 && 10 * pts.2 <= 14 * m * gone
            &&& gone <= 22
        }),
{
    law_game_length(subset, full, by_id, rounds);
    lemma_rounds_points(layout(subset), rounds, by_id, m);
}

/// Raising a target never lowers the number of inventories: along one
/// sequence of inventory results, the run that stops first for the targets
/// `(a1, b1, c1)` (not passed before `n1` results) is no longer than one
/// that has passed larger targets `(a2, b2, c2)` after `n2` results.
pub proof fn law_raise_target(
    all: Seq<(i32, i32, i32, i32, i32, i32)>,
    n1: int,
    n2: int,
    a1: i32,
    b1: i32,
    c1: i32,
    a2: i32,
    b2: i32,
    c2: i32,
)
    requires
        0 <= n1 <= all.len(),
        0 <= n2 <= all.len(),
        a1 <= a2 && b1 <= b2 && c1 <= c2,
        forall|k: int| 0 <= k < n1 ==> !targets_passed((#[trigger] sum_results(all.take(k))).1, a1, b1, c1),
        targets_passed(sum_results(all.take(n2)).1, a2, b2, c2),
    ensures
        n1 <= n2,
{
    if n2 < n1 {
        assert(!targets_passed(sum_results(all.take(n2)).1, a1, b1, c1));
    }
}

/// Results that each earn at least one point of every resource sum, after
/// `k` of them, to at least `k` points of each.
pub proof fn lemma_sum_grows(runs: Seq<(i32, i32, i32, i32, i32, i32)>)
    requires
        forall|i: int| 0 <= i < runs.len() ==> (#[trigger] runs[i]).3 >= 1 && runs[i].4 >= 1 && runs[i].5 >= 1,
    ensures
        sum_results(runs).1.0 >= runs.len(),
        sum_results(runs).1.1 >= runs.len(),
        sum_results(runs).1.2 >= runs.len(),
    decreases runs.len(),
{
    if runs.len() > 0 {
        let rest = runs.drop_last();
        assert forall|i: int| 0 <= i < rest.len() implies (#[trigger] rest[i]).3 >= 1 && rest[i].4 >= 1 && rest[i].5 >= 1 by {
            assert(rest[i] == runs[i]);
        }
        lemma_sum_grows(rest);
        assert(runs.last() == runs[runs.len() - 1]);
    }
}

/// When every inventory earns at least one point of each resource, a run
/// that stops as soon as the targets are passed plays at most one more
/// inventory than the largest target.
pub proof fn law_inventory_bound(
    runs: Seq<(i32, i32, i32, i32, i32, i32)>,
    max_mox: i32,
    max_aga: i32,
    max_lye: i32,
)
    requires
        forall|i: int| 0 <= i < runs.len() ==> (#[trigger] runs[i]).3 >= 1 && runs[i].4 >= 1 && runs[i].5 >= 1,
        forall|k: int| 0 <= k < runs.len() ==> !targets_passed((#[trigger] sum_results(runs.take(k))).1, max_mox, max_aga, max_lye),
    ensures
        runs.len() == 0 || runs.len() <= max_mox + 1 || runs.len() <= max_aga + 1 || runs.len() <= max_lye + 1,
{
    if runs.len() > 0 {
        let n = runs.len() - 1;
        let pre = runs.take(n);
        assert forall|i: int| 0 <= i < pre.len() implies (#[trigger] pre[i]).3 >= 1 && pre[i].4 >= 1 && pre[i].5 >= 1 by {
            assert(pre[i] == runs[i]);
        }
        lemma_sum_grows(pre);
        assert(!targets_passed(sum_results(pre).1, max_mox, max_aga, max_lye));
    }
}


/// Two maps hold the same ids, and at each id potions with the same
/// ingredients, sale points and fail points; their names and rarities may
/// differ.
pub open spec fn maps_agree(b1: Map<i32, Potion>, b2: Map<i32, Potion>) -> bool {
    &&& forall|id: i32| #[trigger] b1.contains_key(id) <==> b2.contains_key(id)
    &&& forall|id: i32|
        #[trigger] b1.contains_key(id) ==> b1[id].inputs() == b2[id].inputs() && b1[id].outputs() == b2[id].outputs()
            && b1[id].fail_outputs() == b2[id].fail_outputs()
}

/// The nine potions of two layouts have the same ids and ingredients; their
/// names, rarities and points may differ.
pub open spec fn layouts_agree(s1: Seq<Potion>, s2: Seq<Potion>) -> bool {
    forall|k: int|
        0 <= k < LAYOUT_POTIONS ==> (#[trigger] s1[k]).id_range@ == s2[k].id_range@ && s1[k].inputs() == s2[k].inputs()
}

/// Filling orders reads of each potion only its points.
pub proof fn lemma_fill_agree(inv: Seq<i32>, orders: Seq<i32>, b1: Map<i32, Potion>, b2: Map<i32, Potion>)
    requires
        ids_known(inv, b1),
        maps_agree(b1, b2),
    ensures
        fill_orders(inv, orders, b1) == fill_orders(inv, orders, b2),
    decreases orders.len(),
{
    if orders.len() > 0 {
        let rest = orders.drop_last();
        lemma_fill_agree(inv, rest, b1, b2);
        lemma_fill_orders(inv, rest, b1);
        let prev = fill_orders(inv, rest, b1);
        lemma_sub_bag_known(prev.inv, inv, b1);
        let order = orders.last();
        prev.inv.index_of_first_ensures(order);
        if let Some(idx) = prev.inv.index_of_first(order) {
            assert(b1.contains_key(prev.inv[idx]));
        }
    }
}

/// A round reads of each potion only its points.
pub proof fn lemma_round_agree(inv: Seq<i32>, orders: Seq<i32>, b1: Map<i32, Potion>, b2: Map<i32, Potion>)
    requires
        inv.len() > 0,
        ids_known(inv, b1),
        maps_agree(b1, b2),
    ensures
        round_outcome(inv, orders, b1) == round_outcome(inv, orders, b2),
{
    lemma_fill_agree(inv, orders, b1, b2);
    lemma_fill_orders(inv, orders, b1);
    assert(b1.contains_key(inv[0]));
}

/// Rounds read of each potion only its points.
pub proof fn lemma_rounds_agree(inv: Seq<i32>, rounds: Seq<Seq<i32>>, b1: Map<i32, Potion>, b2: Map<i32, Potion>)
    requires
        ids_known(inv, b1),
        maps_agree(b1, b2),
        forall|i: int| 0 <= i < rounds.len() ==> (#[trigger] rounds[i]).len() == ORDERS_PER_ROUND,
        forall|k: int| 0 <= k < rounds.len() ==> (#[trigger] play_rounds(inv, rounds.take(k), b1)).0.len() > INVENTORY_KEEP,
    ensures
        play_rounds(inv, rounds, b1) == play_rounds(inv, rounds, b2),
    decreases rounds.len(),
{
    if rounds.len() > 0 {
        let n = rounds.len() - 1;
        let rest = rounds.drop_last();
        assert forall|k: int| 0 <= k < rest.len() implies (#[trigger] play_rounds(inv, rest.take(k), b1)).0.len() > INVENTORY_KEEP by {
            assert(rest.take(k) =~= rounds.take(k));
        }
        assert forall|i: int| 0 <= i < rest.len() implies (#[trigger] rest[i]).len() == ORDERS_PER_ROUND by {
            assert(rest[i] == rounds[i]);
        }
        lemma_rounds_agree(inv, rest, b1, b2);
        lemma_rounds_shrink(inv, rest, b1);
        assert(rounds.take(n) =~= rest);
        let before = play_rounds(inv, rest, b1).0;
        lemma_sub_bag_known(before, inv, b1);
        lemma_round_agree(before, rounds.last(), b1, b2);
    }
}

/// The ingredients of known ids read of each potion only its ingredients.
pub proof fn lemma_inputs_agree(ids: Seq<i32>, b1: Map<i32, Potion>, b2: Map<i32, Potion>)
    requires
        ids_known(ids, b1),
        maps_agree(b1, b2),
    ensures
        inputs_of_ids(ids, b1) == inputs_of_ids(ids, b2),
    decreases ids.len(),
{
    if ids.len() > 0 {
        assert(ids_known(ids.drop_last(), b1)) by {
            assert forall|k: int| 0 <= k < ids.drop_last().len() implies b1.contains_key(#[trigger] ids.drop_last()[k]) by {
                assert(ids.drop_last()[k] == ids[k]);
            }
        }
        lemma_inputs_agree(ids.drop_last(), b1, b2);
        assert(b1.contains_key(ids[ids.len() - 1]));
    }
}

/// The ingredients of the first `n` potions of two agreeing layouts match.
pub proof fn lemma_layout_inputs_agree(s1: Seq<Potion>, s2: Seq<Potion>, n: int)
    requires
        layout_wf(s1),
        layout_wf(s2),
        layouts_agree(s1, s2),
        0 <= n <= LAYOUT_POTIONS,
    ensures
        inputs_of(s1.take(n)) == inputs_of(s2.take(n)),
    decreases n,
{
    if n > 0 {
        lemma_layout_inputs_agree(s1, s2, n - 1);
        assert(s1.take(n).drop_last() =~= s1.take(n - 1));
        assert(s2.take(n).drop_last() =~= s2.take(n - 1));
        assert(s1[n - 1].inputs() == s2[n - 1].inputs());
    }
}

/// Names and rarities are never read, and the list of orderable potions
/// matters only through the orders drawn: two layouts and two maps that
/// agree on ids, ingredients and points admit the same games, with the same
/// results, when the same orders are drawn from either list.
pub proof fn law_names_and_rarities_unread(
    s1: Seq<Potion>,
    s2: Seq<Potion>,
    full: Seq<Potion>,
    full2: Seq<Potion>,
    b1: Map<i32, Potion>,
    b2: Map<i32, Potion>,
    rounds: Seq<Seq<i32>>,
)
    requires
        layout_wf(s1),
        layout_wf(s2),
        layouts_agree(s1, s2),
        maps_agree(b1, b2),
        ids_known(layout(s1), b1),
        valid_game(s1, full, b1, rounds),
        forall|i: int, j: int|
            0 <= i < rounds.len() && 0 <= j < ORDERS_PER_ROUND ==> drawable(full2, #[trigger] rounds[i][j]),
    ensures
        valid_game(s2, full2, b2, rounds),
        game_result(s1, b1, rounds) == game_result(s2, b2, rounds),
{
    assert(layout(s1) =~= layout(s2)) by {
        assert forall|k: int| 0 <= k < INVENTORY_SLOTS implies #[trigger] layout(s1)[k] == layout(s2)[k] by {
            if k < 24 && k % 4 == 3 {
                assert(s1[7].id_range@ == s2[7].id_range@);
                assert(s1[8].id_range@ == s2[8].id_range@);
            } else {
                let n = if k < 24 { k - k / 4 } else { k - 6 };
                assert(s1[n / 3].id_range@ == s2[n / 3].id_range@);
            }
        }
    }
    let init = layout(s1);
    assert forall|k: int| 0 <= k < rounds.len() implies (#[trigger] play_rounds(layout(s2), rounds.take(k), b2)).0.len() > INVENTORY_KEEP by {
        let pre = rounds.take(k);
        assert forall|j: int| 0 <= j < pre.len() implies (#[trigger] play_rounds(init, pre.take(j), b1)).0.len() > INVENTORY_KEEP by {
            assert(pre.take(j) =~= rounds.take(j));
        }
        assert forall|i: int| 0 <= i < pre.len() implies (#[trigger] pre[i]).len() == ORDERS_PER_ROUND by {
            assert(pre[i] == rounds[i]);
        }
        lemma_rounds_agree(init, pre, b1, b2);
        assert(play_rounds(init, rounds.take(k), b1).0.len() > INVENTORY_KEEP);
    }
    lemma_rounds_agree(init, rounds, b1, b2);
    lemma_rounds_shrink(init, rounds, b1);
    let left = play_rounds(init, rounds, b1).0;
    lemma_sub_bag_known(left, init, b1);
    lemma_inputs_agree(left, b1, b2);
    lemma_layout_inputs_agree(s1, s2, LAYOUT_POTIONS as int);
}

/// What an inventory simulation of a layout may return does not depend on
/// the names and rarities of the layout's potions or of the map's.
pub proof fn law_outcome_ignores_names(
    s1: Seq<Potion>,
    s2: Seq<Potion>,
    full: Seq<Potion>,
    b1: Map<i32, Potion>,
    b2: Map<i32, Potion>,
    r: Result<(i32, i32, i32, i32, i32, i32), crate::simulation::SimulationError>,
)
    requires
        layout_wf(s1),
        layout_wf(s2),
        layouts_agree(s1, s2),
        maps_agree(b1, b2),
        ids_known(layout(s1), b1),
        inventory_outcome(s1, full, b1, r),
    ensures
        inventory_outcome(s2, full, b2, r),
{
    let rounds = choose|rounds: Seq<Seq<i32>>| #[trigger] valid_game(s1, full, b1, rounds)
        && reported(game_result(s1, b1, rounds), r);
    law_names_and_rarities_unread(s1, s2, full, full, b1, b2, rounds);
    assert(valid_game(s2, full, b2, rounds));
}

} // verus!
