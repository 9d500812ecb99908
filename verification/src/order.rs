use vstd::prelude::*;
use crate::potion::{Potion, RARITY_UNIT};
use crate::random::{gen_below, thread_rng};

verus! {

/// The sum of the rarities of `potions`.
pub open spec fn total_rarity(potions: Seq<Potion>) -> int
    decreases potions.len(),
{
    if potions.len() == 0 {
        0
    } else {
        potions[0].rarity + total_rarity(potions.drop_first())
    }
}

/// Every potion of the list that is ever ordered has at least three ids,
/// one for each third of its stretch of draws.
pub open spec fn orderable(potions: Seq<Potion>) -> bool {
    forall|k: int| 0 <= k < potions.len() && (#[trigger] potions[k]).rarity > 0 ==> potions[k].id_range@.len() >= 3
}

/// The order that the draw `target` stands for. The draws run over
/// `0 .. 3 * total_rarity(potions)`: each potion owns a stretch three times
/// its rarity, in list order, and each third of that stretch orders one of
/// its three ids. `None` when `target` lies past every stretch.
pub open spec fn order_for(potions: Seq<Potion>, target: int) -> Option<i32>
    decreases potions.len(),
{
    if potions.len() == 0 {
        None
    } else {
        let p = potions[0];
        let r = p.rarity as int;
        if target < 3 * r {
            if target < r {
                Some(p.id_range@[0])
            } else if target < 2 * r {
                Some(p.id_range@[1])
            } else {
                Some(p.id_range@[2])
            }
        } else {
            order_for(potions.drop_first(), target - 3 * r)
        }
    }
}

/// `id` is one of the ids of some potion of the list.
pub open spec fn is_potion_id(potions: Seq<Potion>, id: i32) -> bool {
    exists|k: int| 0 <= k < potions.len() && (#[trigger] potions[k]).id_range@.contains(id)
}

/// `id` is an order that a draw in `0 .. 3 * RARITY_UNIT` can give.
pub open spec fn drawable(potions: Seq<Potion>, id: i32) -> bool {
    exists|t: int| 0 <= t < 3 * RARITY_UNIT && order_for(potions, t) == Some(id)
}

/// A draw below three times the total rarity gives an order, and every order
/// given is an id of one of the potions.
pub proof fn law_draws_give_orders(potions: Seq<Potion>, target: int)
    requires
        orderable(potions),
        0 <= target,
    ensures
        target < 3 * total_rarity(potions) ==> order_for(potions, target) is Some,
        order_for(potions, target) matches Some(id) ==> is_potion_id(potions, id),
    decreases potions.len(),
{
    if potions.len() > 0 {
        let rest = potions.drop_first();
        assert(orderable(rest)) by {
            assert forall|k: int| 0 <= k < rest.len() && (#[trigger] rest[k]).rarity > 0 implies rest[k].id_range@.len() >= 3 by {
                assert(rest[k] == potions[k + 1]);
            }
        }
        let r = potions[0].rarity as int;
        if target >= 3 * r {
            law_draws_give_orders(rest, target - 3 * r);
            if let Some(id) = order_for(rest, target - 3 * r) {
                let k = choose|k: int| 0 <= k < rest.len() && (#[trigger] rest[k]).id_range@.contains(id);
                assert(potions[k + 1] == rest[k]);
            }
        } else {
            assert(potions[0].id_range@.contains(potions[0].id_range@[0]));
            assert(potions[0].id_range@.contains(potions[0].id_range@[1]));
            assert(potions[0].id_range@.contains(potions[0].id_range@[2]));
        }
    }
}

/// The order that the draw `target` stands for (see `order_for`).
pub fn select_order(potions: &[Potion], target: u64) -> (id: i32)
    requires
        orderable(potions@),
        target < 3 * total_rarity(potions@),
    ensures
        order_for(potions@, target as int) == Some(id),
        is_potion_id(potions@, id),
{
    proof {
        law_draws_give_orders(potions@, target as int);
    }
    let mut t: u64 = target;
    let mut i: usize = 0;
    assert(potions@.skip(0) =~= potions@);
    while i < potions.len()
        invariant
            i <= potions@.len(),
            orderable(potions@),
            order_for(potions@, target as int) == order_for(potions@.skip(i as int), t as int),
            t < 3 * total_rarity(potions@.skip(i as int)),
        decreases potions@.len() - i,
    {
        let ghost rest = potions@.skip(i as int);
        assert(rest[0] == potions@[i as int]);
        assert(rest.drop_first() =~= potions@.skip(i + 1));
        let p = &potions[i];
        let r: u64 = p.rarity as u64;
        if t < 3 * r {
            assert(p.rarity > 0);
            if t < r {
                return p.id_range[0];
            } else if t < 2 * r {
                return p.id_range[1];
            } else {
                return p.id_range[2];
            }
        }
        t = t - 3 * r;
        i = i + 1;
    }
    assert(potions@.skip(i as int).len() == 0);
    assert(false);
    0
}

/// Draws one order at random, as a customer would place it: a draw in
/// `0 .. 3 * RARITY_UNIT`, turned into an order by `select_order`.
pub fn get_order(potions: &[Potion]) -> (id: i32)
    requires
        orderable(potions@),
        total_rarity(potions@) >= RARITY_UNIT,
    ensures
        drawable(potions@, id),
        is_potion_id(potions@, id),
{
    let mut rng = thread_rng();
    let target = gen_below(&mut rng, 3 * (RARITY_UNIT as u64));
    let id = select_order(potions, target);
    assert(order_for(potions@, target as int) == Some(id));
    id
}


/// Potions after the one a draw selects are never read: if a draw gives an
/// order from the first `n` potions, it gives the same order from the whole
/// list.
pub proof fn law_later_potions_unread(potions: Seq<Potion>, n: int, target: int)
    requires
        0 <= n <= potions.len(),
        order_for(potions.take(n), target) is Some,
    ensures
        order_for(potions, target) == order_for(potions.take(n), target),
    decreases n,
{
    let r = potions[0].rarity as int;
    assert(potions.take(n).len() > 0);
    assert(potions.take(n)[0] == potions[0]);
    if target >= 3 * r {
        assert(potions.take(n).drop_first() =~= potions.drop_first().take(n - 1));
        law_later_potions_unread(potions.drop_first(), n - 1, target - 3 * r);
    }
}

/// The potion that a draw selects is one that is ordered at all: the order
/// is an id of some potion `k` with a positive rarity, whose stretch of
/// draws holds the draw.
pub proof fn law_selected_is_ordered(potions: Seq<Potion>, target: int)
    requires
        orderable(potions),
        0 <= target,
        order_for(potions, target) is Some,
    ensures
        exists|k: int|
            0 <= k < potions.len() && (#[trigger] potions[k]).rarity > 0 && 3 * total_rarity(potions.take(k)) <= target
                < 3 * total_rarity(potions.take(k)) + 3 * potions[k].rarity && potions[k].id_range@.contains(
                order_for(potions, target).unwrap(),
            ),
    decreases potions.len(),
{
    let r = potions[0].rarity as int;
    assert(potions.take(0) =~= Seq::<Potion>::empty());
    assert(total_rarity(potions.take(0)) == 0);
    if target < 3 * r {
        let id = order_for(potions, target).unwrap();
        assert(potions[0].rarity > 0);
        assert(potions[0].id_range@.len() >= 3);
        if target < r {
            assert(potions[0].id_range@[0] == id);
        } else if target < 2 * r {
            assert(potions[0].id_range@[1] == id);
        } else {
            assert(potions[0].id_range@[2] == id);
        }
        assert(potions[0].id_range@.contains(id));
    } else {
        let rest = potions.drop_first();
        assert(orderable(rest)) by {
            assert forall|k: int| 0 <= k < rest.len() && (#[trigger] rest[k]).rarity > 0 implies rest[k].id_range@.len() >= 3 by {
                assert(rest[k] == potions[k + 1]);
            }
        }
        law_selected_is_ordered(rest, target - 3 * r);
        let k = choose|k: int|
            0 <= k < rest.len() && (#[trigger] rest[k]).rarity > 0 && 3 * total_rarity(rest.take(k)) <= target - 3 * r
                < 3 * total_rarity(rest.take(k)) + 3 * rest[k].rarity && rest[k].id_range@.contains(
                order_for(rest, target - 3 * r).unwrap(),
            );
        assert(rest[k] == potions[k + 1]);
        assert(potions.take(k + 1).drop_first() =~= rest.take(k));
        assert(potions.take(k + 1)[0] == potions[0]);
        assert(total_rarity(potions.take(k + 1)) == r + total_rarity(rest.take(k)));
    }
}

} // verus!
