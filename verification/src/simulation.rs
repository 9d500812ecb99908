use std::collections::HashMap;
use vstd::prelude::*;
use crate::inventory::{Amounts, add3, all_fit, as_amounts, ids_known, inventory_outcome, layout, layout_wf, simulate_inventory};
use crate::order::{orderable, total_rarity};
use crate::potion::{Potion, RARITY_UNIT};

verus! {

/// Points that each inventory played is worth besides the points it earns.
pub const INVENTORY_BONUS: i64 = 60;

/// The totals of the inventories played with one layout until the targets
/// were passed.
#[derive(Debug, Clone, Copy, PartialEq, Eq)]
pub struct LayoutRun {
    pub mox_cost: i32,
    pub aga_cost: i32,
    pub lye_cost: i32,
    pub mox_points: i32,
    pub aga_points: i32,
    pub lye_points: i32,
    pub num_inventories: i32,
}

/// Why a run of a layout stopped before passing its targets.
#[derive(Debug, Clone, Copy, PartialEq, Eq)]
pub enum SimulationError {
    /// A total, or the count of inventories, would leave the range of `i32`.
    Overflow,
}

/// The costs and the points of a list of inventory results, summed.
pub open spec fn sum_results(runs: Seq<(i32, i32, i32, i32, i32, i32)>) -> (Amounts, Amounts)
    decreases runs.len(),
{
    if runs.len() == 0 {
        ((0, 0, 0), (0, 0, 0))
    } else {
        let (c, p) = sum_results(runs.drop_last());
        let (c2, p2) = as_amounts(runs.last());
        (add3(c, c2), add3(p, p2))
    }
}

/// The totals of a list of inventory results are summed field by field:
/// nothing for no result, and each further result adds its mox, aga and
/// lye costs to the mox, aga and lye cost totals, and its points likewise.
pub proof fn law_sum_results_fieldwise(runs: Seq<(i32, i32, i32, i32, i32, i32)>, r: (i32, i32, i32, i32, i32, i32))
    ensures
        sum_results(Seq::empty()) == ((0int, 0int, 0int), (0int, 0int, 0int)),
        ({
            let (c, p) = sum_results(runs);
            sum_results(runs.push(r)) == (
                (c.0 + r.0, c.1 + r.1, c.2 + r.2),
                (p.0 + r.3, p.1 + r.4, p.2 + r.5),
            )
        }),
{
    assert(runs.push(r).drop_last() =~= runs);
}

/// Every resource has more points than its target.
pub open spec fn targets_passed(points: Amounts, max_mox: i32, max_aga: i32, max_lye: i32) -> bool {
    points.0 > max_mox && points.1 > max_aga && points.2 > max_lye
}

/// `runs` are results of whole inventories of the layout, and none of its
/// proper prefixes passes the targets: the runs that a simulation plays
/// in turn while the targets are not yet passed.
pub open spec fn played_until(
    subset: Seq<Potion>,
    full: Seq<Potion>,
    by_id: Map<i32, Potion>,
    runs: Seq<(i32, i32, i32, i32, i32, i32)>,
    max_mox: i32,
    max_aga: i32,
    max_lye: i32,
) -> bool {
    &&& forall|i: int| 0 <= i < runs.len() ==> inventory_outcome(subset, full, by_id, Ok(#[trigger] runs[i]))
    &&& forall|k: int| 0 <= k < runs.len() ==> !targets_passed((#[trigger] sum_results(runs.take(k))).1, max_mox, max_aga, max_lye)
}

/// The totals of a run, as (costs, points).
pub open spec fn run_totals(run: LayoutRun) -> (Amounts, Amounts) {
    (
        (run.mox_cost as int, run.aga_cost as int, run.lye_cost as int),
        (run.mox_points as int, run.aga_points as int, run.lye_points as int),
    )
}

/// What a layout needs for inventories to be played with it.
pub open spec fn playable(subset: Seq<Potion>, full: Seq<Potion>, by_id: Map<i32, Potion>) -> bool {
    &&& layout_wf(subset)
    &&& orderable(full)
    &&& total_rarity(full) >= RARITY_UNIT
    &&& ids_known(layout(subset), by_id)
}

/// Plays whole inventories of the layout `potions_subset` (see
/// `simulate_inventory`) until every resource has more points than its
/// target, and returns the totals and how many inventories it took. On
/// success the totals are the sums of results of whole inventories, the
/// targets are passed, and they were not passed before the last inventory.
/// It fails with `Overflow` when an inventory's result, or the next total
/// or count, would leave `i32`. When the targets are passed before any
/// inventory, nothing is played and the layout is not looked at.
pub fn simulate_potion_order(
    potions_subset: &[Potion],
    potions_full_list: &[Potion],
    potions_by_id: &HashMap<i32, Potion>,
    max_mox_points: i32,
    max_aga_points: i32,
    max_lye_points: i32,
) -> (r: Result<LayoutRun, SimulationError>)
    requires
        targets_passed((0, 0, 0), max_mox_points, max_aga_points, max_lye_points)
            || playable(potions_subset@, potions_full_list@, potions_by_id@),
    ensures
        r matches Ok(run) ==> exists|runs: Seq<(i32, i32, i32, i32, i32, i32)>| {
            &&& #[trigger] played_until(potions_subset@, potions_full_list@, potions_by_id@, runs,
                max_mox_points, max_aga_points, max_lye_points)
            &&& sum_results(runs) == run_totals(run)
            &&& run.num_inventories == runs.len()
            &&& targets_passed(run_totals(run).1, max_mox_points, max_aga_points, max_lye_points)
        },
        r is Err ==> exists|runs: Seq<(i32, i32, i32, i32, i32, i32)>| {
            &&& #[trigger] played_until(potions_subset@, potions_full_list@, potions_by_id@, runs,
                max_mox_points, max_aga_points, max_lye_points)
            &&& (!all_fit(sum_results(runs)) || runs.len() > i32::MAX
                || (!targets_passed(sum_results(runs).1, max_mox_points, max_aga_points, max_lye_points)
                && inventory_outcome(potions_subset@, potions_full_list@, potions_by_id@,
                    Err(SimulationError::Overflow))))
        },
{
    let mut run = LayoutRun {
        mox_cost: 0,
        aga_cost: 0,
        lye_cost: 0,
        mox_points: 0,
        aga_points: 0,
        lye_points: 0,
        num_inventories: 0,
    };
    let ghost mut runs: Seq<(i32, i32, i32, i32, i32, i32)> = Seq::empty();
    assert(sum_results(runs) == run_totals(run));
    if run.mox_points > max_mox_points && run.aga_points > max_aga_points && run.lye_points > max_lye_points {
        assert(played_until(potions_subset@, potions_full_list@, potions_by_id@, runs,
            max_mox_points, max_aga_points, max_lye_points));
        return Ok(run);
    }
    while !(run.mox_points > max_mox_points && run.aga_points > max_aga_points
        && run.lye_points > max_lye_points)
        invariant
            playable(potions_subset@, potions_full_list@, potions_by_id@),
            forall|i: int| 0 <= i < runs.len() ==> inventory_outcome(potions_subset@, potions_full_list@, potions_by_id@, Ok(#[trigger] runs[i])),
            forall|k: int| 0 <= k < runs.len() ==> !targets_passed((#[trigger] sum_results(runs.take(k))).1, max_mox_points, max_aga_points, max_lye_points),
            sum_results(runs) == run_totals(run),
            run.num_inventories == runs.len(),
            0 <= run.num_inventories,
        decreases i32::MAX - run.num_inventories,
    {
        assert(played_until(potions_subset@, potions_full_list@, potions_by_id@, runs,
            max_mox_points, max_aga_points, max_lye_points));
        let outcome = simulate_inventory(potions_subset, potions_full_list, potions_by_id);
        let r = match outcome {
            Ok(r) => r,
            Err(e) => {
                return Err(e);
            },
        };
        let ghost new_runs = runs.push(r);
        proof {
            assert(new_runs.drop_last() =~= runs);
            assert forall|i: int| 0 <= i < new_runs.len() implies inventory_outcome(potions_subset@, potions_full_list@, potions_by_id@, Ok(#[trigger] new_runs[i])) by {
                if i < runs.len() {
                    assert(new_runs[i] == runs[i]);
                }
            }
            assert forall|k: int| 0 <= k < new_runs.len() implies !targets_passed((#[trigger] sum_results(new_runs.take(k))).1, max_mox_points, max_aga_points, max_lye_points) by {
                if k < runs.len() {
                    assert(new_runs.take(k) =~= runs.take(k));
                } else {
                    assert(new_runs.take(k) =~= runs);
                }
            }
            assert(played_until(potions_subset@, potions_full_list@, potions_by_id@, new_runs,
                max_mox_points, max_aga_points, max_lye_points));
        }
        let next = match (
            run.mox_cost.checked_add(r.0),
            run.aga_cost.checked_add(r.1),
            run.lye_cost.checked_add(r.2),
            run.mox_points.checked_add(r.3),
            run.aga_points.checked_add(r.4),
            run.lye_points.checked_add(r.5),
            run.num_inventories.checked_add(1),
        ) {
            (Some(mc), Some(ac), Some(lc), Some(mp), Some(ap), Some(lp), Some(n)) => LayoutRun {
                mox_cost: mc,
                aga_cost: ac,
                lye_cost: lc,
                mox_points: mp,
                aga_points: ap,
                lye_points: lp,
                num_inventories: n,
            },
            _ => {
                return Err(SimulationError::Overflow);
            },
        };
        run = next;
        proof {
            runs = new_runs;
        }
    }
    assert(played_until(potions_subset@, potions_full_list@, potions_by_id@, runs,
        max_mox_points, max_aga_points, max_lye_points));
    Ok(run)
}

/// The two terms of a layout's efficiency: the points earned plus
/// `INVENTORY_BONUS` per inventory, and the resources spent.
pub fn efficiency_terms(run: &LayoutRun) -> (r: (i64, i64))
    ensures
        r.0 == run.mox_points + run.aga_points + run.lye_points + INVENTORY_BONUS * run.num_inventories,
        r.1 == run.mox_cost + run.aga_cost + run.lye_cost,
{
    let earned: i64 = run.mox_points as i64 + run.aga_points as i64 + run.lye_points as i64
        + INVENTORY_BONUS * (run.num_inventories as i64);
    let spent: i64 = run.mox_cost as i64 + run.aga_cost as i64 + run.lye_cost as i64;
    (earned, spent)
}

} // verus!
