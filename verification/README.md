# potion_sim

A verified simulator for choosing how to lay out potions in a 27-slot
inventory so that random customer orders reach given resource targets
(mox, aga, lye) in as few inventories as possible.

- `src/potion.rs`: potion recipes, their ids, and how ingredients scale into
  points (a multiplier is a double held as its exact value, and the product
  is rounded as double arithmetic does; rarities are counted in millionths).
- `src/random.rs`: the two calls into `rand` that the library makes.
- `src/order.rs`: how a random draw becomes an order.
- `src/inventory.rs`: the layout, one round of orders, and a whole inventory.
- `src/simulation.rs`: inventories played until the targets are passed.
- `src/laws.rs`: properties of the game proved over the specifications.
- `app/main.rs`: the parallel search over layouts, with its averages and its
  ranking in floating point, and all printing.
