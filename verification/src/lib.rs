//! A simulator for laying out potions in an inventory and filling random
//! orders from it, with the bookkeeping of the resources spent and earned.

pub mod potion;
pub mod random;
pub mod order;
pub mod inventory;
pub mod simulation;
pub mod laws;
