//! Server bookkeeping that does not depend on the simulation: handing out
//! controller ids.

use vstd::prelude::*;
use std::collections::HashMap;

verus! {

broadcast use vstd::std_specs::hash::group_hash_axioms;

/// Hands out the lowest id at or above `*next_controller_id` that no player
/// in `players` has, and moves `*next_controller_id` just past it. Some id
/// below `u64::MAX` at or above the starting point must be free.
pub fn allocate_controller_id<V>(players: &HashMap<u64, V>, next_controller_id: &mut u64) -> (id: u64)
    requires
        exists|free: u64| *old(next_controller_id) <= free < u64::MAX && !players@.contains_key(free),
    ensures
        *old(next_controller_id) <= id < u64::MAX,
        !players@.contains_key(id),
        forall|k: u64| *old(next_controller_id) <= k < id ==> players@.contains_key(k),
        *final(next_controller_id) == id + 1,
{
    let ghost start = *next_controller_id;
    while players.contains_key(&*next_controller_id)
        invariant
            start <= *next_controller_id,
            exists|free: u64| *next_controller_id <= free < u64::MAX && !players@.contains_key(free),
            forall|k: u64| start <= k < *next_controller_id ==> players@.contains_key(k),
        decreases u64::MAX - *next_controller_id,
    {
        *next_controller_id = *next_controller_id + 1;
    }
    let id: u64 = *next_controller_id;
    *next_controller_id = *next_controller_id + 1;
    id
}

} // verus!
