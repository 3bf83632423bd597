//! Load-balancing decision of the server front-end.
//!
//! The accept loop itself (listener, threads, channels) lives with the
//! caller; the library decides which pool a new connection goes to: the one
//! with the fewest clients, the first of them on ties.

use vstd::prelude::*;

verus! {

/// Index of the least populated pool: its count is minimal, and every pool
/// before it is strictly fuller, so ties go to the first.
pub fn least_populated_pool(nb_clients: &Vec<usize>) -> (r: usize)
    requires
        nb_clients@.len() >= 1,
    ensures
        r < nb_clients@.len(),
        forall|i: int| 0 <= i < nb_clients@.len() ==> nb_clients@[r as int] <= nb_clients@[i],
        forall|i: int| 0 <= i < r ==> nb_clients@[i] > nb_clients@[r as int],
{
    let mut min = nb_clients[0];
    let mut idx: usize = 0;
    let mut i: usize = 1;
    while i < nb_clients.len()
        invariant
            1 <= i <= nb_clients@.len(),
            idx < i,
            min == nb_clients@[idx as int],
            forall|j: int| 0 <= j < i ==> nb_clients@[j] >= min,
            forall|j: int| 0 <= j < idx ==> nb_clients@[j] > min,
        decreases nb_clients@.len() - i,
    {
        let nb = nb_clients[i];
        if nb < min {
            min = nb;
            idx = i;
        }
        i = i + 1;
    }
    idx
}

} // verus!
