//! Free and constrained forces of a linear non-equilibrium system.
//!
//! Some forces are fixed by boundary conditions (constrained); the others are
//! free and settle where entropy production is least.

use vstd::prelude::*;
pub use crate::names::{name_position, names_contain};
use crate::names::lemma_push_larger;

verus! {

/// The positions, in increasing order, of the forces whose name is not among
/// the constrained ones.
pub fn free_indices(force_names: &Vec<String>, constrained: &Vec<String>) -> (free: Vec<usize>)
    ensures
        forall|j: int| 0 <= j < free.len() ==> #[trigger] free@[j] < force_names.len(),
        forall|j: int, k: int| 0 <= j < k < free.len() ==> #[trigger] free@[j] < #[trigger] free@[k],
        forall|i: int|
            0 <= i < force_names.len() ==> (!names_contain(constrained@, #[trigger] force_names@[i]@)
                <==> free@.contains(i as usize)),
{
    let mut free: Vec<usize> = Vec::new();
    let mut i: usize = 0;
    while i < force_names.len()
        invariant
            i <= force_names.len(),
            forall|j: int| 0 <= j < free.len() ==> #[trigger] free@[j] < i,
            forall|j: int, k: int| 0 <= j < k < free.len() ==> #[trigger] free@[j] < #[trigger] free@[k],
            forall|m: int|
                0 <= m < i ==> (!names_contain(constrained@, #[trigger] force_names@[m]@) <==> free@.contains(
                    m as usize,
                )),
        decreases force_names.len() - i,
    {
        let ghost prev = free@;
        let is_constrained = name_position(constrained, &force_names[i]).is_some();
        if !is_constrained {
            free.push(i);
        }
        assert forall|m: int| 0 <= m < i + 1 implies (!names_contain(constrained@, #[trigger] force_names@[m]@)
            <==> free@.contains(m as usize)) by {
            if free@ != prev {
                lemma_push_larger(prev, i, m as usize);
            }
        }
        i = i + 1;
    }
    free
}

} // verus!
