//! Searching sequences of names, and the increasing index lists that the
//! filters over them build.

use vstd::prelude::*;

verus! {

/// Whether some string of `names` is `name`.
pub open spec fn names_contain(names: Seq<String>, name: Seq<char>) -> bool {
    exists|j: int| 0 <= j < names.len() && #[trigger] names[j]@ == name
}

/// The first position of `name` in `names`, if it occurs.
pub fn name_position(names: &Vec<String>, name: &String) -> (pos: Option<usize>)
    ensures
        pos is None <==> !names_contain(names@, name@),
        pos matches Some(p) ==> p < names.len() && names@[p as int]@ == name@ && forall|j: int|
            0 <= j < p ==> #[trigger] names@[j]@ != name@,
{
    let mut j: usize = 0;
    while j < names.len()
        invariant
            j <= names.len(),
            forall|i: int| 0 <= i < j ==> #[trigger] names@[i]@ != name@,
        decreases names.len() - j,
    {
        if names[j] == *name {
            assert(names@[j as int]@ == name@);
            return Some(j);
        }
        j = j + 1;
    }
    None
}

/// Appending an index larger than all before it adds exactly that index.
pub proof fn lemma_push_larger(prev: Seq<usize>, i: usize, m: usize)
    requires
        forall|j: int| 0 <= j < prev.len() ==> #[trigger] prev[j] < i,
    ensures
        prev.push(i).contains(m) <==> prev.contains(m) || m == i,
{
    let next = prev.push(i);
    if next.contains(m) {
        let j = choose|j: int| 0 <= j < next.len() && next[j] == m;
        if j < prev.len() {
            assert(prev[j] == m);
        }
    }
    if prev.contains(m) {
        let j = choose|j: int| 0 <= j < prev.len() && prev[j] == m;
        assert(next[j] == m);
    }
    if m == i {
        assert(next[prev.len() as int] == m);
    }
}

} // verus!
