//! Species shared between the reactions of a coupled reaction system.
//!
//! A species that takes part in more than one reaction couples them: it is an
//! intermediate produced by one reaction and consumed by another.

use vstd::prelude::*;
use crate::grouping::{keep_larger, push_into, Grouping};

verus! {

/// The group of `k` in `m`, empty when `k` has none.
pub open spec fn group_or_empty<V>(m: Map<Seq<char>, Seq<V>>, k: Seq<char>) -> Seq<V> {
    if m.contains_key(k) { m[k] } else { Seq::empty() }
}

/// `m` with reaction index `i` noted under species `k`, unless it is already
/// the last index noted there.
pub open spec fn note_reaction(m: Map<Seq<char>, Seq<usize>>, k: Seq<char>, i: usize) -> Map<Seq<char>, Seq<usize>> {
    if m.contains_key(k) && m[k].len() > 0 && m[k].last() == i {
        m
    } else {
        push_into(m, k, i)
    }
}

/// `m` with reaction index `i` noted under each species name in `names`.
pub open spec fn add_reaction(m: Map<Seq<char>, Seq<usize>>, names: Seq<String>, i: usize) -> Map<Seq<char>, Seq<usize>>
    decreases names.len(),
{
    if names.len() == 0 {
        m
    } else {
        note_reaction(add_reaction(m, names.drop_last(), i), names.last()@, i)
    }
}

/// For every species name, the indices of the reactions it takes part in,
/// each once, in increasing order.
pub open spec fn occurrence_map(reactions: Seq<Seq<String>>) -> Map<Seq<char>, Seq<usize>>
    decreases reactions.len(),
{
    if reactions.len() == 0 {
        Map::empty()
    } else {
        add_reaction(occurrence_map(reactions.drop_last()), reactions.last(), (reactions.len() - 1) as usize)
    }
}

/// How many times the species `k` occurs in `names`.
pub open spec fn species_count(names: Seq<String>, k: Seq<char>) -> nat
    decreases names.len(),
{
    if names.len() == 0 {
        0
    } else {
        species_count(names.drop_last(), k) + if names.last()@ == k { 1nat } else { 0nat }
    }
}

/// How many of the reactions the species `k` takes part in.
pub open spec fn reaction_count(reactions: Seq<Seq<String>>, k: Seq<char>) -> nat
    decreases reactions.len(),
{
    if reactions.len() == 0 {
        0
    } else {
        reaction_count(reactions.drop_last(), k) + if species_count(reactions.last(), k) > 0 {
            1nat
        } else {
            0nat
        }
    }
}

/// The species names of each reaction, as views.
pub open spec fn names_view(species: Seq<Vec<String>>) -> Seq<Seq<String>> {
    species.map_values(|names: Vec<String>| names@)
}

/// For every species that takes part in more than one reaction, the indices
/// of those reactions, each once, in increasing order. `species[i]` holds the
/// species names of reaction `i`.
pub fn shared_intermediates(species: &Vec<Vec<String>>) -> (shared: Grouping<usize>)
    ensures
        shared.wf(),
        shared.as_map() == keep_larger(occurrence_map(names_view(species@)), 1),
{
    let ghost rs = names_view(species@);
    let mut all: Grouping<usize> = Grouping::new();
    let mut i: usize = 0;
    while i < species.len()
        invariant
            i <= species.len(),
            rs == names_view(species@),
            all.wf(),
            all.as_map() == occurrence_map(rs.take(i as int)),
        decreases species.len() - i,
    {
        let names = &species[i];
        let ghost start = all.as_map();
        let mut j: usize = 0;
        while j < names.len()
            invariant
                j <= names.len(),
                all.wf(),
                all.as_map() == add_reaction(start, names@.take(j as int), i),
            decreases names.len() - j,
        {
            let noted = match all.get(&names[j]) {
                Some(group) => group.len() > 0 && group[group.len() - 1] == i,
                None => false,
            };
            if !noted {
                all.add(&names[j], i);
            }
            assert(names@.take(j + 1).drop_last() =~= names@.take(j as int));
            j = j + 1;
        }
        assert(names@.take(names.len() as int) =~= names@);
        assert(rs.take(i + 1).drop_last() =~= rs.take(i as int));
        assert(rs.take(i + 1).last() == names@);
        i = i + 1;
    }
    assert(rs.take(species.len() as int) =~= rs);
    all.retain_larger(1)
}

proof fn lemma_add_reaction(m: Map<Seq<char>, Seq<usize>>, names: Seq<String>, i: usize, k: Seq<char>)
    requires
        forall|j: int| 0 <= j < group_or_empty(m, k).len() ==> #[trigger] group_or_empty(m, k)[j] < i,
    ensures
        add_reaction(m, names, i).contains_key(k) <==> m.contains_key(k) || species_count(names, k) > 0,
        group_or_empty(add_reaction(m, names, i), k) == group_or_empty(m, k) + if species_count(names, k) > 0 {
            seq![i]
        } else {
            Seq::<usize>::empty()
        },
    decreases names.len(),
{
    if names.len() > 0 {
        let prefix = names.drop_last();
        lemma_add_reaction(m, prefix, i, k);
        let g = group_or_empty(m, k);
        let mid = add_reaction(m, prefix, i);
        if names.last()@ == k {
            if species_count(prefix, k) > 0 {
                assert(group_or_empty(mid, k) =~= g.push(i));
            } else {
                assert(group_or_empty(mid, k) =~= g);
                if g.len() > 0 {
                    assert(g[g.len() - 1] < i);
                }
                assert(g + seq![i] =~= g.push(i));
            }
        }
    }
}

/// The reaction indices listed under `k` are increasing, name each reaction
/// in which `k` takes part and no other, and `k` is listed exactly when it
/// takes part in some reaction.
pub proof fn lemma_occurrences(reactions: Seq<Seq<String>>, k: Seq<char>)
    requires
        reactions.len() <= usize::MAX,
    ensures
        occurrence_map(reactions).contains_key(k) <==> reaction_count(reactions, k) > 0,
        group_or_empty(occurrence_map(reactions), k).len() == reaction_count(reactions, k),
        forall|j: int|
            0 <= j < group_or_empty(occurrence_map(reactions), k).len() ==> #[trigger] group_or_empty(
                occurrence_map(reactions),
                k,
            )[j] < reactions.len(),
        forall|j1: int, j2: int|
            0 <= j1 < j2 < group_or_empty(occurrence_map(reactions), k).len() ==> #[trigger] group_or_empty(
                occurrence_map(reactions),
                k,
            )[j1] < #[trigger] group_or_empty(occurrence_map(reactions), k)[j2],
        forall|r: int|
            0 <= r < reactions.len() ==> (species_count(#[trigger] reactions[r], k) > 0 <==> group_or_empty(
                occurrence_map(reactions),
                k,
            ).contains(r as usize)),
    decreases reactions.len(),
{
    if reactions.len() > 0 {
        let prefix = reactions.drop_last();
        let n = (reactions.len() - 1) as usize;
        lemma_occurrences(prefix, k);
        let before = group_or_empty(occurrence_map(prefix), k);
        assert(forall|j: int| 0 <= j < before.len() ==> #[trigger] before[j] < n);
        lemma_add_reaction(occurrence_map(prefix), reactions.last(), n, k);
        let after = group_or_empty(occurrence_map(reactions), k);
        let present = species_count(reactions.last(), k) > 0;
        assert(after == before + if present { seq![n] } else { Seq::<usize>::empty() });
        assert forall|j: int| 0 <= j < after.len() implies #[trigger] after[j] < reactions.len() by {
            if j < before.len() {
                assert(after[j] == before[j]);
            }
        }
        assert forall|j1: int, j2: int| 0 <= j1 < j2 < after.len() implies #[trigger] after[j1]
            < #[trigger] after[j2] by {
            assert(after[j1] == before[j1]);
            if j2 < before.len() {
                assert(after[j2] == before[j2]);
            }
        }
        assert forall|r: int| 0 <= r < reactions.len() implies (species_count(#[trigger] reactions[r], k) > 0
            <==> after.contains(r as usize)) by {
            if after.contains(r as usize) {
                let j = choose|j: int| 0 <= j < after.len() && after[j] == r as usize;
                if j < before.len() {
                    assert(before[j] == r as usize);
                    assert(before.contains(r as usize));
                }
            }
            if r < n {
                assert(reactions[r] == prefix[r]);
                if before.contains(r as usize) {
                    let j = choose|j: int| 0 <= j < before.len() && before[j] == r as usize;
                    assert(after[j] == r as usize);
                }
            } else {
                assert(reactions[r] == reactions.last());
                if present {
                    assert(after[before.len() as int] == n);
                } else if after.contains(r as usize) {
                    let j = choose|j: int| 0 <= j < after.len() && after[j] == r as usize;
                    assert(before[j] < n);
                }
            }
        }
    }
}

/// A species is reported as shared exactly when it takes part in at least
/// two different reactions.
pub proof fn lemma_shared_exactly_when_in_two_reactions(reactions: Seq<Seq<String>>, k: Seq<char>)
    requires
        reactions.len() <= usize::MAX,
    ensures
        keep_larger(occurrence_map(reactions), 1).contains_key(k) <==> reaction_count(reactions, k) >= 2,
{
    lemma_occurrences(reactions, k);
}


/// A species reported as shared keeps its full list: one entry per reaction
/// it takes part in, naming each of those reactions and no other.
pub proof fn lemma_shared_lists_complete(reactions: Seq<Seq<String>>, k: Seq<char>)
    requires
        reactions.len() <= usize::MAX,
    ensures
        keep_larger(occurrence_map(reactions), 1).contains_key(k) ==> {
            let list = keep_larger(occurrence_map(reactions), 1)[k];
            &&& list.len() == reaction_count(reactions, k)
            &&& forall|r: int|
                0 <= r < reactions.len() ==> (species_count(#[trigger] reactions[r], k) > 0 <==> list.contains(
                    r as usize,
                ))
        },
{
    lemma_occurrences(reactions, k);
}

} // verus!
