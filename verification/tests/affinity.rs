use entropy_production::affinity::shared_intermediates;

fn names(list: &[&str]) -> Vec<String> {
    list.iter().map(|n| n.to_string()).collect()
}

#[test]
fn shared_species_between_two_reactions() {
    // R1: A -> B, R2: B -> C
    let species = vec![names(&["A", "B"]), names(&["B", "C"])];
    let shared = shared_intermediates(&species);
    assert!(shared.contains_key(&"B".to_string()));
    assert!(!shared.contains_key(&"A".to_string()));
    assert!(!shared.contains_key(&"C".to_string()));
    assert_eq!(shared.get(&"B".to_string()), Some(&vec![0, 1]));
    assert_eq!(shared.keys.len(), 1);
}

#[test]
fn species_named_twice_in_one_reaction_is_not_shared() {
    let species = vec![names(&["A", "A"]), names(&["B"])];
    let shared = shared_intermediates(&species);
    assert!(!shared.contains_key(&"A".to_string()));
    assert!(!shared.contains_key(&"B".to_string()));
    assert_eq!(shared.keys.len(), 0);
}

#[test]
fn repeated_species_lists_each_reaction_once() {
    let species = vec![names(&["A", "A"]), names(&["B", "A"]), names(&["A"])];
    let shared = shared_intermediates(&species);
    assert_eq!(shared.get(&"A".to_string()), Some(&vec![0, 1, 2]));
    assert_eq!(shared.keys.len(), 1);
}

#[test]
fn test_coupled_system_shared_intermediates() {
    // R1: A -> B, R2: B -> C
    let species = vec![names(&["A", "B"]), names(&["B", "C"])];
    let shared = shared_intermediates(&species);
    assert!(shared.contains_key(&"B".to_string()));
}

#[test]
fn no_reactions_no_intermediates() {
    let species: Vec<Vec<String>> = vec![];
    assert_eq!(shared_intermediates(&species).keys.len(), 0);
}

#[test]
fn intermediate_in_three_reactions() {
    let species = vec![names(&["X", "Y"]), names(&["Y", "Z"]), names(&["Z", "Y", "W"])];
    let shared = shared_intermediates(&species);
    assert_eq!(shared.get(&"Y".to_string()), Some(&vec![0, 1, 2]));
    assert_eq!(shared.get(&"Z".to_string()), Some(&vec![1, 2]));
    assert_eq!(shared.keys.len(), 2);
}
