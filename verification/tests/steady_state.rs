use entropy_production::steady_state::{free_indices, name_position};

fn names(list: &[&str]) -> Vec<String> {
    list.iter().map(|n| n.to_string()).collect()
}

#[test]
fn free_forces_are_the_unconstrained_ones() {
    let forces = names(&["X1", "X2", "X3"]);
    assert_eq!(free_indices(&forces, &names(&["X1"])), vec![1, 2]);
    assert_eq!(free_indices(&forces, &names(&["X2", "X9"])), vec![0, 2]);
    assert_eq!(free_indices(&forces, &names(&[])), vec![0, 1, 2]);
    assert_eq!(free_indices(&forces, &names(&["X3", "X1", "X2"])), Vec::<usize>::new());
}

#[test]
fn position_is_first_occurrence() {
    let forces = names(&["A", "B", "A"]);
    assert_eq!(name_position(&forces, &"A".to_string()), Some(0));
    assert_eq!(name_position(&forces, &"B".to_string()), Some(1));
    assert_eq!(name_position(&forces, &"C".to_string()), None);
    assert_eq!(name_position(&names(&[]), &"A".to_string()), None);
}
