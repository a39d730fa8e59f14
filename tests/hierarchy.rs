use orbit_render::parents_form_forest;

#[test]
fn demo_hierarchy_is_a_forest() {
    let parents = vec![None, Some(0), Some(0), Some(0), Some(3), Some(0)];
    assert!(parents_form_forest(&parents));
}

#[test]
fn empty_and_rootless_lists() {
    assert!(parents_form_forest(&vec![]));
    assert!(parents_form_forest(&vec![None, None]));
}

#[test]
fn cycles_are_refused() {
    assert!(!parents_form_forest(&vec![Some(0)]));
    assert!(!parents_form_forest(&vec![Some(1), Some(0)]));
    assert!(!parents_form_forest(&vec![None, Some(2), Some(3), Some(1)]));
}

#[test]
fn dangling_parents_are_refused() {
    assert!(!parents_form_forest(&vec![None, Some(5)]));
}

#[test]
fn deep_chain_is_a_forest() {
    let mut parents = vec![None];
    for i in 0..50usize {
        parents.push(Some(i));
    }
    assert!(parents_form_forest(&parents));
}
