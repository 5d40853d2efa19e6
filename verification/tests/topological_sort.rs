use tb_ecs::topological_sort::TopologicalGraph;

#[test]
fn topological_sort_it_works() {
    let mut t = TopologicalGraph::new();
    t.add_dependency(2, 3);
    t.add_dependency(1, 3);
    t.add_dependency(1, 2);

    let assert_result = vec![3, 2, 1];
    let mut result = vec![];
    let mut visitor = t.visit();
    while let Some(e) = visitor.next() {
        let item = e.unwrap();
        result.push(item);
    }
    assert_eq!(result, assert_result);
}

#[test]
#[should_panic(expected = "CircularDependency")]
fn circular_dependency() {
    let mut t = TopologicalGraph::new();
    t.add_dependency(1, 2);
    t.add_dependency(1, 3);
    t.add_dependency(2, 3);
    t.add_dependency(3, 1);
    let mut visitor = t.visit();
    while let Some(e) = visitor.next() {
        let _item = e.unwrap();
    }
}

#[test]
fn add_item_and_clear() {
    let mut t = TopologicalGraph::new();
    t.add_item(7);
    assert!(t.contains_item(7));
    assert!(!t.contains_item(8));
    let mut visitor = t.visit();
    assert_eq!(visitor.next(), Some(Ok(7)));
    assert_eq!(visitor.next(), None);
    t.clear();
    assert!(!t.contains_item(7));
}

#[test]
fn non_inverse_edge_refused() {
    let mut t = TopologicalGraph::new();
    t.add_dependency(1, 2);
    t.add_dependency(2, 3);
    // 3 -> 1 would invert the implied 1 -> 3 chain, so it is refused and
    // the walk still succeeds.
    t.add_dependency_if_non_inverse(3, 1);
    assert!(t.is_dependent(&1, &3));
    assert!(!t.is_dependent(&3, &1));
    let mut result = vec![];
    let mut visitor = t.visit();
    while let Some(e) = visitor.next() {
        result.push(e.unwrap());
    }
    assert_eq!(result, vec![3, 2, 1]);
}

#[test]
fn is_dependent_transitive() {
    let mut t = TopologicalGraph::new();
    t.add_dependency(1, 2);
    t.add_dependency(2, 3);
    assert!(t.is_dependent(&1, &2));
    assert!(t.is_dependent(&1, &3));
    assert!(!t.is_dependent(&2, &1));
    assert!(!t.is_dependent(&1, &1));
}
