use std::collections::HashSet;

use topo_sort::{CycleError, TopoSort};

#[test]
fn test_termination() {
    let mut topo_sort = TopoSort::with_capacity(4);
    topo_sort.insert(1, vec![2]);
    topo_sort.insert(2, vec![1]); // cycle
    topo_sort.insert(3, vec![4]);
    topo_sort.insert(4, vec![]);

    let v: Vec<Result<_, _>> = topo_sort.nodes().collect();
    assert_eq!(vec![Ok(&4), Ok(&3), Err(CycleError)], v);
}

#[test]
fn test_direct_cycle() {
    let mut topo_sort = TopoSort::with_capacity(2);
    topo_sort.insert(1, vec![2]);
    topo_sort.insert(2, vec![1]); // cycle

    assert!(topo_sort.try_vec().is_err())
}

#[test]
fn test_indirect_cycle() {
    let mut topo_sort = TopoSort::with_capacity(3);
    topo_sort.insert(1, vec![2, 3]);
    topo_sort.insert(2, vec![3]);
    topo_sort.insert(3, vec![1]); // cycle

    assert!(topo_sort.try_vec().is_err())
}

#[test]
fn test_good() {
    let mut topo_sort = TopoSort::with_capacity(5);
    topo_sort.insert("C", vec!["A", "B"]);
    topo_sort.insert("E", vec!["B", "C"]);
    topo_sort.insert("A", vec![]);
    topo_sort.insert("D", vec!["A", "C", "E"]);
    topo_sort.insert("B", vec!["A"]);

    assert_eq!(
        vec!["A", "B", "C", "E", "D"],
        topo_sort.try_owned_vec().unwrap()
    );
}

#[test]
fn test_good_with_no_depends() {
    let mut topo_sort = TopoSort::with_capacity(1);
    topo_sort.insert("C", vec![]);

    assert_eq!(vec!["C"], topo_sort.try_owned_vec().unwrap());
}

#[test]
fn test_good_with_excess_depends() {
    let mut topo_sort = TopoSort::with_capacity(5);
    topo_sort.insert("C", vec!["F", "A", "B", "F"]); // There is no 'F' - two of them
    topo_sort.insert("E", vec!["C", "B", "C"]); // Double "C" dependency
    topo_sort.insert("A", vec!["A", "G"]); // Self dependency + there is no 'G'
    topo_sort.insert("D", vec!["A", "C", "E"]);
    topo_sort.insert("B", vec!["B", "A"]); // Self dependency

    assert_eq!(
        vec!["A", "B", "C", "E", "D"],
        topo_sort.try_owned_vec().unwrap()
    );
}

#[test]
fn test_loop() {
    let mut topo_sort = TopoSort::with_capacity(5);
    topo_sort.insert("C", vec!["A", "B"]);
    topo_sort.insert("E", vec!["B", "C"]);
    topo_sort.insert("A", vec![]);
    topo_sort.insert("D", vec!["A", "C", "E"]);
    topo_sort.insert("B", vec!["A"]);

    let mut nodes = Vec::with_capacity(5);
    let mut iter = topo_sort.iter();
    while let Some(node) = iter.next() {
        // Must check for cycle errors before usage
        match node {
            Ok((node, _)) => nodes.push(*node),
            Err(_) => panic!("Unexpected cycle!"),
        }
    }

    assert_eq!(vec!["A", "B", "C", "E", "D"], nodes);
}

#[test]
fn test_consuming_iter() {
    let mut topo_sort = TopoSort::with_capacity(5);
    topo_sort.insert("C", vec!["A", "B"]);
    topo_sort.insert("E", vec!["B", "C"]);
    topo_sort.insert("A", vec![]);
    topo_sort.insert("D", vec!["A", "C", "E"]);
    topo_sort.insert("B", vec!["A"]);

    let mut nodes = Vec::with_capacity(5);
    let mut iter = topo_sort.into_iter();
    while let Some(node) = iter.next() {
        // Must check for cycle errors before usage
        match node {
            Ok((node, _)) => nodes.push(node),
            Err(_) => panic!("Unexpected cycle!"),
        }
    }

    assert_eq!(vec!["A", "B", "C", "E", "D"], nodes);
}

#[test]
fn test_misc() {
    let mut topo_sort = TopoSort::new();
    assert!(topo_sort.is_empty());

    topo_sort.insert_from_slice("A", &["B"]);
    assert_eq!(1, topo_sort.len());

    let set = HashSet::from_iter(vec!["B", "D"]);
    topo_sort.insert_from_set("C", set.clone());

    assert_eq!(set, *topo_sort.get(&"C").unwrap());
    assert_eq!(set, *topo_sort.index(&"C"));

    assert_eq!(None, topo_sort.get(&"D"));
}
