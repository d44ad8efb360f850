use std::collections::{HashMap, HashSet};

use topo_sort::{CycleError, TopoSort};

fn position(order: &[&u32], node: u32) -> usize {
    order.iter().position(|n| **n == node).unwrap()
}

/// Two chains that share their ends: 1 <- 2 <- 4 and 1 <- 3 <- 4, beside a lone 5.
fn diamond() -> TopoSort<u32> {
    let mut topo_sort = TopoSort::new();
    topo_sort.insert(4, vec![2, 3]);
    topo_sort.insert(2, vec![1]);
    topo_sort.insert(3, vec![1]);
    topo_sort.insert(1, vec![]);
    topo_sort.insert(5, vec![]);
    topo_sort
}

#[test]
fn dependencies_come_first() {
    let topo_sort = diamond();
    let order = topo_sort.try_vec().unwrap();
    assert!(position(&order, 1) < position(&order, 2));
    assert!(position(&order, 1) < position(&order, 3));
    assert!(position(&order, 2) < position(&order, 4));
    assert!(position(&order, 3) < position(&order, 4));
}

#[test]
fn every_node_comes_once() {
    let topo_sort = diamond();
    let order = topo_sort.try_vec().unwrap();
    assert_eq!(5, order.len());
    let seen: HashSet<u32> = order.iter().map(|n| **n).collect();
    assert_eq!(HashSet::from_iter(vec![1, 2, 3, 4, 5]), seen);
}

#[test]
fn cycle_is_reported_once_and_last() {
    let mut topo_sort = TopoSort::new();
    topo_sort.insert(1, vec![2]);
    topo_sort.insert(2, vec![3]);
    topo_sort.insert(3, vec![1]);
    topo_sort.insert(10, vec![]);
    topo_sort.insert(11, vec![10]);

    let results = topo_sort.nodes().collect();
    assert_eq!(vec![Ok(&10), Ok(&11), Err(CycleError)], results);

    let mut nodes = topo_sort.nodes();
    assert_eq!(Some(Ok(&10)), nodes.next());
    assert_eq!(Some(Ok(&11)), nodes.next());
    assert_eq!(Some(Err(CycleError)), nodes.next());
    assert_eq!(None, nodes.next());
    assert_eq!(None, nodes.next());
}

#[test]
fn node_that_waits_for_a_cycle_is_not_yielded() {
    let mut topo_sort = TopoSort::new();
    topo_sort.insert(1, vec![2]);
    topo_sort.insert(2, vec![1]);
    topo_sort.insert(3, vec![1]);

    let results = topo_sort.nodes().collect();
    assert_eq!(vec![Err(CycleError)], results);
    assert_eq!(Err(CycleError), topo_sort.try_vec());
    assert_eq!(Err(CycleError), topo_sort.try_owned_vec());
}

#[test]
fn dangling_dependency_changes_nothing() {
    let mut plain = TopoSort::new();
    plain.insert(1, vec![]);
    plain.insert(2, vec![1]);
    plain.insert(3, vec![2]);

    let mut dangling = TopoSort::new();
    dangling.insert(1, vec![7]);
    dangling.insert(2, vec![1, 8]);
    dangling.insert(3, vec![9, 2]);

    assert_eq!(vec![1, 2, 3], plain.try_owned_vec().unwrap());
    assert_eq!(vec![1, 2, 3], dangling.try_owned_vec().unwrap());
}

#[test]
fn self_dependency_changes_nothing() {
    let mut topo_sort = TopoSort::new();
    topo_sort.insert(1, vec![1]);
    topo_sort.insert(2, vec![2, 1]);
    topo_sort.insert(3, vec![2, 3]);

    assert_eq!(vec![1, 2, 3], topo_sort.try_owned_vec().unwrap());
}

#[test]
fn store_can_be_sorted_again() {
    let topo_sort = diamond();
    for _ in 0..3 {
        let order = topo_sort.try_vec().unwrap();
        assert_eq!(5, order.len());
        assert!(position(&order, 1) < position(&order, 2));
        assert!(position(&order, 1) < position(&order, 3));
        assert!(position(&order, 2) < position(&order, 4));
        assert!(position(&order, 3) < position(&order, 4));
    }
    assert_eq!(5, topo_sort.len());
}

#[test]
fn consuming_hands_out_every_entry_once() {
    let topo_sort = diamond();
    let results = topo_sort.into_iter().collect();
    assert_eq!(5, results.len());

    let mut handed_out: HashMap<u32, HashSet<u32>> = HashMap::new();
    for result in results {
        let (node, depends) = result.unwrap();
        assert!(handed_out.insert(node, depends).is_none());
    }
    assert_eq!(HashSet::from_iter(vec![2, 3]), handed_out[&4]);
    assert_eq!(HashSet::from_iter(vec![1]), handed_out[&2]);
    assert_eq!(HashSet::from_iter(vec![1]), handed_out[&3]);
    assert_eq!(HashSet::new(), handed_out[&1]);
    assert_eq!(HashSet::new(), handed_out[&5]);
}

#[test]
fn consuming_reports_a_cycle() {
    let mut topo_sort = TopoSort::new();
    topo_sort.insert(1, vec![2]);
    topo_sort.insert(2, vec![1]);
    topo_sort.insert(3, vec![]);

    let mut iter = topo_sort.into_iter();
    assert_eq!((3, Some(3)), iter.size_hint());
    assert_eq!(Some(Ok((3, HashSet::new()))), iter.next());
    assert_eq!((2, Some(2)), iter.size_hint());
    assert_eq!(Some(Err(CycleError)), iter.next());
    assert_eq!((0, Some(0)), iter.size_hint());
    assert_eq!(None, iter.next());
}

#[test]
fn pairs_carry_the_declared_dependencies() {
    let mut topo_sort = TopoSort::new();
    topo_sort.insert("b", vec!["a", "missing", "b"]);
    topo_sort.insert("a", vec![]);

    let results = topo_sort.iter().collect();
    assert_eq!(2, results.len());
    let (first, first_depends) = results[0].unwrap();
    let (second, second_depends) = results[1].unwrap();
    assert_eq!("a", *first);
    assert!(first_depends.is_empty());
    assert_eq!("b", *second);
    assert_eq!(HashSet::from_iter(vec!["a", "missing", "b"]), *second_depends);
}

#[test]
fn size_hint_counts_what_remains() {
    let mut topo_sort = TopoSort::new();
    topo_sort.insert(1, vec![]);
    topo_sort.insert(2, vec![1]);
    topo_sort.insert(3, vec![2]);

    let mut iter = topo_sort.iter();
    assert_eq!((3, Some(3)), iter.size_hint());
    assert!(iter.next().is_some());
    assert_eq!((2, Some(2)), iter.size_hint());
    assert!(iter.next().is_some());
    assert!(iter.next().is_some());
    assert_eq!((0, Some(0)), iter.size_hint());
    assert!(iter.next().is_none());

    let mut nodes = topo_sort.nodes();
    assert_eq!((3, Some(3)), nodes.size_hint());
    assert_eq!(Some(Ok(&1)), nodes.next());
    assert_eq!((2, Some(2)), nodes.size_hint());
}

#[test]
fn size_hint_is_zero_after_a_cycle() {
    let mut topo_sort = TopoSort::new();
    topo_sort.insert(1, vec![2]);
    topo_sort.insert(2, vec![1]);

    let mut nodes = topo_sort.nodes();
    assert_eq!((2, Some(2)), nodes.size_hint());
    assert_eq!(Some(Err(CycleError)), nodes.next());
    assert_eq!((0, Some(0)), nodes.size_hint());
}

#[test]
fn empty_store_sorts_to_nothing() {
    let topo_sort: TopoSort<u32> = TopoSort::new();
    assert!(topo_sort.is_empty());
    assert_eq!(0, topo_sort.len());
    assert_eq!(Ok(vec![]), topo_sort.try_vec());
    assert_eq!(Ok(vec![]), topo_sort.try_owned_vec());
    assert_eq!(None, topo_sort.nodes().next());
    assert!(topo_sort.iter().next().is_none());
    assert!(topo_sort.nodes().collect().is_empty());
    assert!(topo_sort.into_iter().next().is_none());
}

#[test]
fn default_store_is_empty() {
    let topo_sort: TopoSort<u32> = TopoSort::default();
    assert!(topo_sort.is_empty());
    assert_eq!(0, topo_sort.len());
}

#[test]
fn traversal_may_stop_early() {
    let topo_sort = diamond();
    let mut nodes = topo_sort.nodes();
    assert!(nodes.next().is_some());
    assert_eq!((4, Some(4)), nodes.size_hint());
    assert_eq!(5, topo_sort.len());
    assert_eq!(5, topo_sort.try_vec().unwrap().len());
}

#[test]
fn insert_replaces_the_dependencies() {
    let mut topo_sort = TopoSort::new();
    topo_sort.insert(1, vec![2]);
    topo_sort.insert(2, vec![1]);
    assert!(topo_sort.try_vec().is_err());

    topo_sort.insert(2, vec![]);
    assert_eq!(2, topo_sort.len());
    assert_eq!(HashSet::new(), *topo_sort.get(&2).unwrap());
    assert_eq!(vec![2, 1], topo_sort.try_owned_vec().unwrap());
}

#[test]
fn insert_counts_a_repeated_dependency_once() {
    let mut topo_sort = TopoSort::new();
    topo_sort.insert(1, vec![2, 2, 3, 2]);
    assert_eq!(HashSet::from_iter(vec![2, 3]), *topo_sort.get(&1).unwrap());
    assert_eq!(2, topo_sort.index(&1).len());
}

#[test]
fn insert_from_slice_clones_the_items() {
    let mut topo_sort = TopoSort::new();
    let items = [String::from("x"), String::from("y"), String::from("x")];
    topo_sort.insert_from_slice(String::from("z"), &items);
    assert_eq!(
        HashSet::from_iter(vec![String::from("x"), String::from("y")]),
        *topo_sort.get(&String::from("z")).unwrap()
    );
    assert_eq!(3, items.len());
}

#[test]
fn from_map_keeps_the_entries() {
    let mut map: HashMap<u32, HashSet<u32>> = HashMap::new();
    map.insert(1, HashSet::new());
    map.insert(2, HashSet::from_iter(vec![1]));
    map.insert(3, HashSet::from_iter(vec![2, 1]));

    let topo_sort = TopoSort::from_map(map);
    assert!(!topo_sort.is_empty());
    assert_eq!(3, topo_sort.len());
    assert_eq!(HashSet::from_iter(vec![2, 1]), *topo_sort.index(&3));
    assert_eq!(None, topo_sort.get(&4));
    assert_eq!(vec![1, 2, 3], topo_sort.try_owned_vec().unwrap());
}

#[test]
fn clone_sorts_like_the_store() {
    let topo_sort = diamond();
    let copy = topo_sort.clone();
    assert_eq!(topo_sort.len(), copy.len());
    assert_eq!(5, copy.try_vec().unwrap().len());
}

#[test]
fn error_names_itself() {
    assert_eq!("CycleError", CycleError.to_string());
    assert_eq!("CycleError", format!("{:?}", CycleError));
    assert_eq!(CycleError, CycleError.clone());
}
