use cargo_dep::index_set::IndexSet;
use cargo_dep::package::{Dependency, DependencyKind, Package};
use cargo_dep::reach::{mark_deps, mark_reachable};

fn link(index: Option<usize>) -> Dependency {
    Dependency {
        index,
        name: "dep".to_string(),
        source: None,
        req: "*".to_string(),
        kind: DependencyKind::Normal,
        optional: false,
    }
}

/// A package list with the given edges; `None` is an unresolved dependency.
fn graph(edges: &[&[Option<usize>]]) -> Vec<Package> {
    edges
        .iter()
        .enumerate()
        .map(|(i, targets)| Package {
            name: format!("p{}", i),
            version: "1.0.0".to_string(),
            source: None,
            id: format!("p{} 1.0.0", i),
            is_member: false,
            included: false,
            dependencies: targets.iter().map(|t| link(*t)).collect(),
        })
        .collect()
}

fn set(bound: usize, members: &[usize]) -> IndexSet {
    let mut s = IndexSet::new(bound);
    for m in members {
        s.insert(*m);
    }
    s
}

fn flags(packages: &[Package]) -> Vec<bool> {
    packages.iter().map(|p| p.included).collect()
}

// 0 -> 1 -> 3, 0 -> 2 -> 3, 3 -> 4, 5 -> 0
fn diamond() -> Vec<Package> {
    graph(&[
        &[Some(1), Some(2)],
        &[Some(3)],
        &[Some(3), None],
        &[Some(4)],
        &[],
        &[Some(0)],
    ])
}

#[test]
fn mark_deps_follows_the_edges() {
    let packages = diamond();
    let mut include_set = IndexSet::new(6);
    mark_deps(0, &packages, &mut include_set, &IndexSet::new(6));
    assert_eq!(include_set.indices(), vec![0, 1, 2, 3, 4]);
}

#[test]
fn mark_deps_of_a_leaf_marks_the_leaf() {
    let packages = diamond();
    let mut include_set = IndexSet::new(6);
    mark_deps(4, &packages, &mut include_set, &IndexSet::new(6));
    assert_eq!(include_set.indices(), vec![4]);
}

#[test]
fn mark_deps_stops_at_an_ignored_package() {
    let packages = diamond();
    let mut include_set = IndexSet::new(6);
    mark_deps(0, &packages, &mut include_set, &set(6, &[3]));
    assert_eq!(include_set.indices(), vec![0, 1, 2]);
}

#[test]
fn mark_deps_goes_round_an_ignored_package() {
    let packages = diamond();
    let mut include_set = IndexSet::new(6);
    mark_deps(0, &packages, &mut include_set, &set(6, &[1]));
    assert_eq!(include_set.indices(), vec![0, 2, 3, 4]);
}

#[test]
fn mark_deps_of_an_ignored_start_marks_nothing() {
    let packages = diamond();
    let mut include_set = IndexSet::new(6);
    mark_deps(0, &packages, &mut include_set, &set(6, &[0]));
    assert!(include_set.indices().is_empty());
}

#[test]
fn mark_deps_does_not_walk_through_what_is_marked() {
    let packages = diamond();
    let mut include_set = set(6, &[3]);
    mark_deps(0, &packages, &mut include_set, &IndexSet::new(6));
    assert_eq!(include_set.indices(), vec![0, 1, 2, 3]);
}

#[test]
fn mark_deps_keeps_what_was_marked() {
    let packages = diamond();
    let mut include_set = set(6, &[5]);
    mark_deps(3, &packages, &mut include_set, &IndexSet::new(6));
    assert_eq!(include_set.indices(), vec![3, 4, 5]);
}

#[test]
fn mark_deps_ends_on_a_cycle() {
    let packages = graph(&[&[Some(1)], &[Some(2)], &[Some(0), Some(2)]]);
    let mut include_set = IndexSet::new(3);
    mark_deps(1, &packages, &mut include_set, &IndexSet::new(3));
    assert_eq!(include_set.indices(), vec![0, 1, 2]);
}

#[test]
fn mark_reachable_from_several_roots() {
    let mut packages = diamond();
    let found = mark_reachable(&mut packages, &set(6, &[1, 2]), &IndexSet::new(6));
    assert_eq!(found.indices(), vec![1, 2, 3, 4]);
    assert_eq!(found.bound(), 6);
    assert_eq!(flags(&packages), vec![false, true, true, true, true, false]);
}

#[test]
fn mark_reachable_from_no_root() {
    let mut packages = diamond();
    let found = mark_reachable(&mut packages, &IndexSet::new(6), &IndexSet::new(6));
    assert!(found.indices().is_empty());
    assert_eq!(flags(&packages), vec![false; 6]);
}

#[test]
fn mark_reachable_leaves_an_ignored_root_out() {
    let mut packages = diamond();
    let found = mark_reachable(&mut packages, &set(6, &[0, 5]), &set(6, &[0]));
    assert_eq!(found.indices(), vec![5]);
    assert_eq!(flags(&packages), vec![false, false, false, false, false, true]);
}

#[test]
fn mark_reachable_prunes_below_an_ignored_package() {
    let mut packages = diamond();
    let found = mark_reachable(&mut packages, &set(6, &[5]), &set(6, &[3]));
    assert_eq!(found.indices(), vec![0, 1, 2, 5]);
}

#[test]
fn mark_reachable_lowers_no_flag() {
    let mut packages = diamond();
    packages[4].included = true;
    let found = mark_reachable(&mut packages, &set(6, &[1]), &set(6, &[3]));
    assert_eq!(found.indices(), vec![1]);
    assert_eq!(flags(&packages), vec![false, true, false, false, true, false]);
}

#[test]
fn mark_reachable_changes_only_flags() {
    let mut packages = diamond();
    mark_reachable(&mut packages, &set(6, &[0]), &IndexSet::new(6));
    let edges: Vec<Vec<Option<usize>>> =
        packages.iter().map(|p| p.dependencies.iter().map(|d| d.index).collect()).collect();
    assert_eq!(
        edges,
        vec![
            vec![Some(1), Some(2)],
            vec![Some(3)],
            vec![Some(3), None],
            vec![Some(4)],
            vec![],
            vec![Some(0)]
        ]
    );
    assert_eq!(packages[2].name, "p2");
    assert_eq!(packages[2].id, "p2 1.0.0");
}

#[test]
fn mark_reachable_twice_finds_the_same() {
    let mut packages = diamond();
    let roots = set(6, &[1, 5]);
    let ignored = set(6, &[2]);
    let first = mark_reachable(&mut packages, &roots, &ignored);
    let flags_after_first = flags(&packages);
    let second = mark_reachable(&mut packages, &roots, &ignored);
    assert_eq!(first.indices(), vec![0, 1, 3, 4, 5]);
    assert_eq!(second.indices(), first.indices());
    assert_eq!(flags(&packages), flags_after_first);
}

#[test]
fn mark_reachable_of_no_packages() {
    let mut packages = graph(&[]);
    let found = mark_reachable(&mut packages, &IndexSet::new(0), &IndexSet::new(0));
    assert!(found.indices().is_empty());
}
