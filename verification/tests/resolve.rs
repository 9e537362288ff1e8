use cargo_dep::error::GraphError;
use cargo_dep::package::{Dependency, DependencyKind, Package};
use cargo_dep::resolve::{
    check_ids, find_id, read_descriptor_name, resolve, resolve_node, ResolveNode,
};

fn edge(name: &str) -> Dependency {
    Dependency {
        index: None,
        name: name.to_string(),
        source: None,
        req: "*".to_string(),
        kind: DependencyKind::Normal,
        optional: false,
    }
}

fn node_of(name: &str, id: &str, deps: &[&str]) -> Package {
    Package {
        name: name.to_string(),
        version: "1.0.0".to_string(),
        source: None,
        id: id.to_string(),
        is_member: false,
        included: false,
        dependencies: deps.iter().map(|d| edge(d)).collect(),
    }
}

fn entry(id: &str, deps: &[&str]) -> ResolveNode {
    ResolveNode { id: id.to_string(), dependencies: deps.iter().map(|d| d.to_string()).collect() }
}

fn targets(packages: &[Package]) -> Vec<Vec<Option<usize>>> {
    packages.iter().map(|p| p.dependencies.iter().map(|d| d.index).collect()).collect()
}

const APP: &str = "app 1.0.0 (path)";
const LOG: &str = "log 1.0.0 (registry)";
const LOG2: &str = "log 2.0.0 (registry)";
const NET: &str = "net 1.0.0 (registry)";

fn sample() -> Vec<Package> {
    vec![
        node_of("app", APP, &["net", "log", "winapi"]),
        node_of("log", LOG, &[]),
        node_of("net", NET, &["log"]),
    ]
}

#[test]
fn descriptor_name_ends_at_the_first_space() {
    assert_eq!(read_descriptor_name("log 1.0.0 (registry)"), "log");
    assert_eq!(read_descriptor_name("a  b"), "a");
}

#[test]
fn descriptor_name_of_a_text_without_space() {
    assert_eq!(read_descriptor_name("solo"), "solo");
    assert_eq!(read_descriptor_name(""), "");
}

#[test]
fn descriptor_name_after_a_leading_space_is_empty() {
    assert_eq!(read_descriptor_name(" lead"), "");
    assert_eq!(read_descriptor_name(" "), "");
}

#[test]
fn descriptor_name_counts_characters_not_bytes() {
    assert_eq!(read_descriptor_name("é\u{1F600}x 1.0.0"), "é\u{1F600}x");
    assert_eq!(read_descriptor_name("tab\there 1"), "tab\there");
}

#[test]
fn find_id_gives_the_position() {
    let packages = sample();
    assert_eq!(find_id(&packages, &APP.to_string()), Some(0));
    assert_eq!(find_id(&packages, &NET.to_string()), Some(2));
    assert_eq!(find_id(&packages, &"net".to_string()), None);
    assert_eq!(find_id(&vec![], &APP.to_string()), None);
}

#[test]
fn find_id_gives_the_first_of_several() {
    let packages = vec![node_of("a", "x", &[]), node_of("b", "y", &[]), node_of("c", "y", &[])];
    assert_eq!(find_id(&packages, &"y".to_string()), Some(1));
}

#[test]
fn check_ids_passes_distinct_ids() {
    assert_eq!(check_ids(&sample()), Ok(()));
    assert_eq!(check_ids(&vec![]), Ok(()));
}

#[test]
fn check_ids_reports_the_first_repeat() {
    let packages = vec![
        node_of("a", "x", &[]),
        node_of("b", "y", &[]),
        node_of("c", "y", &[]),
        node_of("d", "x", &[]),
    ];
    assert_eq!(check_ids(&packages), Err(GraphError::DuplicateId("y".to_string())));
}

#[test]
fn resolve_sets_the_targets() {
    let nodes = vec![entry(NET, &[LOG]), entry(APP, &[LOG, NET]), entry(LOG, &[])];
    let packages = resolve(sample(), &nodes).unwrap();
    assert_eq!(targets(&packages), vec![vec![Some(2), Some(1), None], vec![], vec![Some(1)]]);
    assert_eq!(packages[0].name, "app");
    assert_eq!(packages[0].dependencies[2].name, "winapi");
}

#[test]
fn resolve_without_edges_changes_nothing() {
    let packages = resolve(sample(), &vec![]).unwrap();
    assert_eq!(targets(&packages), vec![vec![None, None, None], vec![], vec![None]]);
}

#[test]
fn resolve_passes_over_edges_that_name_no_dependency() {
    let nodes = vec![entry(LOG, &["stray 0.1.0 (nowhere)"]), entry(NET, &["other 1.0.0 (x)", LOG])];
    let packages = resolve(sample(), &nodes).unwrap();
    assert_eq!(targets(&packages), vec![vec![None, None, None], vec![], vec![Some(1)]]);
}

#[test]
fn resolve_gives_each_dependency_of_a_name_the_target() {
    let packages = vec![node_of("app", APP, &["log", "log"]), node_of("log", LOG, &[])];
    let packages = resolve(packages, &vec![entry(APP, &[LOG])]).unwrap();
    assert_eq!(targets(&packages), vec![vec![Some(1), Some(1)], vec![]]);
}

#[test]
fn resolve_refuses_a_shared_id_first() {
    let mut packages = sample();
    packages[2].id = LOG.to_string();
    let nodes = vec![entry("ghost 1.0.0 (x)", &[])];
    assert_eq!(resolve(packages, &nodes).unwrap_err(), GraphError::DuplicateId(LOG.to_string()));
}

#[test]
fn resolve_refuses_an_entry_for_no_package() {
    let nodes = vec![entry(NET, &[LOG]), entry("ghost 1.0.0 (x)", &[]), entry(APP, &["bad"])];
    assert_eq!(
        resolve(sample(), &nodes).unwrap_err(),
        GraphError::ResolveIdNotFound("ghost 1.0.0 (x)".to_string())
    );
}

#[test]
fn resolve_refuses_an_edge_to_no_package() {
    let nodes = vec![entry(APP, &[NET, "log 9.9.9 (registry)"])];
    assert_eq!(
        resolve(sample(), &nodes).unwrap_err(),
        GraphError::DepIdNotFound("log 9.9.9 (registry)".to_string())
    );
}

#[test]
fn resolve_refuses_a_second_edge_for_a_dependency() {
    let mut packages = sample();
    packages.push(node_of("log", LOG2, &[]));
    let nodes = vec![entry(APP, &[LOG, NET, LOG2])];
    assert_eq!(
        resolve(packages, &nodes).unwrap_err(),
        GraphError::AlreadyResolved(LOG2.to_string())
    );
}

#[test]
fn resolve_refuses_a_second_edge_before_it_looks_the_edge_up() {
    let nodes = vec![entry(APP, &[LOG, "log 9.9.9 (registry)"])];
    assert_eq!(
        resolve(sample(), &nodes).unwrap_err(),
        GraphError::AlreadyResolved("log 9.9.9 (registry)".to_string())
    );
}

#[test]
fn resolve_refuses_a_second_edge_in_a_later_entry() {
    let nodes = vec![entry(NET, &[LOG]), entry(NET, &[LOG])];
    assert_eq!(
        resolve(sample(), &nodes).unwrap_err(),
        GraphError::AlreadyResolved(LOG.to_string())
    );
}

#[test]
fn resolve_reports_the_first_dependency_that_fails() {
    // `net` is declared before `log`: its failure is the one reported,
    // though the edge for `log` stands first in the entry.
    let nodes = vec![entry(APP, &["log 9.9.9 (registry)", "net 9.9.9 (registry)"])];
    assert_eq!(
        resolve(sample(), &nodes).unwrap_err(),
        GraphError::DepIdNotFound("net 9.9.9 (registry)".to_string())
    );
}

#[test]
fn resolve_node_sets_the_targets_of_one_package() {
    let mut packages = sample();
    assert_eq!(resolve_node(&mut packages, &entry(APP, &[NET])), Ok(()));
    assert_eq!(targets(&packages), vec![vec![Some(2), None, None], vec![], vec![None]]);
}

#[test]
fn resolve_node_leaves_the_list_alone_when_it_fails() {
    let mut packages = sample();
    let r = resolve_node(&mut packages, &entry(APP, &[NET, "log 9.9.9 (registry)"]));
    assert_eq!(r, Err(GraphError::DepIdNotFound("log 9.9.9 (registry)".to_string())));
    assert_eq!(targets(&packages), vec![vec![None, None, None], vec![], vec![None]]);
}
