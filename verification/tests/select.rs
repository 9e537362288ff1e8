use cargo_dep::error::GraphError;
use cargo_dep::package::Package;
use cargo_dep::select::{select_ignored, select_roots};

fn named(name: &str, version: &str, is_member: bool) -> Package {
    Package {
        name: name.to_string(),
        version: version.to_string(),
        source: None,
        id: format!("{} {}", name, version),
        is_member,
        included: false,
        dependencies: vec![],
    }
}

fn list() -> Vec<Package> {
    vec![
        named("app", "1.0.0", true),
        named("log", "1.0.0", false),
        named("cli", "0.1.0", true),
        named("log", "2.0.0", false),
        named("net", "1.0.0", false),
    ]
}

fn texts(names: &[&str]) -> Vec<String> {
    names.iter().map(|s| s.to_string()).collect()
}

#[test]
fn roots_default_to_the_members() {
    let roots = select_roots(&list(), &texts(&[]));
    assert_eq!(roots.indices(), vec![0, 2]);
    assert_eq!(roots.bound(), 5);
}

#[test]
fn roots_by_name() {
    let roots = select_roots(&list(), &texts(&["net", "app"]));
    assert_eq!(roots.indices(), vec![0, 4]);
}

#[test]
fn roots_take_every_package_of_a_name() {
    let roots = select_roots(&list(), &texts(&["log"]));
    assert_eq!(roots.indices(), vec![1, 3]);
}

#[test]
fn roots_pass_over_an_unknown_name() {
    assert_eq!(select_roots(&list(), &texts(&["nobody"])).indices(), Vec::<usize>::new());
    assert_eq!(select_roots(&list(), &texts(&["nobody", "cli"])).indices(), vec![2]);
}

#[test]
fn roots_named_are_not_joined_by_the_members() {
    let roots = select_roots(&list(), &texts(&["net"]));
    assert!(!roots.contains(0));
    assert!(!roots.contains(2));
}

#[test]
fn roots_of_no_packages() {
    assert!(select_roots(&vec![], &texts(&[])).indices().is_empty());
    assert!(select_roots(&vec![], &texts(&["app"])).indices().is_empty());
}

#[test]
fn nothing_is_ignored_when_nothing_is_excluded() {
    let ignored = select_ignored(&list(), &texts(&[])).unwrap();
    assert!(ignored.indices().is_empty());
    assert_eq!(ignored.bound(), 5);
}

#[test]
fn ignored_by_name() {
    let ignored = select_ignored(&list(), &texts(&["net", "log", "net"])).unwrap();
    assert_eq!(ignored.indices(), vec![1, 3, 4]);
}

#[test]
fn ignored_may_be_a_member() {
    let ignored = select_ignored(&list(), &texts(&["cli"])).unwrap();
    assert_eq!(ignored.indices(), vec![2]);
}

#[test]
fn unknown_exclude_is_refused() {
    let r = select_ignored(&list(), &texts(&["log", "nobody", "nothing"]));
    assert_eq!(r.unwrap_err(), GraphError::ExcludeNotFound("nobody".to_string()));
}

#[test]
fn exclude_matches_the_whole_name() {
    let r = select_ignored(&list(), &texts(&["lo"]));
    assert_eq!(r.unwrap_err(), GraphError::ExcludeNotFound("lo".to_string()));
}
