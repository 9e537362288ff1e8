use cargo_dep::error::GraphError;
use cargo_dep::package::{
    build_packages, clone_text, Dependency, DependencyKind, DependencyRecord, Member, Package,
    PackageRecord,
};
use cargo_dep::version::Version;

fn dep_record(name: &str, kind: DependencyKind, optional: bool) -> DependencyRecord {
    DependencyRecord {
        name: name.to_string(),
        source: Some("registry+https://example.org/index".to_string()),
        req: "^0.3".to_string(),
        kind,
        optional,
    }
}

fn package_record(name: &str, version: &str, deps: Vec<DependencyRecord>) -> PackageRecord {
    PackageRecord {
        name: name.to_string(),
        version: version.to_string(),
        id: format!("{} {} (path+file:///work/{})", name, version, name),
        source: None,
        dependencies: deps,
    }
}

fn workspace_member(name: &str, version: &str) -> Member {
    Member { name: name.to_string(), version: Version::parse(version).unwrap() }
}

#[test]
fn from_metadata_copies_the_record() {
    let mut record = package_record(
        "tool",
        "0.3.1",
        vec![
            dep_record("left", DependencyKind::Normal, false),
            dep_record("right", DependencyKind::Build, true),
        ],
    );
    record.source = Some("git+https://example.org/tool".to_string());
    let package = Package::from_metadata(&record, &vec![]).unwrap();
    assert_eq!(package.name, "tool");
    assert_eq!(package.version, "0.3.1");
    assert_eq!(package.id, "tool 0.3.1 (path+file:///work/tool)");
    assert_eq!(package.source, Some("git+https://example.org/tool".to_string()));
    assert!(!package.is_member);
    assert!(!package.included);
    assert_eq!(package.dependencies.len(), 2);
    let left = &package.dependencies[0];
    assert_eq!(left.index, None);
    assert_eq!(left.name, "left");
    assert_eq!(left.source, Some("registry+https://example.org/index".to_string()));
    assert_eq!(left.req, "^0.3");
    assert_eq!(left.kind, DependencyKind::Normal);
    assert!(!left.optional);
    let right = &package.dependencies[1];
    assert_eq!(right.index, None);
    assert_eq!(right.name, "right");
    assert_eq!(right.kind, DependencyKind::Build);
    assert!(right.optional);
}

#[test]
fn from_metadata_finds_a_member_by_name_and_version() {
    let members = vec![workspace_member("other", "1.0.0"), workspace_member("tool", "1.0.0")];
    let package = Package::from_metadata(&package_record("tool", "1.0.0", vec![]), &members);
    assert!(package.unwrap().is_member);
}

#[test]
fn from_metadata_wants_the_member_version_to_agree() {
    let members = vec![workspace_member("tool", "1.0.1")];
    let package = Package::from_metadata(&package_record("tool", "1.0.0", vec![]), &members);
    assert!(!package.unwrap().is_member);
}

#[test]
fn from_metadata_wants_the_member_name_to_agree() {
    let members = vec![workspace_member("tools", "1.0.0")];
    let package = Package::from_metadata(&package_record("tool", "1.0.0", vec![]), &members);
    assert!(!package.unwrap().is_member);
}

#[test]
fn from_metadata_compares_releases_not_texts() {
    let members = vec![workspace_member("tool", "1.0.0")];
    let package = Package::from_metadata(&package_record("tool", "1.0.0+b7", vec![]), &members)
        .unwrap();
    assert!(package.is_member);
    assert_eq!(package.version, "1.0.0+b7");
}

#[test]
fn from_metadata_refuses_a_bad_version() {
    let members = vec![workspace_member("tool", "1.0.0")];
    let r = Package::from_metadata(&package_record("tool", "1.0", vec![]), &members);
    assert_eq!(r.unwrap_err(), GraphError::InvalidVersion("1.0".to_string()));
}

#[test]
fn dependency_from_record_has_no_target() {
    let d = Dependency::from_record(&dep_record("left", DependencyKind::Development, true));
    assert_eq!(d.index, None);
    assert_eq!(d.name, "left");
    assert_eq!(d.kind, DependencyKind::Development);
    assert!(d.optional);
}

#[test]
fn clone_text_copies() {
    assert_eq!(clone_text(&None), None);
    assert_eq!(clone_text(&Some("abc".to_string())), Some("abc".to_string()));
}

#[test]
fn build_packages_keeps_the_order() {
    let records = vec![
        package_record("z", "1.0.0", vec![]),
        package_record("a", "2.0.0", vec![]),
        package_record("m", "3.0.0", vec![]),
    ];
    let members = vec![workspace_member("a", "2.0.0")];
    let packages = build_packages(&records, &members).unwrap();
    let names: Vec<&str> = packages.iter().map(|p| p.name.as_str()).collect();
    assert_eq!(names, vec!["z", "a", "m"]);
    let flags: Vec<bool> = packages.iter().map(|p| p.is_member).collect();
    assert_eq!(flags, vec![false, true, false]);
}

#[test]
fn build_packages_of_nothing() {
    assert!(build_packages(&vec![], &vec![]).unwrap().is_empty());
}

#[test]
fn build_packages_is_all_or_nothing() {
    let records = vec![
        package_record("z", "1.0.0", vec![]),
        package_record("a", "two", vec![]),
        package_record("m", "three", vec![]),
    ];
    let r = build_packages(&records, &vec![]);
    assert_eq!(r.unwrap_err(), GraphError::InvalidVersion("two".to_string()));
}
