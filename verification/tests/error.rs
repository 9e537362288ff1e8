use cargo_dep::error::GraphError;

#[test]
fn message_of_invalid_version() {
    let e = GraphError::InvalidVersion("1.x".to_string());
    assert_eq!(e.message(), "Could not parse version `1.x`");
}

#[test]
fn message_of_duplicate_id() {
    let e = GraphError::DuplicateId("a 1.0.0 (path)".to_string());
    assert_eq!(e.message(), "Duplicate key `a 1.0.0 (path)`");
}

#[test]
fn message_of_resolve_id_not_found() {
    let e = GraphError::ResolveIdNotFound("ghost 0.1.0 (registry)".to_string());
    assert_eq!(e.message(), "Could not find resolve id `ghost 0.1.0 (registry)`");
}

#[test]
fn message_of_dep_id_not_found() {
    let e = GraphError::DepIdNotFound("c 2.0.0 (registry)".to_string());
    assert_eq!(e.message(), "Could not find dep id `c 2.0.0 (registry)`");
}

#[test]
fn message_of_already_resolved() {
    let e = GraphError::AlreadyResolved("c 2.0.0 (registry)".to_string());
    assert_eq!(e.message(), "Dependency resolved twice, by `c 2.0.0 (registry)`");
}

#[test]
fn message_of_exclude_not_found() {
    let e = GraphError::ExcludeNotFound("nobody".to_string());
    assert_eq!(e.message(), "Could not find exclude spec `nobody`.");
}

#[test]
fn message_keeps_an_empty_subject() {
    let e = GraphError::ExcludeNotFound(String::new());
    assert_eq!(e.message(), "Could not find exclude spec ``.");
}
