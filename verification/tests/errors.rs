use januslens::error::{prefixed, IntoResult, JanusError};

#[test]
fn messages_name_the_kind_of_failure() {
    let m = |e: JanusError| e.message();
    assert_eq!(m(JanusError::GitError("x".to_string())), "Git error: x");
    assert_eq!(m(JanusError::IoError("x".to_string())), "IO error: x");
    assert_eq!(m(JanusError::ConfigError("x".to_string())), "Configuration error: x");
    assert_eq!(m(JanusError::AuthError("x".to_string())), "Authentication error: x");
    assert_eq!(m(JanusError::NetworkError("x".to_string())), "Network error: x");
    assert_eq!(m(JanusError::ParseError("x".to_string())), "Parse error: x");
    assert_eq!(m(JanusError::ValidationError("x".to_string())), "Validation error: x");
    assert_eq!(m(JanusError::UnknownError("x".to_string())), "Unknown error: x");
    assert_eq!(m(JanusError::NotARepository("/p".to_string())), "Not a repository: /p");
    assert_eq!(m(JanusError::ReferenceNotFound("b".to_string())), "Reference not found: b");
    assert_eq!(
        m(JanusError::ReferenceAlreadyExists("b".to_string())),
        "Reference already exists: b"
    );
    assert_eq!(
        m(JanusError::CannotDeleteCheckedOutBranch("b".to_string())),
        "Cannot delete checked out branch: b"
    );
    assert_eq!(m(JanusError::ObjectNotFound("f".to_string())), "Object not found: f");
    assert_eq!(m(JanusError::NothingToCommit), "Nothing to commit");
}

#[test]
fn prefixed_joins_two_texts() {
    assert_eq!(prefixed("a: ", &"b".to_string()), "a: b");
    assert_eq!(prefixed("", &String::new()), "");
}

#[test]
fn an_absent_value_becomes_a_validation_error() {
    assert_eq!(Some(5).into_result("missing"), Ok(5));
    let none: Option<u8> = None;
    assert_eq!(none.into_result("missing"), Err(JanusError::ValidationError("missing".to_string())));
}

#[test]
fn a_backend_error_becomes_a_git_error() {
    let e = JanusError::from(git2::Error::from_str("reference not found"));
    assert_eq!(e, JanusError::GitError("reference not found".to_string()));
    let e = JanusError::from(git2::Error::new(
        git2::ErrorCode::NotFound,
        git2::ErrorClass::Reference,
        "no such branch",
    ));
    match e {
        JanusError::GitError(text) => assert!(text.starts_with("no such branch; class=Reference")),
        other => panic!("unexpected {:?}", other),
    }
}

#[test]
fn an_io_error_becomes_an_io_error() {
    let e = JanusError::from(std::io::Error::new(std::io::ErrorKind::Other, "disk on fire"));
    assert_eq!(e, JanusError::IoError("disk on fire".to_string()));
}

#[test]
fn a_json_error_becomes_a_parse_error() {
    let failure = serde_json::from_str::<u32>("nope").unwrap_err();
    let shown = failure.to_string();
    assert!(!shown.is_empty());
    assert_eq!(JanusError::from(failure), JanusError::ParseError(shown));
}
