use mdrefcheck::paths::{relative_path, resolve_ref_path};
use mdrefcheck::target::{parse_target, Target};

#[test]
fn target_external_is_out_of_scope() {
    assert!(matches!(parse_target(b"https://example.com/x#frag"), Target::OutOfScope));
    assert!(matches!(parse_target(b"mailto:someone@example.com"), Target::OutOfScope));
    assert!(matches!(parse_target(b"//cdn.example.com/lib.js"), Target::OutOfScope));
}

#[test]
fn target_same_document_anchor() {
    match parse_target(b"#usage") {
        Target::SameDocAnchor { anchor } => assert_eq!(anchor, b"usage".to_vec()),
        _ => panic!("expected a same-document anchor"),
    }
}

#[test]
fn target_path_forms() {
    match parse_target(b"docs/b.md") {
        Target::PathOnly { path } => assert_eq!(path, b"docs/b.md".to_vec()),
        _ => panic!("expected a bare path"),
    }
    match parse_target(b"b.md#intro") {
        Target::PathAnchor { path, anchor } => {
            assert_eq!(path, b"b.md".to_vec());
            assert_eq!(anchor, b"intro".to_vec());
        }
        _ => panic!("expected a path with an anchor"),
    }
}

#[test]
fn target_malformed_forms() {
    assert!(matches!(parse_target(b""), Target::Malformed));
    assert!(matches!(parse_target(b"#"), Target::Malformed));
    assert!(matches!(parse_target(b"b.md#"), Target::Malformed));
}

#[test]
fn resolve_relative_paths() {
    assert_eq!(resolve_ref_path(b"/dir/a.md", b"b.md"), b"/dir/b.md".to_vec());
    assert_eq!(resolve_ref_path(b"/dir/a.md", b"../c.md"), b"/c.md".to_vec());
    assert_eq!(resolve_ref_path(b"/dir/a.md", b"/x/y.md"), b"/x/y.md".to_vec());
}

#[test]
fn test_relative_path_nonexistent_file() {
    let rel = relative_path(b"does_not_exist.txt", b"/somewhere");
    let rel_str = String::from_utf8_lossy(&rel).into_owned();
    assert!(rel_str.contains("does_not_exist.txt"));
}

#[test]
fn relative_path_against_cwd() {
    assert_eq!(
        relative_path(b"/home/user/docs/x.md", b"/home/user"),
        b"docs/x.md".to_vec()
    );
    assert_eq!(relative_path(b"/elsewhere/x.md", b"/home/user"), b"../../elsewhere/x.md".to_vec());
}
