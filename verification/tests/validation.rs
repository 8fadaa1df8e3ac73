use castgraph::validation::{validate_content_size, validate_filename, validate_name, validate_path};

#[test]
fn test_validate_path_normal() {
    assert!(validate_path("/home/user/project".as_bytes()).is_ok());
    assert!(validate_path("relative/path".as_bytes()).is_ok());
}

#[test]
fn test_validate_path_traversal() {
    assert!(validate_path("../etc/passwd".as_bytes()).is_err());
    assert!(validate_path("/home/../etc".as_bytes()).is_err());
    assert!(validate_path("path/to/../../secret".as_bytes()).is_err());
}

#[test]
fn test_validate_name_normal() {
    assert!(validate_name("My Project".as_bytes()).is_ok());
    assert!(validate_name("John Doe".as_bytes()).is_ok());
    assert!(validate_name("Chapter-1_draft".as_bytes()).is_ok());
}

#[test]
fn test_validate_name_empty() {
    assert!(validate_name("".as_bytes()).is_err());
}

#[test]
fn test_validate_name_too_long() {
    let long_name = "a".repeat(257);
    assert!(validate_name(long_name.as_bytes()).is_err());
}

#[test]
fn test_validate_name_control_chars() {
    assert!(validate_name("name\x00with\x01control".as_bytes()).is_err());
    assert!(validate_name("name\nwith\nnewlines".as_bytes()).is_err());
}

#[test]
fn test_validate_name_invalid_chars() {
    assert!(validate_name("name<with>brackets".as_bytes()).is_err());
    assert!(validate_name("name:with:colons".as_bytes()).is_err());
    assert!(validate_name("name|with|pipes".as_bytes()).is_err());
}

#[test]
fn test_validate_name_whitespace() {
    assert!(validate_name("  leading".as_bytes()).is_err());
    assert!(validate_name("trailing  ".as_bytes()).is_err());
    assert!(validate_name("  both  ".as_bytes()).is_err());
    assert!(validate_name("internal spaces ok".as_bytes()).is_ok());
}

#[test]
fn test_validate_content_size_normal() {
    assert!(validate_content_size("normal content".as_bytes()).is_ok());
    assert!(validate_content_size("a".repeat(1000).as_bytes()).is_ok());
}

#[test]
fn test_validate_content_size_large() {
    let large_content = "a".repeat(10 * 1024 * 1024 + 1);
    assert!(validate_content_size(large_content.as_bytes()).is_err());
}

#[test]
fn test_validate_filename_flat() {
    assert!(validate_filename("note".as_bytes()).is_ok());
    assert!(validate_filename("note.md".as_bytes()).is_ok());
    assert!(validate_filename("../evil".as_bytes()).is_err());
    assert!(validate_filename("sub/dir".as_bytes()).is_err());
    assert!(validate_filename("back\\slash".as_bytes()).is_err());
}

#[test]
fn test_validate_name_exactly_max() {
    let name = "b".repeat(256);
    assert!(validate_name(name.as_bytes()).is_ok());
}

#[test]
fn test_validate_name_unicode_whitespace_and_controls() {
    // Unicode whitespace at either end is rejected like ASCII whitespace.
    assert!(validate_name("\u{a0}name".as_bytes()).is_err());
    assert!(validate_name("name\u{a0}".as_bytes()).is_err());
    // C1 control characters are rejected like C0 ones.
    assert!(validate_name("na\u{81}me".as_bytes()).is_err());
    // An accented name is fine.
    assert!(validate_name("No\u{e9}mie".as_bytes()).is_ok());
}
