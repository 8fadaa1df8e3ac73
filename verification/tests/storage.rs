use castgraph::storage::{FileRepository, MockFileRepository};

#[test]
fn test_mock_set_and_get_content() {
    let mut repo = MockFileRepository::new();
    assert!(repo.get_content(&"a.md".to_string()).is_none());
    repo.set_content("a.md".to_string(), "alpha".to_string());
    assert_eq!(repo.get_content(&"a.md".to_string()), Some("alpha".to_string()));
    repo.set_content("a.md".to_string(), "beta".to_string());
    assert_eq!(repo.get_content(&"a.md".to_string()), Some("beta".to_string()));
    assert!(repo.get_content(&"b.md".to_string()).is_none());
}

#[test]
fn test_mock_repository_trait() {
    let mut repo = MockFileRepository::new();
    assert!(repo.read_file(&"x".to_string()).is_err());
    repo.write_file(&"x".to_string(), &"body".to_string()).unwrap();
    assert_eq!(repo.read_file(&"x".to_string()).unwrap(), "body");
    assert_eq!(repo.path_exists(&"x".to_string()).unwrap(), true);
    repo.delete(&"x".to_string()).unwrap();
    assert_eq!(repo.path_exists(&"x".to_string()).unwrap(), false);
    repo.create_dir_all(&"dir".to_string()).unwrap();
}

#[test]
fn test_mock_set_exists_override() {
    let mut repo = MockFileRepository::new();
    repo.set_content("real".to_string(), "data".to_string());
    repo.set_exists("real".to_string(), false);
    repo.set_exists("ghostly".to_string(), true);
    assert_eq!(repo.path_exists(&"real".to_string()).unwrap(), false);
    assert_eq!(repo.path_exists(&"ghostly".to_string()).unwrap(), true);
}
