use castgraph::models::{Chapter, Manifest};

fn create_dummy_chapter(id: &str, parent: Option<&str>, filename: &str) -> Chapter {
    Chapter {
        id: id.to_string(),
        parent_id: parent.map(|s| s.to_string()),
        title: "Title".to_string(),
        filename: filename.to_string(),
        word_count: 0,
        order: 0,
        chronological_date: None,
        abstract_timeframe: None,
        duration: None,
        plotline_tag: None,
        depends_on: None,
        pov_character_id: None,
    }
}

#[test]
fn manifest_test_remove_node_recursively() {
    let mut manifest = Manifest::default();

    // Tree:
    // root
    //  - c1 (c1.md)
    //     - c1_1 (c1_1.md)
    //  - c2 (c2.md)

    manifest.chapters.push(create_dummy_chapter("c1", None, "c1.md"));
    manifest.chapters.push(create_dummy_chapter("c1_1", Some("c1"), "c1_1.md"));
    manifest.chapters.push(create_dummy_chapter("c2", None, "c2.md"));

    let removed_files = manifest.remove_node_recursively("c1".to_string());

    assert_eq!(removed_files.len(), 2);
    assert!(removed_files.contains(&"c1.md".to_string()));
    assert!(removed_files.contains(&"c1_1.md".to_string()));
    assert!(!removed_files.contains(&"c2.md".to_string()));

    assert_eq!(manifest.chapters.len(), 1);
    assert_eq!(manifest.chapters[0].id, "c2");
}

#[test]
fn test_remove_node_deep_chain() {
    let mut manifest = Manifest::default();
    manifest.chapters.push(create_dummy_chapter("a", None, "a.md"));
    manifest.chapters.push(create_dummy_chapter("b", Some("a"), "b.md"));
    manifest.chapters.push(create_dummy_chapter("c", Some("b"), "c.md"));
    manifest.chapters.push(create_dummy_chapter("d", Some("c"), "d.md"));
    manifest.chapters.push(create_dummy_chapter("e", None, "e.md"));

    let removed = manifest.remove_node_recursively("b".to_string());
    assert_eq!(removed, vec!["b.md".to_string(), "c.md".to_string(), "d.md".to_string()]);
    assert_eq!(manifest.chapters.len(), 2);
    assert_eq!(manifest.chapters[0].id, "a");
    assert_eq!(manifest.chapters[1].id, "e");
}

#[test]
fn test_remove_node_absent_id() {
    let mut manifest = Manifest::default();
    manifest.chapters.push(create_dummy_chapter("c1", None, "c1.md"));
    let removed = manifest.remove_node_recursively("nope".to_string());
    assert!(removed.is_empty());
    assert_eq!(manifest.chapters.len(), 1);
}

#[test]
fn test_create_chapter_orders() {
    let mut manifest = Manifest::default();
    let first = manifest.create_chapter(None, "One".to_string());
    assert_eq!(first.order, 0);
    assert_eq!(first.word_count, 0);
    assert!(first.id.starts_with("chapter-"));
    assert_eq!(first.filename, format!("{}.md", first.id));
    manifest.chapters.push(first);

    let second = manifest.create_chapter(None, "Two".to_string());
    assert_eq!(second.order, 1);
    manifest.chapters.push(second);

    let child = manifest.create_chapter(Some(manifest.chapters[0].id.clone()), "Kid".to_string());
    assert_eq!(child.order, 0);
    assert_eq!(child.title, "Kid");
}

#[test]
fn test_chapter_filename_lookup() {
    let mut manifest = Manifest::default();
    manifest.chapters.push(create_dummy_chapter("c1", None, "c1.md"));
    manifest.chapters.push(create_dummy_chapter("c2", None, "c2.md"));
    assert_eq!(manifest.chapter_filename(&"c2".to_string()), Some("c2.md".to_string()));
    assert_eq!(manifest.chapter_filename(&"zz".to_string()), None);
}
