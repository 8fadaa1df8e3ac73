use castgraph::research::{get_file_type_from_name, reconcile_index, ResearchArtifact};

#[test]
fn test_determine_type_cases() {
    assert_eq!(ResearchArtifact::determine_type("paper.pdf".as_bytes()), "pdf");
    assert_eq!(ResearchArtifact::determine_type("photo.PNG".as_bytes()), "image");
    assert_eq!(ResearchArtifact::determine_type("scan.jpeg".as_bytes()), "image");
    assert_eq!(ResearchArtifact::determine_type("pic.webp".as_bytes()), "image");
    assert_eq!(ResearchArtifact::determine_type("notes.md".as_bytes()), "text");
    assert_eq!(ResearchArtifact::determine_type("notes.TXT".as_bytes()), "text");
    assert_eq!(ResearchArtifact::determine_type("archive.zip".as_bytes()), "other");
    assert_eq!(ResearchArtifact::determine_type("no_extension".as_bytes()), "other");
    assert_eq!(ResearchArtifact::determine_type(".hidden".as_bytes()), "other");
    assert_eq!(ResearchArtifact::determine_type("dir/in.pdf".as_bytes()), "pdf");
}

#[test]
fn test_get_file_type_from_name_matches() {
    assert_eq!(get_file_type_from_name("a.b.jpg".as_bytes()), "image");
    assert_eq!(get_file_type_from_name("plain".as_bytes()), "other");
}

#[test]
fn test_artifact_new_fields() {
    let a = ResearchArtifact::new("p/x.md".to_string(), "x.md".to_string(), "text".to_string());
    assert_eq!(a.path, "p/x.md");
    assert_eq!(a.name, "x.md");
    assert_eq!(a.file_type, "text");
    assert!(a.tags.is_empty());
    assert_eq!(a.id.len(), 36);
}

#[test]
fn test_reconcile_index_keeps_and_creates() {
    let old = ResearchArtifact::new("v/a.md".to_string(), "old-name.md".to_string(), "text".to_string());
    let old_id = old.id.clone();
    let gone = ResearchArtifact::new("v/gone.md".to_string(), "gone.md".to_string(), "text".to_string());
    let index = vec![old, gone];

    let disk = vec![
        ("v/a.md".to_string(), "a.md".to_string()),
        ("v/new.pdf".to_string(), "new.pdf".to_string()),
    ];
    let result = reconcile_index(disk, index);

    assert_eq!(result.len(), 2);
    // the matched artifact keeps its id, with its name refreshed
    assert_eq!(result[0].id, old_id);
    assert_eq!(result[0].name, "a.md");
    assert_eq!(result[0].file_type, "text");
    // the new file gets a fresh artifact typed from its name
    assert_eq!(result[1].path, "v/new.pdf");
    assert_eq!(result[1].file_type, "pdf");
    assert_eq!(result[1].id.len(), 36);
    assert_ne!(result[1].id, old_id);
}
