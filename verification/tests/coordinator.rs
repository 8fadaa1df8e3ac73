use castgraph::coordinator::{
    analyze_project, roster_signature, AnalysisOptions, ChapterData, MentionCache, ScannerCache,
};
use castgraph::models::{Character, CharacterEngine, CharacterRole};
use castgraph::scanner::CharacterScanner;

fn make_char(id: &str, name: &str) -> Character {
    Character {
        id: id.as_bytes().to_vec(),
        name: name.as_bytes().to_vec(),
        role: CharacterRole::Secondary,
        archetype: String::new(),
        description: String::new(),
        engine: CharacterEngine::default(),
        physical_features: String::new(),
        traits: vec![],
        arc: String::new(),
        notes: String::new(),
        aliases: vec![],
    }
}

fn chapter(id: &str, text: &str, len: u64, modified: u64) -> ChapterData {
    ChapterData {
        chapter_id: id.as_bytes().to_vec(),
        file_len: len,
        modified,
        content: Some(text.as_bytes().to_vec()),
    }
}

fn options() -> AnalysisOptions {
    AnalysisOptions { proximity_window: 50, prune_threshold: 50, chapter_filter: None }
}

#[test]
fn test_signature_is_deterministic() {
    let roster = vec![make_char("a1", "Ana"), make_char("b2", "Ben")];
    let again = vec![make_char("a1", "Ana"), make_char("b2", "Ben")];
    assert_eq!(roster_signature(&roster), roster_signature(&again));
}

#[test]
fn test_analyze_twice_is_identical() {
    let roster = vec![make_char("a1", "Ana"), make_char("b2", "Ben")];
    let chapters = vec![
        chapter("ch1", "Ana met Ben by the well.", 24, 7),
        chapter("ch2", "Ben left early.", 15, 9),
    ];
    let mut scanners = ScannerCache::new();
    let mut mentions = MentionCache::new();
    let pid = b"proj".to_vec();

    let p1 = analyze_project(&mut scanners, &mut mentions, &pid, &roster, &chapters, &options())
        .unwrap();
    // the second run answers from the caches the first run filled
    let p2 = analyze_project(&mut scanners, &mut mentions, &pid, &roster, &chapters, &options())
        .unwrap();

    assert_eq!(p1.nodes.len(), p2.nodes.len());
    for (n1, n2) in p1.nodes.iter().zip(p2.nodes.iter()) {
        assert_eq!(n1.id, n2.id);
        assert_eq!(n1.label, n2.label);
        assert_eq!(n1.mention_count, n2.mention_count);
        assert_eq!(n1.is_mapped, n2.is_mapped);
        assert_eq!(n1.first_mention, n2.first_mention);
    }
    assert_eq!(p1.edges.len(), p2.edges.len());
    for (e1, e2) in p1.edges.iter().zip(p2.edges.iter()) {
        assert_eq!(e1.source, e2.source);
        assert_eq!(e1.target, e2.target);
        assert_eq!(e1.weight, e2.weight);
        assert_eq!(e1.interaction_type, e2.interaction_type);
    }
    assert_eq!(p1.metrics.connected_components, p2.metrics.connected_components);
    assert_eq!(p1.metrics.largest_component_size, p2.metrics.largest_component_size);
    assert_eq!(p1.metrics.network_density, p2.metrics.network_density);
    assert_eq!(p1.metrics.isolation_ratio, p2.metrics.isolation_ratio);
}

#[test]
fn test_mention_cache_hit_and_invalidation() {
    let roster = vec![make_char("a1", "Ana")];
    let scanner = CharacterScanner::try_new(&roster).unwrap();
    let sig = roster_signature(&roster);
    let mut cache = MentionCache::new();
    let id = b"ch1".to_vec();
    let text = b"Ana waved. Ana left.".to_vec();

    assert!(cache.lookup_mentions(&id, 20, 5, sig).is_none());
    let recorded = cache.record_scan(&id, 20, 5, sig, &scanner, &text);
    assert_eq!(recorded.len(), 2);

    // a hit requires all three of length, time and signature to match
    let hit = cache.lookup_mentions(&id, 20, 5, sig).expect("expected a cache hit");
    assert_eq!(hit, recorded);
    assert!(cache.lookup_mentions(&id, 21, 5, sig).is_none());
    assert!(cache.lookup_mentions(&id, 20, 6, sig).is_none());
    assert!(cache.lookup_mentions(&id, 20, 5, sig.wrapping_add(1)).is_none());
}

#[test]
fn test_unreadable_chapter_degrades_gracefully() {
    let roster = vec![make_char("a1", "Ana")];
    let chapters = vec![
        ChapterData { chapter_id: b"bad".to_vec(), file_len: 3, modified: 3, content: None },
        chapter("good", "Ana here.", 9, 1),
    ];
    let mut scanners = ScannerCache::new();
    let mut mentions = MentionCache::new();
    let payload =
        analyze_project(&mut scanners, &mut mentions, &b"p".to_vec(), &roster, &chapters, &options())
            .unwrap();
    assert_eq!(payload.nodes[0].mention_count, 1);
    assert_eq!(payload.nodes[0].first_mention.as_ref().unwrap().chapter_id, b"good".to_vec());
}

#[test]
fn test_chapter_filter_restricts_analysis() {
    let roster = vec![make_char("a1", "Ana")];
    let chapters = vec![chapter("ch1", "Ana one.", 8, 1), chapter("ch2", "Ana two.", 8, 1)];
    let mut scanners = ScannerCache::new();
    let mut mentions = MentionCache::new();
    let opts = AnalysisOptions {
        proximity_window: 50,
        prune_threshold: 50,
        chapter_filter: Some(vec![b"ch2".to_vec()]),
    };
    let payload =
        analyze_project(&mut scanners, &mut mentions, &b"p".to_vec(), &roster, &chapters, &opts)
            .unwrap();
    assert_eq!(payload.nodes[0].mention_count, 1);
    assert_eq!(payload.nodes[0].first_mention.as_ref().unwrap().chapter_id, b"ch2".to_vec());
}

#[test]
fn test_empty_roster_short_circuits() {
    let mut scanners = ScannerCache::new();
    let mut mentions = MentionCache::new();
    let chapters = vec![chapter("ch1", "Anyone here?", 12, 1)];
    let payload =
        analyze_project(&mut scanners, &mut mentions, &b"p".to_vec(), &vec![], &chapters, &options())
            .unwrap();
    assert!(payload.nodes.is_empty());
    assert!(payload.edges.is_empty());
    assert_eq!(payload.metrics.connected_components, 0);
}

#[test]
fn test_scanner_cache_reuse() {
    let roster = vec![make_char("a1", "Ana")];
    let mut scanners = ScannerCache::new();
    let pid = b"p".to_vec();
    let (s1, g1) = scanners.get_or_create(&pid, &roster).unwrap();
    let (s2, g2) = scanners.get_or_create(&pid, &roster).unwrap();
    assert_eq!(g1, g2);
    let text = b"Ana and ana.".to_vec();
    assert_eq!(s1.scan(&text), s2.scan(&text));

    // a changed roster forces a rebuild under a new signature
    let renamed = vec![make_char("a1", "Anabel")];
    let (_, g3) = scanners.get_or_create(&pid, &renamed).unwrap();
    assert_ne!(g1, g3);
}

#[test]
fn test_metadata_cache_accepts_unchanged_stat() {
    // The cache checks file length, modification time and roster signature
    // only — never content. A file replaced by different text with the same
    // length and timestamp is therefore served from the cache: a deliberate
    // trade-off of the metadata-first design, exercised here so the
    // limitation stays visible.
    let roster = vec![make_char("a1", "Ana")];
    let scanner = CharacterScanner::try_new(&roster).unwrap();
    let sig = roster_signature(&roster);
    let mut cache = MentionCache::new();
    let id = b"ch1".to_vec();

    let first_text = b"Ana was here".to_vec();
    let recorded = cache.record_scan(&id, 12, 5, sig, &scanner, &first_text);
    assert_eq!(recorded.len(), 1);

    // same length, same timestamp, different bytes: still a hit
    let hit = cache.lookup_mentions(&id, 12, 5, sig).expect("metadata matched");
    assert_eq!(hit, recorded);
}
