use castgraph::coordinator::{analyze_project, AnalysisOptions, ChapterData, MentionCache, ScannerCache};
use castgraph::graph::{proximity_bonus, CharacterGraphPayload, GraphWeights, InteractionType};
use castgraph::models::{Character, CharacterEngine, CharacterRole};

fn make_test_character(id: &str, name: &str, role: CharacterRole) -> Character {
    Character {
        id: id.as_bytes().to_vec(),
        name: name.as_bytes().to_vec(),
        role,
        archetype: String::new(),
        description: String::new(),
        engine: CharacterEngine::default(),
        physical_features: String::new(),
        traits: vec![],
        arc: String::new(),
        notes: String::new(),
        aliases: vec![],
    }
}

fn analyze(characters: &Vec<Character>, chapters: Vec<(&str, &str)>) -> CharacterGraphPayload {
    let mut scanners = ScannerCache::new();
    let mut mentions = MentionCache::new();
    let data: Vec<ChapterData> = chapters
        .iter()
        .map(|&(id, text)| ChapterData {
            chapter_id: id.as_bytes().to_vec(),
            file_len: text.len() as u64,
            modified: 1,
            content: Some(text.as_bytes().to_vec()),
        })
        .collect();
    let options = AnalysisOptions {
        proximity_window: 50,
        prune_threshold: 50,  // 0.05 in milli-units
        chapter_filter: None,
    };
    analyze_project(
        &mut scanners,
        &mut mentions,
        &b"project".to_vec(),
        characters,
        &data,
        &options,
    )
    .expect("analysis failed")
}

/// The caller-side importance score: ln(1 + count) times the role weight.
fn valence(count: u32, role_weight_milli: u64) -> f32 {
    (1.0 + count as f32).ln() * (role_weight_milli as f32 / 1000.0)
}

#[test]
fn test_empty_project() {
    let payload = analyze(&vec![], vec![]);

    assert!(payload.nodes.is_empty());
    assert!(payload.edges.is_empty());
    assert_eq!(payload.metrics.connected_components, 0);
}

#[test]
fn test_single_character_no_mentions() {
    let characters = vec![make_test_character(
        "00000000-0000-0000-0000-000000000001",
        "Alice",
        CharacterRole::Protagonist,
    )];
    let payload = analyze(&characters, vec![]);

    assert_eq!(payload.nodes.len(), 1);
    assert_eq!(payload.nodes[0].mention_count, 0);
    assert!(!payload.nodes[0].is_mapped);
    // A character never mentioned scores ln(1) x role weight = 0.
    assert_eq!(valence(payload.nodes[0].mention_count, 2000), 0.0);
    assert!(payload.nodes[0].first_mention.is_none());
}

#[test]
fn test_co_presence_detection() {
    let characters = vec![
        make_test_character("00000000-0000-0000-0000-000000000001", "Alice", CharacterRole::Protagonist),
        make_test_character("00000000-0000-0000-0000-000000000002", "Bob", CharacterRole::Secondary),
    ];

    let payload = analyze(
        &characters,
        vec![("ch1", "Alice walked into the room. Bob was already there.")],
    );

    assert_eq!(payload.nodes.len(), 2);
    assert!(payload.nodes.iter().all(|n| n.is_mapped));
    assert_eq!(payload.edges.len(), 1);
    // weights are in milli-units: at least the 1.0 co-presence contribution
    assert!(payload.edges[0].weight >= 1000);
    assert_eq!(payload.edges[0].interaction_type, InteractionType::CoPresence);
    assert_eq!(payload.metrics.connected_components, 1);
    assert_eq!(payload.metrics.largest_component_size, 2);
    assert_eq!(payload.metrics.isolation_ratio.num, 0);
    assert_eq!(payload.metrics.isolation_ratio.den, 2);
    assert_eq!(payload.metrics.network_density.num, 1);
    assert_eq!(payload.metrics.network_density.den, 1);
}

#[test]
fn test_valence_calculation() {
    let characters = vec![
        make_test_character("00000000-0000-0000-0000-000000000001", "Hero", CharacterRole::Protagonist),
        make_test_character("00000000-0000-0000-0000-000000000002", "Extra", CharacterRole::Extra),
    ];

    let payload = analyze(
        &characters,
        vec![
            ("ch1", "Hero does something. Hero again."),
            ("ch2", "Extra appears once."),
        ],
    );

    let weights = GraphWeights::default();
    let hero = payload.nodes.iter().find(|n| n.label == b"Hero").unwrap();
    let extra = payload.nodes.iter().find(|n| n.label == b"Extra").unwrap();
    assert_eq!(hero.mention_count, 2);
    assert_eq!(extra.mention_count, 1);

    // Protagonist with 2 mentions should score higher than Extra with 1.
    assert!(valence(hero.mention_count, weights.protagonist) > valence(
        extra.mention_count,
        weights.extra
    ));
}

#[test]
fn test_proximity_bonus() {
    let bonus = proximity_bonus(10, 50, 100);
    assert!(bonus > 0);

    let bonus_far = proximity_bonus(100, 50, 100);
    assert_eq!(bonus_far, 0);

    let bonus_close = proximity_bonus(5, 50, 100);
    assert!(bonus_close > bonus);

    // distance zero earns nothing
    assert_eq!(proximity_bonus(0, 50, 100), 0);
    // exact values of the decaying formula
    assert_eq!(proximity_bonus(10, 50, 100), 500);
    assert_eq!(proximity_bonus(5, 50, 100), 1000);
    assert_eq!(proximity_bonus(50, 50, 100), 100);
}

#[test]
fn test_first_mention_location() {
    let characters = vec![make_test_character("c1", "Mira", CharacterRole::Secondary)];
    let payload = analyze(
        &characters,
        vec![("intro", "Nothing here."), ("middle", "Then Mira arrived. Mira spoke.")],
    );
    let node = &payload.nodes[0];
    assert_eq!(node.mention_count, 2);
    let fm = node.first_mention.as_ref().unwrap();
    assert_eq!(fm.chapter_id, b"middle".to_vec());
    assert_eq!(fm.char_offset, 5);
}

#[test]
fn test_prune_threshold_drops_weak_edges() {
    let characters = vec![
        make_test_character("c1", "Ana", CharacterRole::Secondary),
        make_test_character("c2", "Ben", CharacterRole::Secondary),
    ];
    let data = vec![ChapterData {
        chapter_id: b"ch1".to_vec(),
        file_len: 0,
        modified: 1,
        content: Some(b"Ana met Ben.".to_vec()),
    }];
    let mut scanners = ScannerCache::new();
    let mut mentions = MentionCache::new();
    // A prune threshold above the total weight drops the only edge.
    let options = AnalysisOptions {
        proximity_window: 50,
        prune_threshold: 10_000_000,
        chapter_filter: None,
    };
    let payload = analyze_project(
        &mut scanners,
        &mut mentions,
        &b"p".to_vec(),
        &characters,
        &data,
        &options,
    )
    .unwrap();
    assert!(payload.edges.is_empty());
    assert_eq!(payload.metrics.isolation_ratio.num, 2);
    assert_eq!(payload.metrics.connected_components, 2);
}

#[test]
fn test_chapter_order_does_not_change_weights() {
    let characters = vec![
        make_test_character("c1", "Ana", CharacterRole::Secondary),
        make_test_character("c2", "Ben", CharacterRole::Secondary),
        make_test_character("c3", "Cyr", CharacterRole::Secondary),
    ];
    let chapters = vec![
        ("one", "Ana met Ben by the bridge."),
        ("two", "Cyr sat down. Ben came in."),
        ("three", "Ana alone."),
    ];
    let mut shuffled = chapters.clone();
    shuffled.reverse();

    let p1 = analyze(&characters, chapters);
    let p2 = analyze(&characters, shuffled);

    let mut counts1: Vec<u32> = p1.nodes.iter().map(|n| n.mention_count).collect();
    let mut counts2: Vec<u32> = p2.nodes.iter().map(|n| n.mention_count).collect();
    counts1.sort();
    counts2.sort();
    assert_eq!(counts1, counts2);

    let mut w1: Vec<u64> = p1.edges.iter().map(|e| e.weight).collect();
    let mut w2: Vec<u64> = p2.edges.iter().map(|e| e.weight).collect();
    w1.sort();
    w2.sort();
    assert_eq!(w1, w2);
    assert_eq!(p1.metrics.connected_components, p2.metrics.connected_components);
    assert_eq!(p1.metrics.largest_component_size, p2.metrics.largest_component_size);
    assert_eq!(p1.metrics.network_density, p2.metrics.network_density);
    assert_eq!(p1.metrics.isolation_ratio, p2.metrics.isolation_ratio);
}
