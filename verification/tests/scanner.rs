use castgraph::models::{Character, CharacterEngine, CharacterRole};
use castgraph::scanner::CharacterScanner;

fn make_char(id: &str, name: &str, aliases: Vec<String>) -> Character {
    Character {
        id: id.as_bytes().to_vec(),
        name: name.as_bytes().to_vec(),
        role: CharacterRole::Protagonist,
        archetype: "Hero".to_string(),
        description: "Desc".to_string(),
        engine: CharacterEngine::default(),
        physical_features: "".to_string(),
        traits: vec![],
        arc: "".to_string(),
        notes: "".to_string(),
        aliases: aliases.iter().map(|a| a.as_bytes().to_vec()).collect(),
    }
}

#[test]
fn scanner_test_scanner_with_aliases() {
    let id1_str = "00000000-0000-0000-0000-000000000001";
    let char1 = make_char(id1_str, "Robert", vec!["Bob".to_string(), "Bobby".to_string()]);

    let scanner = CharacterScanner::try_new(&vec![char1]).expect("Failed to create scanner");

    let text = "Robert met Bob and they called Bobby over.";
    let mentions = scanner.scan(text.as_bytes());

    // Should detect: Robert, Bob, Bobby
    assert_eq!(mentions.len(), 3);

    let found: Vec<usize> = mentions.iter().map(|&(_, c)| c).collect();
    assert_eq!(found, vec![0, 0, 0]);

    // Verify offsets: "Robert" at 0, "Bob" at 11, "Bobby" at 31
    assert_eq!(mentions[0].0, 0);
    assert_eq!(mentions[1].0, 11);
    assert_eq!(mentions[2].0, 31);
}

#[test]
fn scanner_test_scanner_alias_word_boundary() {
    let id1_str = "00000000-0000-0000-0000-000000000001";
    let char1 = make_char(id1_str, "Robert", vec!["Bob".to_string()]);

    let scanner = CharacterScanner::try_new(&vec![char1]).expect("Failed to create scanner");

    // "Bobby" contains "Bob", but should not match because of the boundary check
    let text = "Bobby is not Bob";
    let mentions = scanner.scan(text.as_bytes());

    assert_eq!(mentions.len(), 1);
    // Should only match the second "Bob"
    assert_eq!(mentions[0].0, 13);
}

#[test]
fn scanner_tests_test_scanner_with_aliases() {
    let char1 = make_char("id1", "Robert", vec!["Bob".to_string(), "Bobby".to_string()]);

    let scanner = CharacterScanner::try_new(&vec![char1]).expect("Failed to create scanner");

    let text = "Robert met Bob and they called Bobby over.";
    let mentions = scanner.scan(text.as_bytes());

    assert_eq!(mentions.len(), 3);
    assert_eq!(mentions[0].0, 0);
    assert_eq!(mentions[1].0, 11);
    assert_eq!(mentions[2].0, 31);
}

#[test]
fn scanner_tests_test_scanner_alias_word_boundary() {
    let char1 = make_char("id1", "Robert", vec!["Bob".to_string()]);

    let scanner = CharacterScanner::try_new(&vec![char1]).expect("Failed to create scanner");

    let text = "Bobby is not Bob";
    let mentions = scanner.scan(text.as_bytes());

    assert_eq!(mentions.len(), 1);
    assert_eq!(mentions[0].0, 13);
}

#[test]
fn test_scanner_empty_roster_fails() {
    let r = CharacterScanner::try_new(&vec![]);
    assert!(r.is_err());
}

#[test]
fn test_scanner_case_insensitive_and_tag() {
    let char1 = make_char("id9", "Alice", vec![]);
    let scanner = CharacterScanner::try_new(&vec![char1]).expect("Failed to create scanner");

    let mentions = scanner.scan("ALICE met @alice.".as_bytes());
    // "ALICE" matches the name; "@alice" matches the tag form (the name
    // inside it is claimed by the longer tag pattern).
    assert_eq!(mentions.len(), 2);
    assert_eq!(mentions[0].0, 0);
    assert_eq!(mentions[1].0, 10);
}

#[test]
fn test_scanner_machine_reference() {
    let char1 = make_char("abc-1", "Zed", vec![]);
    let scanner = CharacterScanner::try_new(&vec![char1]).expect("Failed to create scanner");

    let text = "<span data-id=\"abc-1\">x</span> and data-id='abc-1' too";
    let mentions = scanner.scan(text.as_bytes());
    assert_eq!(mentions.len(), 2);
}

#[test]
fn test_scanner_prefers_longest() {
    let char1 = make_char("idc", "Chris", vec!["Christopher".to_string()]);
    let scanner = CharacterScanner::try_new(&vec![char1]).expect("Failed to create scanner");

    let mentions = scanner.scan("Christopher waved.".as_bytes());
    // One match covering the whole alias, not a short match for "Chris"
    // followed by a stray tail.
    assert_eq!(mentions.len(), 1);
    assert_eq!(mentions[0].0, 0);
}

#[test]
fn test_scanner_duplicate_scans_alike() {
    let char1 = make_char("idd", "Mara", vec![]);
    let scanner = CharacterScanner::try_new(&vec![char1]).expect("Failed to create scanner");
    let copy = scanner.duplicate();
    let text = "Mara, then mara again.".as_bytes();
    assert_eq!(scanner.scan(text), copy.scan(text));
}

#[test]
fn test_scanner_blank_alias_skipped() {
    let char1 = make_char("ide", "Nia", vec!["   ".to_string()]);
    let scanner = CharacterScanner::try_new(&vec![char1]).expect("Failed to create scanner");
    // A blank alias must not make whitespace match.
    let mentions = scanner.scan("   Nia   ".as_bytes());
    assert_eq!(mentions.len(), 1);
    assert_eq!(mentions[0].0, 3);
}

#[test]
fn test_boundary_unicode_neighbor() {
    // An accented letter is alphanumeric, so a name running into one is not
    // on a word boundary and must be rejected.
    let char1 = make_char("idf", "Robert", vec!["Bob".to_string()]);
    let scanner = CharacterScanner::try_new(&vec![char1]).expect("Failed to create scanner");
    let mentions = scanner.scan("Bob\u{e9} is not Bob".as_bytes());
    assert_eq!(mentions.len(), 1);
    assert_eq!(mentions[0].0, 13);
}

#[test]
fn test_blank_alias_unicode_whitespace() {
    // An alias of a single non-breaking space trims to nothing and is
    // skipped like an ASCII-blank alias.
    let char1 = make_char("idg", "Nia", vec!["\u{a0}".to_string()]);
    let scanner = CharacterScanner::try_new(&vec![char1]).expect("Failed to create scanner");
    let mentions = scanner.scan("\u{a0}Nia".as_bytes());
    assert_eq!(mentions.len(), 1);
    assert_eq!(mentions[0].0, 2);
}
