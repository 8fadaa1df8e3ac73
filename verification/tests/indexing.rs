use castgraph::indexer::{char_pos_to_word_index, WordIndexer};
use castgraph::unionfind::UnionFind;

#[test]
fn test_word_indexer_basic() {
    let text = "one two  three".as_bytes();
    let idx = WordIndexer::new(text);
    assert_eq!(idx.get_word_index(0), 0);
    assert_eq!(idx.get_word_index(2), 0);
    assert_eq!(idx.get_word_index(4), 1);
    assert_eq!(idx.get_word_index(7), 1);  // in the whitespace gap after "two"
    assert_eq!(idx.get_word_index(9), 2);
    assert_eq!(idx.get_word_index(100), 2);
}

#[test]
fn test_word_indexer_empty_text() {
    let idx = WordIndexer::new("".as_bytes());
    assert_eq!(idx.get_word_index(0), 0);
    assert_eq!(idx.get_word_index(5), 0);
}

#[test]
fn test_char_pos_to_word_index() {
    let text = "alpha beta gamma".as_bytes();
    assert_eq!(char_pos_to_word_index(text, 0), 0);
    assert_eq!(char_pos_to_word_index(text, 6), 1);
    assert_eq!(char_pos_to_word_index(text, 11), 2);
    assert_eq!(char_pos_to_word_index(text, 999), 3);
}

#[test]
fn test_union_find_components() {
    let mut uf = UnionFind::new(5);
    assert_eq!(uf.component_sizes().len(), 5);
    uf.union(0, 1);
    uf.union(3, 4);
    assert_eq!(uf.find(0), uf.find(1));
    assert_ne!(uf.find(0), uf.find(2));
    let mut sizes = uf.component_sizes();
    sizes.sort();
    assert_eq!(sizes, vec![1, 2, 2]);
    uf.union(1, 3);
    let mut sizes2 = uf.component_sizes();
    sizes2.sort();
    assert_eq!(sizes2, vec![1, 4]);
}

#[test]
fn test_union_find_idempotent_union() {
    let mut uf = UnionFind::new(3);
    uf.union(0, 1);
    uf.union(0, 1);
    let sizes = uf.component_sizes();
    assert_eq!(sizes.len(), 2);
}

#[test]
fn test_word_indexer_unicode_whitespace() {
    // A non-breaking space separates words just like an ASCII space.
    let text = "a\u{a0}b".as_bytes();
    let idx = WordIndexer::new(text);
    assert_eq!(idx.get_word_index(0), 0);
    assert_eq!(idx.get_word_index(3), 1);

    // Leading Unicode whitespace shifts the first word start.
    let lead = "\u{a0}ab".as_bytes();
    let idx2 = WordIndexer::new(lead);
    assert_eq!(idx2.get_word_index(2), 0);
    assert_eq!(idx2.get_word_index(0), 0);
}

#[test]
fn test_word_indexer_multibyte_word() {
    // A word of non-ASCII letters is one word.
    let text = "caf\u{e9} noir".as_bytes();
    let idx = WordIndexer::new(text);
    assert_eq!(idx.get_word_index(0), 0);
    assert_eq!(idx.get_word_index(4), 0);
    assert_eq!(idx.get_word_index(6), 1);
}
