use castgraph::text::count_words;

#[test]
fn models_test_count_words() {
    assert_eq!(count_words("Hello world".as_bytes()), 2);
    assert_eq!(count_words("<p>Hello world</p>".as_bytes()), 2);
    assert_eq!(count_words("<p>Hello</p><p>world</p>".as_bytes()), 2);
    assert_eq!(count_words("Hello  world".as_bytes()), 2);
    assert_eq!(count_words("".as_bytes()), 0);
    assert_eq!(count_words("<div>Nested <span>content</span></div>".as_bytes()), 2);
}

#[test]
fn utils_test_count_words() {
    assert_eq!(count_words("Hello world".as_bytes()), 2);
    assert_eq!(count_words("<p>Hello world</p>".as_bytes()), 2);
    assert_eq!(count_words("<p>Hello</p><p>world</p>".as_bytes()), 2);
    assert_eq!(count_words("Hello  world".as_bytes()), 2);
    assert_eq!(count_words("".as_bytes()), 0);
    assert_eq!(count_words("<div>Nested <span>content</span></div>".as_bytes()), 2);
}

#[test]
fn test_count_words_entities() {
    // a non-breaking space separates words; other entities do not
    assert_eq!(count_words("one&nbsp;two".as_bytes()), 2);
    assert_eq!(count_words("a&lt;b".as_bytes()), 1);
    assert_eq!(count_words("a &amp; b".as_bytes()), 3);
}

#[test]
fn test_count_words_unclosed_tag() {
    // a dangling "<" with no closing ">" is kept as text
    assert_eq!(count_words("one <two".as_bytes()), 2);
}

#[test]
fn test_count_words_unicode_whitespace() {
    assert_eq!(count_words("a\u{a0}b".as_bytes()), 2);
    assert_eq!(count_words("caf\u{e9} noir".as_bytes()), 2);
}
