use gtllm::content_cache::{content_hash, parse_content_cached, ParsedContentCache, PARSED_CACHE_MAX_ENTRIES};
use gtllm::parse_message_content;

#[test]
fn cached_parse_equals_a_fresh_parse() {
    let mut cache = ParsedContentCache::new();
    let text = "# Title\n\nSome *text*.";
    let first = parse_content_cached(&mut cache, text);
    assert_eq!(first, parse_message_content(text));
    let again = parse_content_cached(&mut cache, text);
    assert_eq!(again, first);
    assert_eq!(cache.get(content_hash(text), text), Some(first));
    assert_eq!(cache.get(content_hash(text), "other"), None);
}

#[test]
fn insert_then_get_reads_back() {
    let mut cache = ParsedContentCache::new();
    let text = "- a\n- b";
    cache.insert(7, text.to_string(), parse_message_content(text));
    assert_eq!(cache.get(7, text), Some(parse_message_content(text)));
    assert_eq!(cache.get(8, text), None);
}

#[test]
fn the_oldest_entry_leaves_when_full() {
    let mut cache = ParsedContentCache::new();
    for k in 0..(PARSED_CACHE_MAX_ENTRIES as u64 + 1) {
        let text = format!("reply {k}");
        let parsed = parse_message_content(&text);
        cache.insert(k, text, parsed);
    }
    assert_eq!(cache.get(0, "reply 0"), None);
    assert!(cache.get(1, "reply 1").is_some());
    assert!(cache.get(256, "reply 256").is_some());
}

#[test]
fn hashes_are_stable() {
    assert_eq!(content_hash("same"), content_hash("same"));
    assert_ne!(content_hash("same"), content_hash("different"));
}
