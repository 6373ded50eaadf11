use token_tally::batch::count_tokens_from_raw_text;
use token_tally::counter::TokenProcessor;
use token_tally::matching::PatternStore;

const RAW_TEXT_LIMIT: usize = 1024;

#[test]
fn test_count_tokens_basic() {
    let store = PatternStore::new();
    let text = "Hello, World! This is a test.";
    let result = count_tokens_from_raw_text(text, RAW_TEXT_LIMIT, store.get_pattern_snapshot());
    assert_eq!(result.total, 9); // Hello , World ! This is a test .
    assert_eq!(result.unique, 9);
}

#[test]
fn test_count_tokens_with_duplicates() {
    let store = PatternStore::new();
    let text = "the quick brown fox jumps over the lazy fox";
    let result = count_tokens_from_raw_text(text, RAW_TEXT_LIMIT, store.get_pattern_snapshot());
    assert_eq!(result.total, 9); // 'the' and 'fox' appear twice, so we count them once
    assert_eq!(result.unique, 7); // 'the' and 'fox' are duplicates
}

#[test]
fn test_count_tokens_case_insensitive() {
    let store = PatternStore::new();
    let text = "The THE the tHe ThE";
    let result = count_tokens_from_raw_text(text, RAW_TEXT_LIMIT, store.get_pattern_snapshot());
    assert_eq!(result.total, 5);
    assert_eq!(result.unique, 1); // all variations of 'the' count as one unique token
}

#[test]
fn test_count_tokens_special_chars() {
    let store = PatternStore::new();
    let text = "Hello! @#$ World... ???";
    let result = count_tokens_from_raw_text(text, RAW_TEXT_LIMIT, store.get_pattern_snapshot());
    assert_eq!(result.total, 12); // Hello ! @ # $ World . . . ? ? ?
    assert_eq!(result.unique, 8); // Hello, !, @, #, $, World, ., ?
}

#[test]
fn test_count_tokens_empty() {
    let store = PatternStore::new();
    let text = "";
    let result = count_tokens_from_raw_text(text, RAW_TEXT_LIMIT, store.get_pattern_snapshot());
    assert_eq!(result.total, 0);
    assert_eq!(result.unique, 0);
}

#[test]
fn test_count_tokens_whitespace() {
    let store = PatternStore::new();
    let text = "   \n\t   \r\n";
    let result = count_tokens_from_raw_text(text, RAW_TEXT_LIMIT, store.get_pattern_snapshot());
    assert_eq!(result.total, 0);
    assert_eq!(result.unique, 0);
}

#[test]
fn test_token_processor() {
    let store = PatternStore::new();
    let mut processor = TokenProcessor::new();

    // Process first chunk
    processor.process_chunk(store.get_pattern_snapshot(), "Hello world");
    let result1 = processor.get_results();
    assert_eq!(result1.total, 2);
    assert_eq!(result1.unique, 2);

    // Process second chunk with duplicate
    processor.process_chunk(store.get_pattern_snapshot(), "hello universe");
    let result2 = processor.get_results();
    assert_eq!(result2.total, 4);
    assert_eq!(result2.unique, 3); // 'hello' is counted twice but only once as unique
}

#[test]
fn test_custom_regex_pattern() {
    let mut store = PatternStore::new();

    // Test with a pattern that matches individual words
    let pattern = r"\b[A-Za-z]+\b";
    store.set_token_regex(pattern).unwrap();

    let text = "The quick brown fox jumps over the lazy dog";
    let result = count_tokens_from_raw_text(text, RAW_TEXT_LIMIT, store.get_pattern_snapshot());
    assert_eq!(result.total, 9, "Expected 9 tokens (all words)");
    assert_eq!(result.unique, 8, "Expected 8 unique tokens (case-insensitive, 'the' appears twice)");

    // Test with a more complex pattern that includes word boundaries and captures punctuation
    let pattern = r"\b[A-Za-z]+\b|[^\s\w]";
    store.set_token_regex(pattern).unwrap();

    let text = "Hello, world! How are you?";
    let result = count_tokens_from_raw_text(text, RAW_TEXT_LIMIT, store.get_pattern_snapshot());
    assert_eq!(result.total, 8, "Expected 8 tokens (Hello , world ! How are you ?)");
    assert_eq!(result.unique, 8, "Expected 8 unique tokens");
}

#[test]
fn test_invalid_regex_pattern() {
    let mut store = PatternStore::new();
    let result = store.set_token_regex("[invalid");
    assert!(result.is_err());
}

#[test]
fn test_unicode_tokens() {
    let store = PatternStore::new();
    let text = "Hello 世界! こんにちは";
    let result = count_tokens_from_raw_text(text, RAW_TEXT_LIMIT, store.get_pattern_snapshot());
    assert_eq!(result.total, 4); // Hello, 世界, !, こんにちは
    assert_eq!(result.unique, 4);
}

#[test]
fn test_numbers_as_tokens() {
    let store = PatternStore::new();
    let text = "Testing 123 456.789 0.1";
    let result = count_tokens_from_raw_text(text, RAW_TEXT_LIMIT, store.get_pattern_snapshot());
    assert_eq!(result.total, 8); // Testing, 123, 456, ., 789, 0, ., 1
    assert_eq!(result.unique, 7); // '.' appears twice but counts as one unique token
}
