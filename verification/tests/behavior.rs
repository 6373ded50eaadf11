use token_tally::batch::count_tokens_from_raw_text;
use token_tally::counter::TokenProcessor;
use token_tally::errors::TokenError;
use token_tally::matching::{default_token_regex, PatternStore};
use token_tally::preview::get_file_preview;
use token_tally::splitter::{advance_offset, split_chunks};

const BIG_LIMIT: usize = 1024;

#[test]
fn default_pattern_is_documented() {
    assert_eq!(default_token_regex(), r"\b[\p{L}\p{N}]+\b|[^\s\p{L}\p{N}]");
}

#[test]
fn single_chunk_total_equals_whole_text_total() {
    // With the whole text in one chunk no token is split, so any two limits
    // that each cover the text give the same counts.
    let store = PatternStore::new();
    let text = "the quick brown fox jumps over the lazy fox";
    let whole = count_tokens_from_raw_text(text, BIG_LIMIT, store.get_pattern_snapshot());
    let exact = count_tokens_from_raw_text(text, text.chars().count(), store.get_pattern_snapshot());
    assert_eq!(whole.total, exact.total);
    assert_eq!(whole.unique, exact.unique);
}

#[test]
fn chunk_boundaries_change_totals_by_a_bounded_amount() {
    // A token straddling a chunk boundary is seen as two shorter tokens, so a
    // small chunk limit may raise the total, by at most one per boundary.
    let store = PatternStore::new();
    let text = "the quick brown fox jumps over the lazy fox";
    let n_chars = text.chars().count();
    let limit = 4;
    let boundaries = (n_chars - 1) / limit;
    let whole = count_tokens_from_raw_text(text, BIG_LIMIT, store.get_pattern_snapshot());
    let chunked = count_tokens_from_raw_text(text, limit, store.get_pattern_snapshot());
    assert!(whole.total <= chunked.total);
    assert!(chunked.total <= whole.total + boundaries as u32);
}

#[test]
fn unique_never_exceeds_total() {
    let store = PatternStore::new();
    for text in ["", "a", "a a a", "Mixed CASE case MIXED", "!!!", "犬 犬 猫"] {
        for limit in [1, 2, 3, BIG_LIMIT] {
            let result = count_tokens_from_raw_text(text, limit, store.get_pattern_snapshot());
            assert!(result.unique <= result.total);
        }
    }
}

#[test]
fn pattern_swap_mid_session_keeps_absorbed_counts() {
    let mut store = PatternStore::new();
    let mut processor = TokenProcessor::new();
    processor.process_chunk(store.get_pattern_snapshot(), "Hello world");
    let before = processor.get_results();
    assert_eq!(before.total, 2);
    assert_eq!(before.unique, 2);

    // Switch to a pattern that matches digit runs only; the first chunk's
    // contribution stays as it was absorbed.
    store.set_token_regex(r"[0-9]+").unwrap();
    processor.process_chunk(store.get_pattern_snapshot(), "one 2 three 44");
    let after = processor.get_results();
    assert_eq!(after.total, 4); // 2 from the first chunk + tokens "2" and "44"
    assert_eq!(after.unique, 4);
}

#[test]
fn rejected_pattern_leaves_matching_unchanged() {
    let mut store = PatternStore::new();
    let text = "a-b";
    let before = count_tokens_from_raw_text(text, BIG_LIMIT, store.get_pattern_snapshot());
    assert_eq!(before.total, 3); // a - b
    let result = store.set_token_regex("[invalid");
    assert!(matches!(result, Err(TokenError::InvalidPattern(_))));
    let after = count_tokens_from_raw_text(text, BIG_LIMIT, store.get_pattern_snapshot());
    assert_eq!(after.total, before.total);
    assert_eq!(after.unique, before.unique);
}

#[test]
fn custom_pattern_spanning_whitespace_is_trimmed() {
    // This pattern matches a word together with surrounding blanks; the match
    // is trimmed before counting, so both spellings collapse to one.
    let mut store = PatternStore::new();
    store.set_token_regex(r"\s*[a-z]+\s*").unwrap();
    let result = count_tokens_from_raw_text("the the", BIG_LIMIT, store.get_pattern_snapshot());
    assert_eq!(result.total, 2);
    assert_eq!(result.unique, 1);
}

#[test]
fn preview_short_text_is_verbatim() {
    let bytes = "hello".as_bytes();
    assert_eq!(get_file_preview(bytes, 10).unwrap(), "hello");
    assert_eq!(get_file_preview(bytes, 5).unwrap(), "hello");
}

#[test]
fn preview_truncates_on_character_boundary() {
    // The budget is in bytes: each of these characters takes three.
    let text = "日本語テキスト";
    assert_eq!(get_file_preview(text.as_bytes(), 3).unwrap(), "日...");
    assert_eq!(get_file_preview(text.as_bytes(), 9).unwrap(), "日本語...");
    assert_eq!(get_file_preview(text.as_bytes(), 21).unwrap(), text);

    let accented = "héllo wörld";
    assert_eq!(get_file_preview(accented.as_bytes(), 6).unwrap(), "héllo...");
}

#[test]
fn preview_budget_inside_a_character_backs_off() {
    // A budget landing inside a multi-byte character retreats to the previous
    // character boundary rather than cutting the character or panicking.
    assert_eq!(get_file_preview("é".as_bytes(), 1).unwrap(), "...");
    assert_eq!(get_file_preview("aé".as_bytes(), 2).unwrap(), "a...");
    assert_eq!(get_file_preview("日本語テキスト".as_bytes(), 5).unwrap(), "日...");
}

#[test]
fn preview_edge_lengths() {
    assert_eq!(get_file_preview(b"", 0).unwrap(), "");
    assert_eq!(get_file_preview(b"abc", 0).unwrap(), "...");
    assert_eq!(get_file_preview(b"abc", 2).unwrap(), "ab...");
    assert_eq!(get_file_preview(b"abc", 3).unwrap(), "abc");
}

#[test]
fn preview_rejects_invalid_utf8() {
    let bytes = [0xff, 0xfe, 0x68, 0x69];
    let result = get_file_preview(&bytes, 10);
    assert!(matches!(result, Err(TokenError::NotUtf8)));
}

#[test]
fn byte_chunks_decode_leniently() {
    let store = PatternStore::new();
    let mut processor = TokenProcessor::new();
    // A lone invalid byte becomes a replacement character, which the default
    // pattern counts as a one-character token.
    processor.absorb_chunk_bytes(store.get_pattern_snapshot(), &[0xff]);
    let result = processor.get_results();
    assert_eq!(result.total, 1);
    assert_eq!(result.unique, 1);

    processor.absorb_chunk_bytes(store.get_pattern_snapshot(), "two words".as_bytes());
    let result = processor.get_results();
    assert_eq!(result.total, 3);
    assert_eq!(result.unique, 3);
}

#[test]
fn empty_chunk_changes_nothing() {
    let store = PatternStore::new();
    let mut processor = TokenProcessor::new();
    processor.process_chunk(store.get_pattern_snapshot(), "one two");
    processor.process_chunk(store.get_pattern_snapshot(), "");
    let result = processor.get_results();
    assert_eq!(result.total, 2);
    assert_eq!(result.unique, 2);
}

#[test]
fn split_chunks_covers_text_without_cutting_characters() {
    let chunks = split_chunks("abcdef", 4);
    assert_eq!(chunks, vec!["abcd".to_string(), "ef".to_string()]);

    // The limit counts characters, so multi-byte characters are never cut.
    let chunks = split_chunks("a日b語c", 2);
    assert_eq!(chunks, vec!["a日".to_string(), "b語".to_string(), "c".to_string()]);
    assert_eq!(chunks.concat(), "a日b語c");

    let chunks = split_chunks("", 4);
    assert!(chunks.is_empty());
}

#[test]
fn advance_offset_steps_cover_a_source() {
    let mut offset = 0usize;
    let mut steps = 0usize;
    while offset < 10 {
        let next = advance_offset(offset, 10, 4);
        assert!(offset < next && next <= 10);
        assert!(next - offset <= 4);
        offset = next;
        steps += 1;
    }
    assert_eq!(offset, 10);
    assert_eq!(steps, 3);
}

#[test]
fn error_messages_name_each_failure() {
    assert_eq!(TokenError::NotUtf8.message(), "input is not valid UTF-8");
    assert_eq!(TokenError::SourceReadError.message(), "the byte source failed to yield a chunk");
    assert_eq!(TokenError::CallbackError.message(), "the progress sink rejected a report");
    let invalid = TokenError::InvalidPattern("oops".to_string());
    assert_eq!(invalid.message(), "invalid pattern: oops");
}
