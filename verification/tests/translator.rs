use emoji_translator::EmojiTranslator;

fn make_translator(glove: &str, json: &str) -> EmojiTranslator {
    let mut t = EmojiTranslator::new();
    t.initialize(glove, json).expect("initialization should succeed");
    t
}

const GLOVE: &str = "happy 1 0\njoyful 1 0\nsad -1 0";
const KEYWORDS: &str = "{\"\u{1F60A}\": [\"joyful\"], \"\u{1F622}\": [\"sad\"]}";

#[test]
fn scenario_best_match() {
    let t = make_translator(GLOVE, KEYWORDS);
    assert_eq!(t.translate_text("happy"), "\u{1F60A}");
    assert_eq!(t.translate_text("sad"), "\u{1F622}");
}

#[test]
fn scenario_punctuation_and_case() {
    let t = make_translator(GLOVE, KEYWORDS);
    assert_eq!(t.translate_text("Happy, happy!!"), "\u{1F60A} \u{1F60A}");
}

#[test]
fn scenario_below_threshold() {
    // "up" is orthogonal to every keyword vector: similarity 0.0 < 0.5.
    let glove = "up 0 1\njoyful 1 0\nsad -1 0";
    let t = make_translator(glove, KEYWORDS);
    assert_eq!(t.translate_text("up"), "");
}

#[test]
fn empty_input_yields_empty_output() {
    let t = make_translator(GLOVE, KEYWORDS);
    assert_eq!(t.translate_text(""), "");
}

#[test]
fn unknown_words_contribute_nothing() {
    let t = make_translator(GLOVE, KEYWORDS);
    assert_eq!(t.translate_text("zebra"), "");
    assert_eq!(t.translate_text("zebra happy zebra"), "\u{1F60A}");
}

#[test]
fn malformed_json_fails_initialization() {
    let mut t = EmojiTranslator::new();
    let r = t.initialize(GLOVE, "{ not json");
    let msg = r.expect_err("a document that is not JSON must be rejected");
    assert!(msg.starts_with("Error parsing JSON: "));
    // The embeddings were loaded before the failure; with no keywords the
    // engine degrades to empty output.
    assert_eq!(t.translate_text("happy"), "");
}

#[test]
fn non_object_top_level_is_tolerated() {
    // A bare array parses as JSON, so initialization succeeds with an
    // empty keyword table and every translation is empty.
    let mut t = EmojiTranslator::new();
    assert!(t.initialize(GLOVE, "[1, 2, 3]").is_ok());
    assert_eq!(t.translate_text("happy"), "");
}

#[test]
fn malformed_embedding_lines_are_skipped() {
    // A line with one token, a line whose numbers are all unreadable, and
    // readable lines mixed together: initialization still succeeds.
    let glove = "loner\njunk x y z\nhappy 1 0\njoyful 1 0";
    let t = make_translator(glove, KEYWORDS);
    assert_eq!(t.translate_text("happy"), "\u{1F60A}");
    assert_eq!(t.translate_text("loner junk"), "");
}

#[test]
fn unreadable_values_are_dropped_not_fatal() {
    // "oops" is dropped from the vector, leaving [1, 0]; the word still
    // matches its keyword exactly.
    let glove = "happy 1 oops 0\njoyful 1 0";
    let json = "{\"\u{1F60A}\": [\"joyful\"]}";
    let t = make_translator(glove, json);
    assert_eq!(t.translate_text("happy"), "\u{1F60A}");
}

#[test]
fn keywords_without_embeddings_are_skipped() {
    let json = "{\"\u{1F60A}\": [\"missing\", \"joyful\"]}";
    let t = make_translator(GLOVE, json);
    assert_eq!(t.translate_text("happy"), "\u{1F60A}");
}

#[test]
fn non_string_keywords_and_non_array_values_are_skipped() {
    let json = "{\"\u{1F60A}\": [7, \"joyful\", null], \"\u{1F4A}\": 5}";
    let t = make_translator(GLOVE, json);
    assert_eq!(t.translate_text("happy"), "\u{1F60A}");
}

#[test]
fn decimal_vectors_parse_exactly() {
    // 0.6*0.8 + 0.8*0.6 = 0.96 similarity against a distinct vector.
    let glove = "alpha 0.6 0.8\nbeta 0.8 0.6";
    let json = "{\"\u{2B50}\": [\"beta\"]}";
    let t = make_translator(glove, json);
    assert_eq!(t.translate_text("alpha"), "\u{2B50}");
}

#[test]
fn best_scoring_emoji_wins() {
    // gold matches "near" (cos = 1.0) better than "far" (cos ~ 0.6).
    let glove = "gold 1 0\nnear 1 0\nfar 3 4";
    let json = "{\"\u{1F947}\": [\"near\"], \"\u{1F948}\": [\"far\"]}";
    let t = make_translator(glove, json);
    assert_eq!(t.translate_text("gold"), "\u{1F947}");
}

#[test]
fn later_lines_overwrite_earlier_words() {
    let glove = "happy 0 1\nhappy 1 0\njoyful 1 0";
    let t = make_translator(glove, KEYWORDS);
    assert_eq!(t.translate_text("happy"), "\u{1F60A}");
}

#[test]
fn mismatched_dimensions_score_zero_not_error() {
    // Vectors of different lengths coexist in the table; comparing them
    // scores zero rather than failing.
    let glove = "happy 1 0\njoyful 1 0 0";
    let t = make_translator(glove, KEYWORDS);
    assert_eq!(t.translate_text("happy"), "");
}

#[test]
fn oversized_values_are_dropped_like_unreadable_tokens() {
    // A component beyond the fixed-point bound is dropped from the vector,
    // exactly as an unreadable token is.
    let glove = "happy 999999 1 0\njoyful 1 0";
    let t = make_translator(glove, KEYWORDS);
    assert_eq!(t.translate_text("happy"), "\u{1F60A}");
}

#[test]
fn overlong_vectors_skip_the_line() {
    // A line with more readable components than the dimension bound is
    // skipped whole, like a malformed line.
    let mut line = String::from("long");
    for _ in 0..1025 {
        line.push_str(" 1");
    }
    let glove = format!("{}\njoyful 1 0", line);
    let t = make_translator(&glove, KEYWORDS);
    assert_eq!(t.translate_text("long"), "");
    assert_eq!(t.translate_text("joyful"), "\u{1F60A}");
}

#[test]
fn second_initialization_adds_entries() {
    let mut t = EmojiTranslator::new();
    t.initialize(GLOVE, KEYWORDS).unwrap();
    t.initialize("calm 0 1\nserene 0 1", "{\"\u{1F9D8}\": [\"serene\"]}").unwrap();
    assert_eq!(t.translate_text("happy calm"), "\u{1F60A} \u{1F9D8}");
}
