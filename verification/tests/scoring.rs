use emoji_translator::score::cosine_similarity;
use emoji_translator::EmojiTranslator;

#[test]
fn self_similarity_is_one() {
    let a: Vec<i64> = vec![300, -400, 1200];
    let s = cosine_similarity(&a, &a);
    assert!(s.is_one());
    assert!(!s.is_zero());
    assert!(s.exceeds_half());
}

#[test]
fn mismatched_lengths_score_zero() {
    let a: Vec<i64> = vec![1000, 2000];
    let b: Vec<i64> = vec![1000, 2000, 3000];
    let s = cosine_similarity(&a, &b);
    assert!(s.is_zero());
    assert!(!s.exceeds_half());
}

#[test]
fn zero_vector_scores_zero() {
    let z: Vec<i64> = vec![0, 0, 0];
    let b: Vec<i64> = vec![5, -7, 11];
    assert!(cosine_similarity(&z, &b).is_zero());
    assert!(cosine_similarity(&b, &z).is_zero());
    assert!(cosine_similarity(&z, &z).is_zero());
}

#[test]
fn empty_vectors_score_zero() {
    let e: Vec<i64> = vec![];
    assert!(cosine_similarity(&e, &e).is_zero());
}

#[test]
fn score_is_symmetric() {
    let a: Vec<i64> = vec![3, 4, -5];
    let b: Vec<i64> = vec![-2, 9, 6];
    assert_eq!(cosine_similarity(&a, &b), cosine_similarity(&b, &a));
    let c: Vec<i64> = vec![1, 1];
    let d: Vec<i64> = vec![1, 1, 1];
    assert_eq!(cosine_similarity(&c, &d), cosine_similarity(&d, &c));
}

#[test]
fn threshold_is_strict() {
    // cos((1,0), (3,4)) = 3/5 = 0.6 > 0.5; cos((1,0), (0,1)) = 0.
    let a: Vec<i64> = vec![1000, 0];
    let b: Vec<i64> = vec![3000, 4000];
    let c: Vec<i64> = vec![0, 1000];
    assert!(cosine_similarity(&a, &b).exceeds_half());
    assert!(!cosine_similarity(&a, &c).exceeds_half());
    // cos((4,3), (3,4)) = 24/25 = 0.96: above the threshold, below one.
    let d: Vec<i64> = vec![4000, 3000];
    let e: Vec<i64> = vec![3000, 4000];
    let s = cosine_similarity(&d, &e);
    assert!(s.exceeds_half());
    assert!(!s.is_one());
}

#[test]
fn translator_scoring_method_agrees() {
    let t = EmojiTranslator::new();
    let a: Vec<i64> = vec![10, 20];
    assert!(t.cosine_similarity(&a, &a).is_one());
    let b: Vec<i64> = vec![10, 20, 30];
    assert!(t.cosine_similarity(&a, &b).is_zero());
}

#[test]
fn filtering_keeps_only_letters_digits_whitespace_periods() {
    let t = EmojiTranslator::new();
    assert_eq!(t.filter_text("Hi, there!! 3.5?"), "Hi there 3.5");
    assert_eq!(t.filter_text("a-b_c"), "abc");
    assert_eq!(t.filter_text(""), "");
}

#[test]
fn filtering_is_idempotent_on_samples() {
    let t = EmojiTranslator::new();
    for s in ["Hi, there!! 3.5?", "nothing-to-drop", "!!!", "a b\tc\nd"] {
        let once = t.filter_text(s);
        let twice = t.filter_text(&once);
        assert_eq!(once, twice);
    }
}

#[test]
fn module_initialize_reports_zero() {
    assert_eq!(emoji_translator::initialize(), 0);
}
