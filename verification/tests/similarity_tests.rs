use gh_labeler::similarity::{
    calculate_label_similarity, levenshtein_distance, SIMILARITY_THRESHOLD_DEN,
    SIMILARITY_THRESHOLD_NUM,
};

#[test]
fn similarity_test_label_similarity() {
    let s = calculate_label_similarity("bug", "bug");
    assert_eq!(s.num as f64 / s.den as f64, 1.0);

    // Different labels should have low similarity
    let s = calculate_label_similarity("enhancement", "feature");
    assert!((s.num as f64 / s.den as f64) < 0.5);

    // Partial similarity
    let s = calculate_label_similarity("bug-report", "bug");
    let score = s.num as f64 / s.den as f64;
    assert!(score > 0.0 && score < 1.0);
}

#[test]
fn similarity_test_levenshtein_distance() {
    assert_eq!(levenshtein_distance("", ""), 0);
    assert_eq!(levenshtein_distance("abc", ""), 3);
    assert_eq!(levenshtein_distance("", "abc"), 3);
    assert_eq!(levenshtein_distance("abc", "abc"), 0);
    assert_eq!(levenshtein_distance("abc", "ab"), 1);
    assert_eq!(levenshtein_distance("abc", "axc"), 1);
}

#[test]
fn github_test_label_similarity() {
    let s = calculate_label_similarity("bug", "bug");
    assert_eq!(s.num as f64 / s.den as f64, 1.0);

    // Different labels should have low similarity
    let s = calculate_label_similarity("enhancement", "feature");
    assert!((s.num as f64 / s.den as f64) < 0.5);

    // Partial similarity
    let s = calculate_label_similarity("bug-report", "bug");
    let score = s.num as f64 / s.den as f64;
    assert!(score > 0.0 && score < 1.0);
}

#[test]
fn github_test_levenshtein_distance() {
    assert_eq!(levenshtein_distance("", ""), 0);
    assert_eq!(levenshtein_distance("abc", ""), 3);
    assert_eq!(levenshtein_distance("", "abc"), 3);
    assert_eq!(levenshtein_distance("abc", "abc"), 0);
    assert_eq!(levenshtein_distance("abc", "ab"), 1);
    assert_eq!(levenshtein_distance("abc", "axc"), 1);
}

#[test]
fn test_similarity_threshold_value() {
    let threshold = SIMILARITY_THRESHOLD_NUM as f64 / SIMILARITY_THRESHOLD_DEN as f64;
    assert!((threshold - 0.7).abs() < f64::EPSILON);
}

#[test]
fn test_case_insensitive_scoring() {
    // Would fail if lowercasing handed its input back unchanged.
    let s = calculate_label_similarity("BUG", "bug");
    assert_eq!(s.num, s.den);
    let s = calculate_label_similarity("Bug-Report", "bug-report");
    assert_eq!(s.num, s.den);
}

#[test]
fn test_unicode_code_point_distance() {
    // Each Japanese character counts as one code point, not several bytes.
    assert_eq!(levenshtein_distance("バグ", "バグ"), 0);
    assert_eq!(levenshtein_distance("バグ", "バ"), 1);
    assert_eq!(levenshtein_distance("バグ", ""), 2);
}

#[test]
fn test_threshold_is_strict() {
    // Ten characters, distance three: the score is exactly 7/10 and must
    // not pass the strict threshold.
    let s = calculate_label_similarity("aaaaaaabbb", "aaaaaaaaaa");
    assert_eq!(s.num, 7);
    assert_eq!(s.den, 10);
    assert!(!s.exceeds_threshold());

    // Distance two gives 8/10, which passes.
    let s = calculate_label_similarity("aaaaaaaabb", "aaaaaaaaaa");
    assert_eq!(s.num, 8);
    assert_eq!(s.den, 10);
    assert!(s.exceeds_threshold());
}

#[test]
fn test_score_comparison() {
    let better = calculate_label_similarity("bug-report", "bug-reports");
    let worse = calculate_label_similarity("bug", "bug-reports");
    assert!(better.gt(&worse));
    assert!(!worse.gt(&better));
    assert!(!better.gt(&better));
}
