use fuzzy_finder::FuzzyStringMatcher;

#[test]
fn test_fuzzy_string_matcher_simple() {
    let matcher = FuzzyStringMatcher::new();
    let r = matcher.matches(&["vpv", "oh no", "viva vpv", "foobar"], "vpv");
    assert_eq!(r.len(), 2);
    assert_eq!(r[0].index(), 0);
    assert_eq!(r[0].to_str(), "vpv");
    assert_eq!(r[0].indices(), &vec![0, 1, 2]);
    assert_eq!(r[1].index(), 2);
    assert_eq!(r[1].to_str(), "viva vpv");
    assert_eq!(r[1].indices(), &vec![5, 6, 7]);
    assert!(r[0].score() > r[1].score());
}

#[test]
fn test_fuzzy_string_matcher_no_results() {
    let matcher = FuzzyStringMatcher::new();
    let r = matcher.matches(&["vpv", "oh no", "viva vpv", "foobar"], "fghjkj");
    assert!(r.is_empty());
}
