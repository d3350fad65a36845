use fuzzy_finder::FuzzyPathFinder;
use fuzzy_finder::FuzzyStringMatcher;
use fuzzy_finder::SharedPathList;

fn names(matches: &[fuzzy_finder::Match]) -> Vec<String> {
    matches.iter().map(|m| m.to_str().to_string()).collect()
}

#[test]
fn test_pagination_reconstructs_full_set() {
    let store = SharedPathList::new();
    for f in &[
        "alpha.rs",
        "beta.rs",
        "gamma.rs",
        "delta.rs",
        "epsilon.rs",
    ] {
        store.append((*f).to_string());
    }
    let mut finder = FuzzyPathFinder::new(FuzzyStringMatcher::new(), store);
    let full = names(&finder.matches_skip_and_take("", 0, 100));
    assert_eq!(full.len(), 5);
    let mut paged: Vec<String> = Vec::new();
    let mut skip = 0;
    loop {
        let page = finder.matches_skip_and_take("", skip, 2);
        if page.is_empty() {
            break;
        }
        paged.extend(names(&page));
        skip += 2;
    }
    assert_eq!(paged, full);
}

#[test]
fn test_growing_path_set_keeps_earlier_matches() {
    let store = SharedPathList::new();
    store.append("image.png".to_string());
    let mut finder = FuzzyPathFinder::new(FuzzyStringMatcher::new(), store.clone());
    let first = names(&finder.matches_skip_and_take("image", 0, 100));
    assert_eq!(first, vec!["image.png".to_string()]);
    store.append("image.jpg".to_string());
    store.append("unrelated.txt".to_string());
    let second = names(&finder.matches_skip_and_take("image", 0, 100));
    for name in &first {
        assert!(second.contains(name));
    }
    assert!(second.contains(&"image.jpg".to_string()));
}

#[test]
fn test_eviction_and_rescan_same_result() {
    let store = SharedPathList::new();
    for f in &["foobar.rs", "image.png", "image.jpg"] {
        store.append((*f).to_string());
    }
    let mut finder = FuzzyPathFinder::new(FuzzyStringMatcher::new(), store);
    let before = names(&finder.matches_skip_and_take("image", 0, 100));
    // Twenty further distinct patterns crowd the first one out of the
    // bounded cache.
    let fillers = [
        "p00", "p01", "p02", "p03", "p04", "p05", "p06", "p07", "p08", "p09", "p10", "p11",
        "p12", "p13", "p14", "p15", "p16", "p17", "p18", "p19",
    ];
    for p in &fillers {
        let _ = finder.matches_skip_and_take(p, 0, 100);
    }
    let after = names(&finder.matches_skip_and_take("image", 0, 100));
    assert_eq!(before, after);
}

#[test]
fn test_stop_flag_round_trip() {
    let store = SharedPathList::new();
    assert!(!store.stop_requested());
    let finder = FuzzyPathFinder::new(FuzzyStringMatcher::new(), store.clone());
    finder.stop();
    assert!(store.stop_requested());
}

#[test]
fn test_empty_store_empty_result() {
    let store = SharedPathList::new();
    let mut finder = FuzzyPathFinder::new(FuzzyStringMatcher::new(), store);
    assert!(finder.matches_skip_and_take("anything", 0, 10).is_empty());
    assert!(finder.matches_skip_and_take("", 0, 10).is_empty());
}

#[test]
fn test_skip_beyond_end_is_empty() {
    let store = SharedPathList::new();
    store.append("one.rs".to_string());
    store.append("two.rs".to_string());
    let mut finder = FuzzyPathFinder::new(FuzzyStringMatcher::new(), store);
    assert!(finder.matches_skip_and_take("", 5, 10).is_empty());
    assert_eq!(finder.matches_skip_and_take("", 1, 10).len(), 1);
}

#[test]
fn test_rankable_text_checks_transliterated_digits() {
    assert!(fuzzy_finder::rankable_text("file123.txt"));
    assert!(fuzzy_finder::rankable_text("1234567890123456789")); // nineteen digits
    assert!(!fuzzy_finder::rankable_text(&"7".repeat(20)));
    // A superscript one is no ASCII digit, but the comparator's
    // transliteration turns it into one; a long run of them must be
    // refused just like a run of plain digits.
    assert!(!fuzzy_finder::rankable_text(&"¹".repeat(25)));
    assert!(fuzzy_finder::rankable_text(&"¹2³4".repeat(4)));
}

#[test]
fn test_append_if_rankable_skips_overlong_digit_runs() {
    let store = SharedPathList::new();
    assert!(store.append_if_rankable("image1.png".to_string()));
    assert!(!store.append_if_rankable("¹".repeat(30)));
    let mut finder = FuzzyPathFinder::new(FuzzyStringMatcher::new(), store);
    let all = names(&finder.matches_skip_and_take("", 0, 100));
    assert_eq!(all, vec!["image1.png".to_string()]);
}
