use fuzzy_finder::FuzzyPathFinder;
use fuzzy_finder::FuzzyStringMatcher;
use fuzzy_finder::SharedPathList;

fn finder_over(filenames: &[&str]) -> FuzzyPathFinder {
    let store = SharedPathList::new();
    for filename in filenames {
        store.append((*filename).to_string());
    }
    FuzzyPathFinder::new(FuzzyStringMatcher::new(), store)
}

fn query(finder: &mut FuzzyPathFinder, pattern: &str) -> Vec<String> {
    finder
        .matches_skip_and_take(pattern, 0, 100)
        .iter()
        .map(|m| m.to_str().to_string())
        .collect()
}

fn check_with_finder(finder: &mut FuzzyPathFinder, pattern: &str, expected_filenames: &[&str]) {
    let filenames = query(finder, pattern);
    let filenames_str = filenames.iter().map(|s| s.as_str()).collect::<Vec<&str>>();
    assert_eq!(filenames_str, expected_filenames);
}

fn check(filenames: &[&str], pattern: &str, expected_filenames: &[&str]) -> FuzzyPathFinder {
    let mut finder = finder_over(filenames);
    check_with_finder(&mut finder, pattern, expected_filenames);
    finder
}

#[test]
fn test_fuzzy_path_finder_single_result_exact_match() {
    check(
        &["foobar.rs", "image.png", "image.jpg"],
        "foobar",
        &["foobar.rs"],
    );
}

#[test]
fn test_fuzzy_path_finder_reuse_existing_cache_entry() {
    let mut finder = check(
        &["foobar.rs", "image.png", "image.jpg"],
        "foobar",
        &["foobar.rs"],
    );
    check_with_finder(&mut finder, "foobar", &["foobar.rs"]);
    check_with_finder(&mut finder, "foobar", &["foobar.rs"]);
    check_with_finder(&mut finder, "foobar", &["foobar.rs"]);
}

#[test]
fn test_fuzzy_path_finder_no_results() {
    check(&["foobar.rs", "image.png", "image.jpg"], "unrelated", &[]);
}

#[test]
fn test_fuzzy_path_finder_multiple_results() {
    check(
        &["foobar.rs", "image.png", "image.jpg"],
        "image.p",
        &["image.png", "image.jpg"],
    );
}

#[test]
fn test_fuzzy_path_finder_multiple_results_exact_match() {
    check(
        &[
            "foobar.rs",
            "foobarimage.png",
            "foobarimae.jpg",
            "foobarmage.png",
        ],
        "foobarimage.png",
        &["foobarimage.png"],
    );
}

#[test]
fn test_fuzzy_path_finder_multiple_results_ordered() {
    check(
        &[
            "foobar.rs",
            "foobarimage.png",
            "foobarimae.jpg",
            "foobarmage.png",
        ],
        "mage",
        &["foobarimage.png", "foobarmage.png"],
    );
}

#[test]
fn test_fuzzy_path_finder_empty_pattern_match_with_every_file() {
    check(
        &["foobar.rs", "image.png", "image.jpg"],
        "",
        &["foobar.rs", "image.jpg", "image.png"],
    );
}

#[test]
fn test_fuzzy_path_finder_multiple_results_spaces() {
    check(
        &[
            "foobar.rs",
            "fo ob arimage.png",
            "f oobarimae.jpg",
            "foobarm age.p ng",
        ],
        "mage",
        &["fo ob arimage.png", "foobarm age.p ng"],
    );
}

#[test]
fn test_fuzzy_path_finder_subdirectories_multiple_results() {
    check(
        &[
            "foobar.rs",
            "test/test/foo/image.png",
            "image.png",
            "abc/image.jpg",
        ],
        "image.p",
        &["image.png", "test/test/foo/image.png", "abc/image.jpg"],
    );
}

#[test]
fn test_fuzzy_path_finder_subdirectories_utf8_multiple_results() {
    check(
        &[
            "foobéàà€€zar.rs",
            "test/test/foo/'àç_éimage.png",
            "image.png",
            "abc€/image.jpg",
        ],
        "image.p",
        &[
            "image.png",
            "test/test/foo/'àç_éimage.png",
            "abc€/image.jpg",
        ],
    );
}

#[test]
fn lib_test_fuzzy_path_finder_single_result_exact_match() {
    check(
        &["foobar.rs", "image.png", "image.jpg"],
        "foobar",
        &["foobar.rs"],
    );
}

#[test]
fn lib_test_fuzzy_path_finder_no_results() {
    check(&["foobar.rs", "image.png", "image.jpg"], "unrelated", &[]);
}

#[test]
fn lib_test_fuzzy_path_finder_multiple_results() {
    check(
        &["foobar.rs", "image.png", "image.jpg"],
        "image.p",
        &["image.png", "image.jpg"],
    );
}

#[test]
fn lib_test_fuzzy_path_finder_multiple_results_exact_match() {
    check(
        &[
            "foobar.rs",
            "foobarimage.png",
            "foobarimae.jpg",
            "foobarmage.png",
        ],
        "mage",
        &["foobarimage.png", "foobarmage.png"],
    );
}

#[test]
fn lib_test_fuzzy_path_finder_multiple_results_ordered() {
    check(
        &[
            "foobar.rs",
            "foobarimage.png",
            "foobarimae.jpg",
            "foobarmage.png",
        ],
        "mage",
        &["foobarimage.png", "foobarmage.png"],
    );
}

#[test]
fn lib_test_fuzzy_path_finder_empty_pattern_match_with_every_file() {
    check(
        &["foobar.rs", "image.png", "image.jpg"],
        "",
        &["foobar.rs", "image.jpg", "image.png"],
    );
}

#[test]
fn lib_test_fuzzy_path_finder_multiple_results_spaces() {
    check(
        &[
            "foobar.rs",
            "fo ob arimage.png",
            "f oobarimae.jpg",
            "foobarm age.p ng",
        ],
        "mage",
        &["fo ob arimage.png", "foobarm age.p ng"],
    );
}

#[test]
fn lib_test_fuzzy_path_finder_subdirectories_multiple_results() {
    check(
        &[
            "foobar.rs",
            "test/test/foo/image.png",
            "image.png",
            "abc/image.jpg",
        ],
        "image.p",
        &["image.png", "test/test/foo/image.png", "abc/image.jpg"],
    );
}

#[test]
fn lib_test_fuzzy_path_finder_subdirectories_utf8_multiple_results() {
    check(
        &[
            "foobéàà€€zar.rs",
            "test/test/foo/'àç_éimage.png",
            "image.png",
            "abc€/image.jpg",
        ],
        "image.p",
        &[
            "image.png",
            "test/test/foo/'àç_éimage.png",
            "abc€/image.jpg",
        ],
    );
}
