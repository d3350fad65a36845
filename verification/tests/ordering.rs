use fuzzy_finder::IndexedMatch;
use fuzzy_finder::Match;

fn sort_matches(v: &mut Vec<Match>) {
    v.sort_by(|a, b| a.ranking(b).cmp(&0));
}

fn sort_indexed(v: &mut Vec<IndexedMatch>) {
    v.sort_by(|a, b| a.ranking(b).cmp(&0));
}

#[test]
fn test_match_order() {
    let m1 = Match::new("/my/path".to_string(), 10, Vec::new());
    let m2 = Match::new("/my/path2".to_string(), 100, Vec::new());
    let m3 = Match::new("/my/path3".to_string(), 12, Vec::new());
    let mut v = vec![m3.clone(), m2.clone(), m1.clone()];
    sort_matches(&mut v);
    assert!(v == vec![m2, m3, m1]);
}

#[test]
fn test_indexed_match_order() {
    let m1 = IndexedMatch::new(Match::new("/my/path".to_string(), 100, Vec::new()), 0);
    let m2 = IndexedMatch::new(Match::new("/my/path2".to_string(), 10, Vec::new()), 10);
    let m3 = IndexedMatch::new(Match::new("/my/path3".to_string(), 1000, Vec::new()), 2);
    let mut v = vec![m3.clone(), m2.clone(), m1.clone()];
    sort_indexed(&mut v);
    assert!(v == vec![m3, m1, m2]);
}

#[test]
fn test_match_order_same_score() {
    let m1 = Match::new("/my/path-0001".to_string(), 100, Vec::new());
    let m2 = Match::new("/my/path-0002".to_string(), 100, Vec::new());
    let m3 = Match::new("/my/path-0003".to_string(), 100, Vec::new());
    let mut v = vec![m3.clone(), m2.clone(), m1.clone()];
    sort_matches(&mut v);
    assert!(v == vec![m1, m2, m3]);
}

#[test]
fn test_match_order_embedded_numbers() {
    let a = Match::new("file2".to_string(), 7, Vec::new());
    let b = Match::new("file10".to_string(), 7, Vec::new());
    assert_eq!(a.ranking(&b), -1);
    assert_eq!(b.ranking(&a), 1);
    assert_eq!(a.ranking(&a), 0);
}

#[test]
fn test_match_accessors() {
    let m = Match::new("abc".to_string(), 42, vec![0, 2]);
    assert_eq!(m.to_str(), "abc");
    assert_eq!(m.score(), 42);
    assert_eq!(m.indices(), &vec![0, 2]);
    let d = m.duplicate();
    assert!(d == m);
}

#[test]
fn test_indexed_match_accessors() {
    let m = IndexedMatch::new(Match::new("abc".to_string(), 42, vec![1]), 7);
    assert_eq!(m.to_str(), "abc");
    assert_eq!(m.score(), 42);
    assert_eq!(m.indices(), &vec![1]);
    assert_eq!(m.index(), 7);
}
