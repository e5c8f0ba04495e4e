use plato_afterlife::text::{count_tag_hits, count_word_hits, score};

#[test]
fn word_hits_count_each_listed_word_found() {
    let words = vec!["cuda", "alloc", "failed", "cuda"];
    assert_eq!(count_word_hits("always check vram before cuda alloc", &words), 3);
    assert_eq!(count_word_hits("", &words), 0);
    assert_eq!(count_word_hits("anything", &Vec::new()), 0);
    // substrings count, case is not folded here
    assert_eq!(count_word_hits("preallocated", &vec!["alloc", "ALLOC"]), 1);
}

#[test]
fn tag_hits_test_both_directions() {
    let tags = vec!["from:jc1".to_string(), "role:edge specialist".to_string()];
    // the lower-cased query holds the first tag
    assert_eq!(count_tag_hits(&tags, "ask from:jc1 now", "ASK from:jc1 NOW"), 1);
    // the second tag holds the query as given
    assert_eq!(count_tag_hits(&tags, "edge", "edge"), 1);
    // the query as given is not lower-cased for the second test
    assert_eq!(count_tag_hits(&tags, "edge", "EDGE"), 0);
    assert_eq!(count_tag_hits(&tags, "nothing", "nothing"), 0);
}

#[test]
fn score_combines_words_and_tags() {
    assert_eq!(score(2, 3, 0), 666_666_666);
    assert_eq!(score(1, 3, 0), 333_333_333);
    assert_eq!(score(0, 3, 1), 200_000_000);
    assert_eq!(score(3, 3, 2), 1_000_000_000);
    assert_eq!(score(0, 0, 4), 0);
    assert_eq!(score(0, 2, 7), 1_000_000_000);
}
