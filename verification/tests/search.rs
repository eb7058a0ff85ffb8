use fragment_store::config::Config;
use fragment_store::document::score_of;
use fragment_store::error::Error;
use fragment_store::store::RedundantFragmentStore;

fn config(chunk_size: usize, similarity_margin: u32) -> Config {
    Config { similarity_margin, ..Config::new(2, 3, chunk_size) }
}

#[test]
fn scores_are_millionths_rounded_down() {
    assert_eq!(score_of(0, 0), 0);
    assert_eq!(score_of(0, 7), 0);
    assert_eq!(score_of(1, 3), 333_333);
    assert_eq!(score_of(2, 3), 666_666);
    assert_eq!(score_of(50, 101), 495_049);
    assert_eq!(score_of(5, 5), 1_000_000);
    assert_eq!(score_of(usize::MAX, usize::MAX), 1_000_000);
    assert_eq!(score_of(1, usize::MAX), 0);
}

#[test]
fn similarity_is_the_share_of_covered_chunks() {
    let mut store = RedundantFragmentStore::new(config(4, 10_000)).unwrap();
    assert_eq!(store.put("x", b"aaaabbbbcccc"), Ok(1));
    let doc = store.document("x").unwrap();
    assert_eq!(doc.similarity(b""), 0);
    assert_eq!(doc.similarity(b"bbbb"), 333_333);
    assert_eq!(doc.similarity(b"abbbbc"), 333_333);
    assert_eq!(doc.similarity(b"bbbbcccc"), 666_666);
    assert_eq!(doc.similarity(b"aaaabbbbcccc"), 1_000_000);
    assert_eq!(doc.similarity(b"aaabbbbccc"), 333_333);
    assert_eq!(doc.similarity(b"bbbcccc"), 333_333);
    assert_eq!(doc.similarity(b"bbb"), 0);
    assert_eq!(doc.similarity(b"ccccbbbb"), 333_333);
}

#[test]
fn an_empty_document_is_similar_to_nothing() {
    let mut store = RedundantFragmentStore::new(config(4, 10_000)).unwrap();
    assert_eq!(store.put("empty", b""), Ok(1));
    assert_eq!(store.document("empty").unwrap().similarity(b""), 0);
    assert_eq!(store.document("empty").unwrap().similarity(b"abcd"), 0);
    assert_eq!(store.reconstruct(b"", None), Err(Error::NoMatch));
    assert_eq!(store.reconstruct(b"", Some("empty")), Ok(Vec::new()));
}

#[test]
fn the_best_match_is_rebuilt() {
    let mut store = RedundantFragmentStore::new(config(4, 10_000)).unwrap();
    assert_eq!(store.put("x", b"aaaabbbbcccc"), Ok(1));
    assert_eq!(store.put("y", b"ddddeeeeffff"), Ok(1));
    assert_eq!(store.put("z", b"bbbbddddeeeeffffgggg"), Ok(1));
    // x covers 2 of 3 chunks, z 1 of 5, y none.
    assert_eq!(store.reconstruct(b"bbbbcccc", None), Ok(b"aaaabbbbcccc".to_vec()));
    // y covers 3 of 3, z 3 of 5.
    assert_eq!(store.reconstruct(b"ddddeeeeffff", None), Ok(b"ddddeeeeffff".to_vec()));
    // Only z has the chunk.
    assert_eq!(
        store.reconstruct(b"gggg", None),
        Ok(b"bbbbddddeeeeffffgggg".to_vec())
    );
}

#[test]
fn nothing_matches_an_unknown_fragment() {
    let mut store = RedundantFragmentStore::new(config(4, 10_000)).unwrap();
    assert_eq!(store.reconstruct(b"bbbb", None), Err(Error::NoMatch));
    assert_eq!(store.put("x", b"aaaabbbbcccc"), Ok(1));
    assert_eq!(store.put("y", b"ddddeeeeffff"), Ok(1));
    assert_eq!(store.reconstruct(b"zzzz", None), Err(Error::NoMatch));
    assert_eq!(store.reconstruct(b"", None), Err(Error::NoMatch));
    assert_eq!(store.reconstruct(b"abbb", None), Err(Error::NoMatch));
}

#[test]
fn equal_scores_are_ambiguous_within_a_margin() {
    let mut store = RedundantFragmentStore::new(config(4, 10_000)).unwrap();
    assert_eq!(store.put("y", b"bbbbcccc"), Ok(1));
    assert_eq!(store.put("x", b"aaaabbbb"), Ok(1));
    assert_eq!(store.reconstruct(b"bbbb", None), Err(Error::AmbiguousMatch));
    // A hint settles it.
    assert_eq!(store.reconstruct(b"bbbb", Some("y")), Ok(b"bbbbcccc".to_vec()));
}

#[test]
fn without_a_margin_the_smallest_identifier_wins_a_tie() {
    let mut store = RedundantFragmentStore::new(config(4, 0)).unwrap();
    assert_eq!(store.put("y", b"bbbbcccc"), Ok(1));
    assert_eq!(store.put("x", b"aaaabbbb"), Ok(1));
    assert_eq!(store.put("xa", b"bbbbdddd"), Ok(1));
    assert_eq!(store.reconstruct(b"bbbb", None), Ok(b"aaaabbbb".to_vec()));
}

fn pattern_then(fill: u8, count: usize) -> Vec<u8> {
    let mut v: Vec<u8> = (0u8..50).collect();
    v.extend(std::iter::repeat(fill).take(count));
    v
}

#[test]
fn scores_closer_than_the_margin_are_ambiguous() {
    let fragment: Vec<u8> = (0u8..50).collect();
    // 50 of 100 chunks against 50 of 101: 500000 against 495049 millionths.
    let mut store = RedundantFragmentStore::new(config(1, 10_000)).unwrap();
    assert_eq!(store.put("a", &pattern_then(200, 50)), Ok(1));
    assert_eq!(store.put("b", &pattern_then(201, 51)), Ok(1));
    assert_eq!(store.reconstruct(&fragment, None), Err(Error::AmbiguousMatch));
    // With a margin of 4951 millionths the difference is no longer inside.
    let mut store = RedundantFragmentStore::new(config(1, 4_951)).unwrap();
    assert_eq!(store.put("a", &pattern_then(200, 50)), Ok(1));
    assert_eq!(store.put("b", &pattern_then(201, 51)), Ok(1));
    assert_eq!(store.reconstruct(&fragment, None), Ok(pattern_then(200, 50)));
    // With 4952 it is.
    let mut store = RedundantFragmentStore::new(config(1, 4_952)).unwrap();
    assert_eq!(store.put("a", &pattern_then(200, 50)), Ok(1));
    assert_eq!(store.put("b", &pattern_then(201, 51)), Ok(1));
    assert_eq!(store.reconstruct(&fragment, None), Err(Error::AmbiguousMatch));
}

#[test]
fn scores_further_apart_than_the_margin_are_not_ambiguous() {
    let fragment: Vec<u8> = (0u8..50).collect();
    // 50 of 100 chunks against 50 of 110.
    let mut store = RedundantFragmentStore::new(config(1, 10_000)).unwrap();
    assert_eq!(store.put("b", &pattern_then(201, 60)), Ok(1));
    assert_eq!(store.put("a", &pattern_then(200, 50)), Ok(1));
    assert_eq!(store.reconstruct(&fragment, None), Ok(pattern_then(200, 50)));
}

#[test]
fn the_best_match_may_lack_redundancy() {
    let mut store = RedundantFragmentStore::new(config(4, 10_000)).unwrap();
    assert_eq!(store.put("x", b"aaaabbbbcccc"), Ok(1));
    assert_eq!(store.put("y", b"ddddeeeeffff"), Ok(1));
    for j in 0..3 {
        assert_eq!(store.discard_block("x", j), Ok(()));
    }
    // The second stripe of x holds the chunk "cccc" alone, and k is 2.
    assert_eq!(
        store.reconstruct(b"aaaabbbb", None),
        Err(Error::InsufficientRedundancy)
    );
    assert_eq!(store.reconstruct(b"eeee", None), Ok(b"ddddeeeeffff".to_vec()));
}
