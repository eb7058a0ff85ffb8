use fragment_store::config::Config;
use fragment_store::error::Error;
use fragment_store::store::RedundantFragmentStore;

const FOX: &[u8] = b"The quick brown fox jumps";

fn fox_store(chunk_size: usize) -> RedundantFragmentStore {
    let mut store = RedundantFragmentStore::new(Config::new(3, 5, chunk_size)).unwrap();
    assert_eq!(store.put("doc1", FOX), Ok(1));
    store
}

fn bytes(len: usize, seed: u32) -> Vec<u8> {
    let mut state = seed;
    let mut out = Vec::new();
    for _ in 0..len {
        state = state.wrapping_mul(1_664_525).wrapping_add(1_013_904_223);
        out.push((state >> 24) as u8);
    }
    out
}

#[test]
fn three_of_five_blocks_rebuild_the_document() {
    for chunk_size in [1usize, 2, 4, 7, 25, 40] {
        for first in 0..5usize {
            for second in (first + 1)..5usize {
                let mut store = fox_store(chunk_size);
                assert_eq!(store.discard_block("doc1", first), Ok(()));
                assert_eq!(store.discard_block("doc1", second), Ok(()));
                assert_eq!(store.reconstruct(b"", Some("doc1")), Ok(FOX.to_vec()));
            }
        }
    }
}

#[test]
fn two_of_five_blocks_are_not_enough() {
    for chunk_size in [1usize, 2, 4, 7, 25, 40] {
        for first in 0..5usize {
            for second in (first + 1)..5usize {
                let mut store = fox_store(chunk_size);
                for j in 0..5usize {
                    if j != first && j != second {
                        assert_eq!(store.discard_block("doc1", j), Ok(()));
                    }
                }
                assert_eq!(
                    store.reconstruct(b"", Some("doc1")),
                    Err(Error::InsufficientRedundancy)
                );
            }
        }
    }
}

#[test]
fn an_intact_document_is_rebuilt_from_any_fragment() {
    let store = fox_store(4);
    for fragment in [&b""[..], b"quick", b"not in the text", FOX] {
        assert_eq!(store.reconstruct(fragment, Some("doc1")), Ok(FOX.to_vec()));
    }
}

#[test]
fn any_k_blocks_rebuild_random_content() {
    let shapes = [(1usize, 1usize), (1, 3), (2, 3), (3, 5), (4, 4), (5, 9), (7, 8)];
    for (round, (k, n)) in shapes.iter().enumerate() {
        for (len, chunk_size) in [(0usize, 3usize), (1, 1), (17, 2), (64, 8), (100, 7)] {
            let content = bytes(len, 7 + round as u32);
            let mut store = RedundantFragmentStore::new(Config::new(*k, *n, chunk_size)).unwrap();
            assert_eq!(store.put("d", &content), Ok(1));
            // Lose the first n - k blocks: the data blocks go first.
            for j in 0..(n - k) {
                assert_eq!(store.discard_block("d", j), Ok(()));
            }
            assert_eq!(store.reconstruct(b"", Some("d")), Ok(content.clone()));
            if len > 0 {
                assert_eq!(store.discard_block("d", n - 1), Ok(()));
                assert_eq!(
                    store.reconstruct(b"", Some("d")),
                    Err(Error::InsufficientRedundancy)
                );
            } else {
                // An empty document has no stripe that could fall short.
                assert_eq!(store.discard_block("d", n - 1), Ok(()));
                assert_eq!(store.reconstruct(b"", Some("d")), Ok(Vec::new()));
            }
        }
    }
}

#[test]
fn the_widest_code_rebuilds_from_parity_alone() {
    // 257 pieces, 100 of them data: lose all data blocks and 57 parity blocks.
    let content = bytes(300, 99);
    let mut store = RedundantFragmentStore::new(Config::new(100, 257, 1)).unwrap();
    assert_eq!(store.put("wide", &content), Ok(1));
    for j in 0..157 {
        assert_eq!(store.discard_block("wide", j), Ok(()));
    }
    assert_eq!(store.reconstruct(b"", Some("wide")), Ok(content.clone()));
    assert_eq!(store.discard_block("wide", 200), Ok(()));
    assert_eq!(
        store.reconstruct(b"", Some("wide")),
        Err(Error::InsufficientRedundancy)
    );
}

fn parity_only_store() -> RedundantFragmentStore {
    // One stripe of three chunks; the three data blocks are lost.
    let mut store = RedundantFragmentStore::new(Config::new(3, 5, 4)).unwrap();
    assert_eq!(store.put("doc", b"ABCDEFGHIJKL"), Ok(1));
    for j in 0..3 {
        assert_eq!(store.discard_block("doc", j), Ok(()));
    }
    store
}

#[test]
fn a_fragment_stands_in_for_lost_data_blocks() {
    let store = parity_only_store();
    // Two parity pieces and one covered chunk make three.
    for fragment in [&b"ABCD"[..], b"EFGH", b"IJKL", b"CDEFGHIJ", b"ABCDEFGH", b"ABCDEFGHIJKL"] {
        assert_eq!(
            store.reconstruct(fragment, Some("doc")),
            Ok(b"ABCDEFGHIJKL".to_vec())
        );
    }
}

#[test]
fn a_fragment_that_covers_no_whole_chunk_does_not_help() {
    let store = parity_only_store();
    for fragment in [&b""[..], b"BCD", b"FGHI", b"BCDEFG", b"EFGX", b"LKJI"] {
        assert_eq!(
            store.reconstruct(fragment, Some("doc")),
            Err(Error::InsufficientRedundancy)
        );
    }
}

#[test]
fn a_fragment_covering_k_of_n_chunks_rebuilds_one_stripe() {
    // With one parity block left, two chunks of three must come from the
    // fragment; two of three is at least three of five.
    let mut store = parity_only_store();
    assert_eq!(store.discard_block("doc", 4), Ok(()));
    assert_eq!(
        store.reconstruct(b"EFGH", Some("doc")),
        Err(Error::InsufficientRedundancy)
    );
    assert_eq!(
        store.reconstruct(b"ABCDEFGH", Some("doc")),
        Ok(b"ABCDEFGHIJKL".to_vec())
    );
    assert_eq!(
        store.reconstruct(b"EFGHIJKL", Some("doc")),
        Ok(b"ABCDEFGHIJKL".to_vec())
    );
    // With no block left the fragment must be the whole content.
    assert_eq!(store.discard_block("doc", 3), Ok(()));
    assert_eq!(
        store.reconstruct(b"ABCDEFGH", Some("doc")),
        Err(Error::InsufficientRedundancy)
    );
    assert_eq!(
        store.reconstruct(b"ABCDEFGHIJKL", Some("doc")),
        Ok(b"ABCDEFGHIJKL".to_vec())
    );
}

#[test]
fn every_stripe_needs_its_own_pieces() {
    // Two stripes of two chunks each, k = 2 and n = 3, no block left: the
    // fragment covers the first stripe only.
    let mut store = RedundantFragmentStore::new(Config::new(2, 3, 2)).unwrap();
    assert_eq!(store.put("doc", b"abcdefgh"), Ok(1));
    for j in 0..3 {
        assert_eq!(store.discard_block("doc", j), Ok(()));
    }
    assert_eq!(
        store.reconstruct(b"abcdef", Some("doc")),
        Err(Error::InsufficientRedundancy)
    );
    assert_eq!(store.reconstruct(b"abcdefgh", Some("doc")), Ok(b"abcdefgh".to_vec()));
}

#[test]
fn a_short_last_chunk_is_covered_by_the_end_of_the_fragment() {
    // Ten bytes in chunks of four: the last chunk has two bytes.
    let mut store = RedundantFragmentStore::new(Config::new(3, 4, 4)).unwrap();
    assert_eq!(store.put("doc", b"0123456789"), Ok(1));
    for j in 0..3 {
        assert_eq!(store.discard_block("doc", j), Ok(()));
    }
    // One parity piece, so two chunks must be covered.
    assert_eq!(
        store.reconstruct(b"456789", Some("doc")),
        Ok(b"0123456789".to_vec())
    );
    assert_eq!(
        store.reconstruct(b"45678", Some("doc")),
        Err(Error::InsufficientRedundancy)
    );
}

#[test]
fn an_unknown_hint_matches_nothing() {
    let store = fox_store(4);
    assert_eq!(store.reconstruct(b"The ", Some("doc2")), Err(Error::NoMatch));
}

#[test]
fn the_document_method_rebuilds_too() {
    let mut store = fox_store(5);
    assert_eq!(store.discard_block("doc1", 1), Ok(()));
    assert_eq!(store.discard_block("doc1", 3), Ok(()));
    let doc = store.document("doc1").unwrap();
    assert_eq!(doc.reconstruct_from_fragment(b""), Ok(FOX.to_vec()));
    assert_eq!(store.discard_block("doc1", 0), Ok(()));
    let doc = store.document("doc1").unwrap();
    assert_eq!(
        doc.reconstruct_from_fragment(b""),
        Err(Error::InsufficientRedundancy)
    );
    // "The q" is the first chunk of five bytes: it completes the first
    // stripe, but the second still has two pieces only.
    assert_eq!(
        doc.reconstruct_from_fragment(b"The q"),
        Err(Error::InsufficientRedundancy)
    );
    // The last ten bytes are the two chunks of the second stripe, and leave
    // the first stripe short.
    assert_eq!(
        doc.reconstruct_from_fragment(b" fox jumps"),
        Err(Error::InsufficientRedundancy)
    );
    assert_eq!(doc.reconstruct_from_fragment(FOX), Ok(FOX.to_vec()));
}
