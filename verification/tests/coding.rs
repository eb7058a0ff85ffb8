use fragment_store::config::Config;
use fragment_store::field::{add_mod, inv_mod, mul_mod, sub_mod, MODULUS};
use fragment_store::fragment::{align, coverage_at, covers_chunk, supplied_pieces};
use fragment_store::ident::{id_before, same_id};
use fragment_store::lagrange::{combine, weights_at};
use fragment_store::layout::{count_chunks, encode, split};

#[test]
fn field_arithmetic() {
    assert_eq!(MODULUS, 257);
    assert_eq!(add_mod(200, 100), 43);
    assert_eq!(add_mod(256, 1), 0);
    assert_eq!(add_mod(0, 0), 0);
    assert_eq!(sub_mod(5, 10), 252);
    assert_eq!(sub_mod(0, 256), 1);
    assert_eq!(sub_mod(7, 7), 0);
    assert_eq!(mul_mod(16, 16), 256);
    assert_eq!(mul_mod(256, 256), 1);
    assert_eq!(mul_mod(200, 5), 229);
    assert_eq!(mul_mod(0, 123), 0);
}

#[test]
fn inverses_multiply_to_one() {
    assert_eq!(inv_mod(0), 0);
    assert_eq!(inv_mod(1), 1);
    assert_eq!(inv_mod(2), 129);
    assert_eq!(inv_mod(3), 86);
    assert_eq!(inv_mod(256), 256);
    for a in 1..257u16 {
        assert_eq!(mul_mod(a, inv_mod(a)), 1);
    }
}

#[test]
fn lagrange_weights_and_sums() {
    // Through (0, d0) and (1, d1) runs d0 + (d1 - d0) x: at 2 it is 2 d1 - d0.
    let nodes = vec![0u16, 1];
    assert_eq!(weights_at(&nodes, 2), vec![256, 2]);
    assert_eq!(weights_at(&nodes, 0), vec![1, 0]);
    assert_eq!(weights_at(&nodes, 1), vec![0, 1]);
    assert_eq!(combine(&vec![10, 20], &vec![256, 2]), 30);
    assert_eq!(combine(&vec![200, 5], &vec![256, 2]), 67);
    assert_eq!(combine(&Vec::new(), &Vec::new()), 0);
    // A single node gives a constant.
    assert_eq!(weights_at(&vec![5u16], 200), vec![1]);
}

#[test]
fn chunk_counts_round_up() {
    assert_eq!(count_chunks(0, 4), 0);
    assert_eq!(count_chunks(1, 4), 1);
    assert_eq!(count_chunks(4, 4), 1);
    assert_eq!(count_chunks(5, 4), 2);
    assert_eq!(count_chunks(25, 4), 7);
    assert_eq!(count_chunks(7, 3), 3);
    assert_eq!(count_chunks(usize::MAX, 1), usize::MAX);
    assert_eq!(count_chunks(usize::MAX, usize::MAX), 1);
}

#[test]
fn split_pads_with_zeros() {
    let cfg = Config::new(2, 3, 2);
    assert_eq!(split(b"", &cfg), Vec::<Vec<Vec<u16>>>::new());
    assert_eq!(split(b"a", &cfg), vec![vec![vec![97, 0], vec![0, 0]]]);
    assert_eq!(
        split(b"abcde", &cfg),
        vec![vec![vec![97, 98], vec![99, 100]], vec![vec![101, 0], vec![0, 0]]]
    );
}

#[test]
fn encoding_is_systematic_with_exact_parity() {
    let cfg = Config::new(2, 3, 1);
    let blocks = encode(&[10, 20, 200, 5], &cfg);
    assert_eq!(blocks.len(), 3);
    assert_eq!(blocks[0], Some(vec![vec![10], vec![200]]));
    assert_eq!(blocks[1], Some(vec![vec![20], vec![5]]));
    assert_eq!(blocks[2], Some(vec![vec![30], vec![67]]));
    // With k = 1 every piece repeats the data.
    let cfg = Config::new(1, 3, 2);
    let blocks = encode(b"hey", &cfg);
    for block in blocks {
        assert_eq!(block, Some(vec![vec![104, 101], vec![121, 0]]));
    }
    // A parity symbol can be 256, which no byte is.
    let cfg = Config::new(2, 3, 1);
    let blocks = encode(&[0, 128], &cfg);
    assert_eq!(blocks[2], Some(vec![vec![256]]));
}

#[test]
fn chunks_are_covered_whole_or_not_at_all() {
    let content = b"0123456789";
    // Chunks of four: 0123, 4567, 89.
    assert!(covers_chunk(content, 4, b"0123", 0, 0));
    assert!(!covers_chunk(content, 4, b"0123", 0, 1));
    assert!(!covers_chunk(content, 4, b"012", 0, 0));
    assert!(!covers_chunk(content, 4, b"0124", 0, 0));
    assert!(covers_chunk(content, 4, b"34567", 3, 1));
    assert!(!covers_chunk(content, 4, b"34567", 4, 1));
    assert!(!covers_chunk(content, 4, b"34567", 5, 1));
    assert!(covers_chunk(content, 4, b"89", 8, 2));
    assert!(covers_chunk(content, 4, b"789", 7, 2));
    assert!(!covers_chunk(content, 4, b"8", 8, 2));
    assert!(!covers_chunk(content, 4, b"4567", 100, 1));
    assert_eq!(coverage_at(content, 4, b"0123456789", 0), 3);
    assert_eq!(coverage_at(content, 4, b"123456789", 1), 2);
    assert_eq!(coverage_at(content, 4, b"123456789", 0), 0);
    assert_eq!(coverage_at(content, 4, b"", 0), 0);
    assert_eq!(coverage_at(b"", 4, b"abcd", 0), 0);
}

#[test]
fn alignment_is_the_first_best_offset() {
    assert_eq!(align(b"0123456789", 4, b"456789"), (4, 2));
    assert_eq!(align(b"0123456789", 4, b"3456789"), (3, 2));
    assert_eq!(align(b"0123456789", 4, b"0123456789"), (0, 3));
    assert_eq!(align(b"0123456789", 4, b"xyz"), (0, 0));
    assert_eq!(align(b"0123456789", 4, b""), (0, 0));
    assert_eq!(align(b"", 4, b"abcd"), (0, 0));
    // The chunk "abab" is covered at offset 0 and at offset 4: the first wins.
    assert_eq!(align(b"abababab", 4, b"abab"), (0, 1));
    // Offset 2 matches the bytes but covers no chunk of the grid.
    assert_eq!(align(b"xxababxx", 4, b"abab"), (0, 0));
    // A later offset that covers more wins.
    assert_eq!(align(b"abcdabcdefgh", 4, b"abcdefgh"), (4, 2));
}

#[test]
fn supplied_pieces_are_the_covered_chunks() {
    let cfg = Config::new(2, 3, 2);
    // Chunks ab, cd, e; stripes (ab, cd) and (e, padding).
    let supplied = supplied_pieces(b"abcde", &cfg, b"cde", 2);
    assert_eq!(
        supplied,
        vec![vec![None, Some(vec![99, 100])], vec![Some(vec![101, 0]), None]]
    );
    let supplied = supplied_pieces(b"abcde", &cfg, b"", 0);
    assert_eq!(supplied, vec![vec![None, None], vec![None, None]]);
}

#[test]
fn identifiers_are_ordered_byte_by_byte() {
    assert!(same_id("doc", "doc"));
    assert!(same_id("", ""));
    assert!(!same_id("doc", "doc1"));
    assert!(!same_id("doc", "dot"));
    assert!(same_id("\u{e9}", "\u{e9}"));
    assert!(id_before("a", "b"));
    assert!(!id_before("b", "a"));
    assert!(!id_before("a", "a"));
    assert!(id_before("", "a"));
    assert!(!id_before("a", ""));
    assert!(!id_before("", ""));
    assert!(id_before("a", "ab"));
    assert!(!id_before("ab", "a"));
    assert!(id_before("Z", "a"));
    assert!(id_before("doc10", "doc9"));
    assert!(id_before("z", "\u{e9}"));
    assert!(id_before("\u{e9}", "\u{20ac}"));
}
