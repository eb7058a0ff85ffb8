use fragment_store::config::{Config, DEFAULT_LOCK_TIMEOUT_MS, DEFAULT_SIMILARITY_MARGIN};
use fragment_store::error::Error;
use fragment_store::store::RedundantFragmentStore;

fn store(k: usize, n: usize, chunk_size: usize) -> RedundantFragmentStore {
    RedundantFragmentStore::new(Config::new(k, n, chunk_size)).unwrap()
}

#[test]
fn config_defaults() {
    let cfg = Config::new(3, 5, 16);
    assert_eq!(cfg.k, 3);
    assert_eq!(cfg.n, 5);
    assert_eq!(cfg.chunk_size, 16);
    assert_eq!(cfg.similarity_margin, 10_000);
    assert_eq!(cfg.lock_timeout_ms, 5_000);
    assert_eq!(DEFAULT_SIMILARITY_MARGIN, 10_000);
    assert_eq!(DEFAULT_LOCK_TIMEOUT_MS, 5_000);
    assert!(cfg.is_valid());
}

#[test]
fn invalid_configurations_build_no_store() {
    assert!(RedundantFragmentStore::new(Config::new(0, 5, 4)).is_none());
    assert!(RedundantFragmentStore::new(Config::new(4, 3, 4)).is_none());
    assert!(RedundantFragmentStore::new(Config::new(3, 5, 0)).is_none());
    assert!(RedundantFragmentStore::new(Config::new(3, 258, 4)).is_none());
    assert!(RedundantFragmentStore::new(Config::new(257, 257, 1)).is_some());
    assert!(RedundantFragmentStore::new(Config::new(1, 1, 1)).is_some());
}

#[test]
fn get_of_an_unknown_document_is_not_found() {
    let s = store(3, 5, 4);
    assert_eq!(s.get("nothing"), Err(Error::NotFound));
    assert!(!s.contains("nothing"));
    assert_eq!(s.len(), 0);
}

#[test]
fn put_then_get() {
    let mut s = store(3, 5, 4);
    assert_eq!(s.put("a", b"alpha"), Ok(1));
    assert_eq!(s.put("b", b""), Ok(1));
    assert_eq!(s.get("a"), Ok((b"alpha".to_vec(), 1)));
    assert_eq!(s.get("b"), Ok((Vec::new(), 1)));
    assert_eq!(s.put("a", b"beta"), Ok(2));
    assert_eq!(s.get("a"), Ok((b"beta".to_vec(), 2)));
    assert_eq!(s.get("b"), Ok((Vec::new(), 1)));
    assert_eq!(s.len(), 2);
    assert!(s.contains("a"));
    assert_eq!(s.config(), Config::new(3, 5, 4));
}

#[test]
fn put_twice_with_the_same_content_counts_twice() {
    let mut s = store(2, 4, 3);
    assert_eq!(s.put("doc", b"same bytes"), Ok(1));
    assert_eq!(s.put("doc", b"same bytes"), Ok(2));
    assert_eq!(s.get("doc"), Ok((b"same bytes".to_vec(), 2)));
    assert_eq!(s.put("doc", b"same bytes"), Ok(3));
    assert_eq!(s.get("doc"), Ok((b"same bytes".to_vec(), 3)));
}

#[test]
fn a_held_document_cannot_be_written() {
    let mut s = store(2, 3, 4);
    assert_eq!(s.acquire("doc"), Err(Error::NotFound));
    assert_eq!(s.release("doc"), Err(Error::NotFound));
    assert_eq!(s.put("doc", b"first"), Ok(1));
    assert_eq!(s.acquire("doc"), Ok(()));
    assert_eq!(s.acquire("doc"), Err(Error::LockTimeout));
    assert_eq!(s.put("doc", b"second"), Err(Error::LockTimeout));
    assert_eq!(s.get("doc"), Ok((b"first".to_vec(), 1)));
    assert_eq!(s.reconstruct(b"", Some("doc")), Ok(b"first".to_vec()));
    assert_eq!(s.release("doc"), Ok(()));
    assert_eq!(s.put("doc", b"second"), Ok(2));
    assert_eq!(s.get("doc"), Ok((b"second".to_vec(), 2)));
}

#[test]
fn document_accessors() {
    let mut s = store(2, 3, 4);
    assert_eq!(s.put("doc", b"0123456789"), Ok(1));
    assert!(s.document("other").is_none());
    assert_eq!(s.discard_block("doc", 1), Ok(()));
    assert_eq!(s.discard_block("doc", 99), Ok(()));
    assert_eq!(s.discard_block("other", 0), Err(Error::NotFound));
    let d = s.document("doc").unwrap();
    assert_eq!(d.id(), "doc");
    assert_eq!(d.content(), b"0123456789");
    assert_eq!(d.version(), 1);
    assert!(!d.is_held());
    assert!(d.has_block(0));
    assert!(!d.has_block(1));
    assert!(d.has_block(2));
    assert!(!d.has_block(3));
}

#[test]
fn a_write_restores_lost_blocks() {
    let mut s = store(2, 3, 4);
    assert_eq!(s.put("doc", b"0123456789"), Ok(1));
    for j in 0..3 {
        assert_eq!(s.discard_block("doc", j), Ok(()));
    }
    assert_eq!(s.reconstruct(b"", Some("doc")), Err(Error::InsufficientRedundancy));
    assert_eq!(s.put("doc", b"abcdefghij"), Ok(2));
    assert!(s.document("doc").unwrap().has_block(0));
    assert_eq!(s.reconstruct(b"", Some("doc")), Ok(b"abcdefghij".to_vec()));
}

#[test]
fn delete_removes_a_document() {
    let mut s = store(2, 3, 4);
    assert_eq!(s.delete("doc"), Err(Error::NotFound));
    assert_eq!(s.put("doc", b"first"), Ok(1));
    assert_eq!(s.put("other", b"second"), Ok(1));
    assert_eq!(s.acquire("doc"), Ok(()));
    assert_eq!(s.delete("doc"), Err(Error::LockTimeout));
    assert_eq!(s.get("doc"), Ok((b"first".to_vec(), 1)));
    assert_eq!(s.release("doc"), Ok(()));
    assert_eq!(s.delete("doc"), Ok(()));
    assert_eq!(s.get("doc"), Err(Error::NotFound));
    assert_eq!(s.get("other"), Ok((b"second".to_vec(), 1)));
    assert_eq!(s.len(), 1);
    assert_eq!(s.reconstruct(b"", Some("doc")), Err(Error::NoMatch));
    // A document written again after its deletion starts over.
    assert_eq!(s.put("doc", b"third"), Ok(1));
    assert_eq!(s.get("doc"), Ok((b"third".to_vec(), 1)));
}
