use fragment_store::config::Config;
use fragment_store::error::Error;
use fragment_store::links::{LinkEdge, LinkPropagationGraph, PropagationMode};
use fragment_store::store::RedundantFragmentStore;

fn store_with(ids: &[&str]) -> RedundantFragmentStore {
    let mut store = RedundantFragmentStore::new(Config::new(2, 3, 4)).unwrap();
    for id in ids {
        let text = format!("content of {}", id);
        assert_eq!(store.put(id, text.as_bytes()), Ok(1));
    }
    store
}

#[test]
fn self_link_is_rejected() {
    let mut graph = LinkPropagationGraph::new();
    for id in ["A", "", "a longer name", "\u{e9}t\u{e9}"] {
        assert_eq!(graph.link(id, id, PropagationMode::Mirror), Err(Error::SelfLink));
        assert_eq!(graph.link(id, id, PropagationMode::Notify), Err(Error::SelfLink));
        assert_eq!(graph.link_mode(id, id), None);
    }
}

#[test]
fn link_inserts_then_updates() {
    let mut graph = LinkPropagationGraph::new();
    assert_eq!(graph.link("A", "B", PropagationMode::Mirror), Ok(()));
    assert_eq!(graph.link_mode("A", "B"), Some(PropagationMode::Mirror));
    assert_eq!(graph.link_mode("B", "A"), None);
    assert_eq!(graph.link("A", "B", PropagationMode::Notify), Ok(()));
    assert_eq!(graph.link_mode("A", "B"), Some(PropagationMode::Notify));
}

#[test]
fn unlink_removes_and_is_a_no_op_otherwise() {
    let mut graph = LinkPropagationGraph::new();
    assert_eq!(graph.link("A", "B", PropagationMode::Mirror), Ok(()));
    assert_eq!(graph.link("A", "C", PropagationMode::Mirror), Ok(()));
    graph.unlink("A", "B");
    assert_eq!(graph.link_mode("A", "B"), None);
    assert_eq!(graph.link_mode("A", "C"), Some(PropagationMode::Mirror));
    graph.unlink("A", "B");
    graph.unlink("X", "Y");
    assert_eq!(graph.link_mode("A", "C"), Some(PropagationMode::Mirror));
}

#[test]
fn edit_terminates_on_a_mirror_cycle() {
    let mut store = store_with(&["A", "B", "C"]);
    let mut graph = LinkPropagationGraph::new();
    assert_eq!(graph.link("A", "B", PropagationMode::Mirror), Ok(()));
    assert_eq!(graph.link("B", "C", PropagationMode::Mirror), Ok(()));
    assert_eq!(graph.link("C", "A", PropagationMode::Mirror), Ok(()));
    let report = graph.edit(&mut store, "A", b"X").unwrap();
    assert_eq!(report.version, 2);
    assert_eq!(report.propagated, vec![("B".to_string(), 2), ("C".to_string(), 2)]);
    assert!(report.failed.is_empty());
    assert_eq!(report.outcome(), Ok(2));
    assert_eq!(store.get("A"), Ok((b"X".to_vec(), 2)));
    assert_eq!(store.get("B"), Ok((b"X".to_vec(), 2)));
    assert_eq!(store.get("C"), Ok((b"X".to_vec(), 2)));
}

#[test]
fn notify_does_not_cascade() {
    let mut store = store_with(&["A", "B", "C"]);
    let mut graph = LinkPropagationGraph::new();
    assert_eq!(graph.link("A", "B", PropagationMode::Notify), Ok(()));
    assert_eq!(graph.link("B", "C", PropagationMode::Mirror), Ok(()));
    assert_eq!(graph.pending_sync("B"), 0);
    let report = graph.edit(&mut store, "A", b"X").unwrap();
    assert_eq!(report.version, 2);
    assert!(report.propagated.is_empty());
    assert!(report.failed.is_empty());
    assert_eq!(store.get("A"), Ok((b"X".to_vec(), 2)));
    assert_eq!(store.get("B"), Ok((b"content of B".to_vec(), 1)));
    assert_eq!(store.get("C"), Ok((b"content of C".to_vec(), 1)));
    assert_eq!(graph.pending_sync("B"), 1);
    assert_eq!(graph.pending_sync("C"), 0);
    assert_eq!(graph.pending_sync("A"), 0);
}

#[test]
fn pending_counts_accumulate_and_clear() {
    let mut store = store_with(&["A", "B"]);
    let mut graph = LinkPropagationGraph::new();
    assert_eq!(graph.link("A", "B", PropagationMode::Notify), Ok(()));
    for round in 1..=3u64 {
        graph.edit(&mut store, "A", b"again").unwrap();
        assert_eq!(graph.pending_sync("B"), round);
    }
    graph.clear_pending("B");
    assert_eq!(graph.pending_sync("B"), 0);
    graph.clear_pending("never notified");
    assert_eq!(graph.pending_sync("never notified"), 0);
    graph.edit(&mut store, "A", b"once more").unwrap();
    assert_eq!(graph.pending_sync("B"), 1);
}

#[test]
fn mirror_creates_a_missing_target() {
    let mut store = store_with(&["A"]);
    let mut graph = LinkPropagationGraph::new();
    assert_eq!(graph.link("A", "B", PropagationMode::Mirror), Ok(()));
    let report = graph.edit(&mut store, "A", b"X").unwrap();
    assert_eq!(report.propagated, vec![("B".to_string(), 1)]);
    assert_eq!(store.get("B"), Ok((b"X".to_vec(), 1)));
}

#[test]
fn edit_of_a_held_origin_changes_nothing() {
    let mut store = store_with(&["A", "B"]);
    let mut graph = LinkPropagationGraph::new();
    assert_eq!(graph.link("A", "B", PropagationMode::Mirror), Ok(()));
    assert_eq!(store.acquire("A"), Ok(()));
    assert_eq!(graph.edit(&mut store, "A", b"X"), Err(Error::LockTimeout));
    assert_eq!(store.get("A"), Ok((b"content of A".to_vec(), 1)));
    assert_eq!(store.get("B"), Ok((b"content of B".to_vec(), 1)));
}

#[test]
fn held_target_gives_partial_propagation() {
    // A mirrors into B and C; B mirrors into D. B is held: the edit reaches
    // C but neither B nor, through B, D.
    let mut store = store_with(&["A", "B", "C", "D"]);
    let mut graph = LinkPropagationGraph::new();
    assert_eq!(graph.link("A", "B", PropagationMode::Mirror), Ok(()));
    assert_eq!(graph.link("A", "C", PropagationMode::Mirror), Ok(()));
    assert_eq!(graph.link("B", "D", PropagationMode::Mirror), Ok(()));
    assert_eq!(store.acquire("B"), Ok(()));
    let report = graph.edit(&mut store, "A", b"X").unwrap();
    assert_eq!(report.version, 2);
    assert_eq!(report.propagated, vec![("C".to_string(), 2)]);
    assert_eq!(report.failed, vec![("B".to_string(), Error::LockTimeout)]);
    assert_eq!(report.outcome(), Err(Error::PartialPropagation));
    assert_eq!(store.get("A"), Ok((b"X".to_vec(), 2)));
    assert_eq!(store.get("B"), Ok((b"content of B".to_vec(), 1)));
    assert_eq!(store.get("C"), Ok((b"X".to_vec(), 2)));
    assert_eq!(store.get("D"), Ok((b"content of D".to_vec(), 1)));
}

#[test]
fn propagation_is_breadth_first_in_edge_order() {
    // A -> B, A -> C, B -> D, C -> E, D -> F: reached as B, C, D, E, F.
    let mut store = store_with(&["A"]);
    let mut graph = LinkPropagationGraph::new();
    assert_eq!(graph.link("D", "F", PropagationMode::Mirror), Ok(()));
    assert_eq!(graph.link("A", "B", PropagationMode::Mirror), Ok(()));
    assert_eq!(graph.link("C", "E", PropagationMode::Mirror), Ok(()));
    assert_eq!(graph.link("A", "C", PropagationMode::Mirror), Ok(()));
    assert_eq!(graph.link("B", "D", PropagationMode::Mirror), Ok(()));
    let report = graph.edit(&mut store, "A", b"X").unwrap();
    let order: Vec<&str> = report.propagated.iter().map(|p| p.0.as_str()).collect();
    assert_eq!(order, vec!["B", "C", "D", "E", "F"]);
}

#[test]
fn a_target_is_reached_once_by_the_first_edge_to_it() {
    // A notifies B before C mirrors into B: B is only notified.
    let mut store = store_with(&["A", "B", "C"]);
    let mut graph = LinkPropagationGraph::new();
    assert_eq!(graph.link("A", "B", PropagationMode::Notify), Ok(()));
    assert_eq!(graph.link("A", "C", PropagationMode::Mirror), Ok(()));
    assert_eq!(graph.link("C", "B", PropagationMode::Mirror), Ok(()));
    let report = graph.edit(&mut store, "A", b"X").unwrap();
    assert_eq!(report.propagated, vec![("C".to_string(), 2)]);
    assert_eq!(store.get("B"), Ok((b"content of B".to_vec(), 1)));
    assert_eq!(graph.pending_sync("B"), 1);
}

#[test]
fn headroom_holds_for_small_counters() {
    let mut store = store_with(&["A", "B"]);
    let mut graph = LinkPropagationGraph::new();
    assert_eq!(graph.link("A", "B", PropagationMode::Notify), Ok(()));
    graph.edit(&mut store, "A", b"X").unwrap();
    assert!(store.versions_have_headroom());
    assert!(graph.pending_has_headroom());
}

#[test]
fn edges_keep_the_order_in_which_they_were_made() {
    let mut graph = LinkPropagationGraph::new();
    assert!(graph.edges().is_empty());
    assert_eq!(graph.link("A", "B", PropagationMode::Mirror), Ok(()));
    assert_eq!(graph.link("B", "C", PropagationMode::Notify), Ok(()));
    assert_eq!(graph.link("A", "B", PropagationMode::Notify), Ok(()));
    assert_eq!(graph.link("C", "C", PropagationMode::Notify), Err(Error::SelfLink));
    let edge = |s: &str, t: &str, mode| LinkEdge { source: s.to_string(), target: t.to_string(), mode };
    assert_eq!(
        graph.edges(),
        &vec![
            edge("A", "B", PropagationMode::Notify),
            edge("B", "C", PropagationMode::Notify)
        ]
    );
    graph.unlink("A", "B");
    assert_eq!(graph.edges(), &vec![edge("B", "C", PropagationMode::Notify)]);
}
