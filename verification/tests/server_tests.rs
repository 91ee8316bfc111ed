use litlnet::client::ReadOutcome;
use litlnet::id::ClientId;
use litlnet::server::ComServer;

fn bytes(s: &str) -> Vec<u8> {
    s.as_bytes().to_vec()
}

#[test]
fn accept_two_pending_assigns_distinct_ids() {
    // two connections pending, then the listener reports none left:
    // exactly two distinct ids, both visible to iterate
    let mut server = ComServer::new();
    let ids = server.accept_connections(2);
    assert_eq!(ids.len(), 2);
    assert_eq!(ids[0], ClientId(0));
    assert_eq!(ids[1], ClientId(1));
    assert_ne!(ids[0], ids[1]);
    let live = server.iter();
    assert!(live.contains(&ids[0]));
    assert!(live.contains(&ids[1]));
    assert_eq!(live.len(), 2);
}

#[test]
fn accept_counts_upward_across_calls() {
    let mut server = ComServer::new();
    let first = server.accept_connections(1);
    let second = server.accept_connections(1);
    assert_eq!(first[0], ClientId(0));
    assert_eq!(second[0], ClientId(1));
}

#[test]
fn receive_all_delivers_batches_in_order() {
    let mut server = ComServer::new();
    let ids = server.accept_connections(1);
    let id = ids[0];
    let batches = server.receive_all(vec![(id, ReadOutcome::Data(bytes("{\"n\":1}{\"n\":2}")))]);
    assert_eq!(batches.len(), 1);
    assert_eq!(batches[0].0, id);
    assert_eq!(batches[0].1, vec![bytes("{\"n\":1}"), bytes("{\"n\":2}")]);
}

#[test]
fn receive_all_stitches_across_scans() {
    // a message split across two ticks reaches the inbound side once,
    // whole, on the tick that completes it
    let mut server = ComServer::new();
    let id = server.accept_connections(1)[0];
    let batches = server.receive_all(vec![(id, ReadOutcome::Data(bytes("{\"n\"")))]);
    assert_eq!(batches.len(), 0);
    let batches = server.receive_all(vec![(id, ReadOutcome::Data(bytes(":1}")))]);
    assert_eq!(batches.len(), 1);
    assert_eq!(batches[0].1, vec![bytes("{\"n\":1}")]);
}

#[test]
fn receive_all_would_block_reports_nothing() {
    let mut server = ComServer::new();
    let id = server.accept_connections(1)[0];
    let batches = server.receive_all(vec![(id, ReadOutcome::WouldBlock)]);
    assert_eq!(batches.len(), 0);
    assert_eq!(server.iter().len(), 1);
}

#[test]
fn failed_receive_removes_client_after_scan() {
    // a hard error on one client removes exactly that client, and only
    // once the scan is over
    let mut server = ComServer::new();
    let ids = server.accept_connections(2);
    let batches = server.receive_all(vec![
        (ids[0], ReadOutcome::HardError),
        (ids[1], ReadOutcome::Data(bytes("{\"n\":9}"))),
    ]);
    assert_eq!(batches.len(), 1);
    assert_eq!(batches[0].0, ids[1]);
    let live = server.iter();
    assert!(!live.contains(&ids[0]));
    assert!(live.contains(&ids[1]));
}

#[test]
fn failed_send_is_gone_after_sweep() {
    let mut server = ComServer::new();
    let ids = server.accept_connections(2);
    assert!(server.send(ids[0]));
    server.mark_failed(ids[0]);
    server.sweep_removals();
    assert!(!server.iter().contains(&ids[0]));
    // further sends to that id are silent no-ops
    assert!(!server.send(ids[0]));
    assert!(server.send(ids[1]));
}

#[test]
fn fill_inbound_queues_pairs_in_order() {
    let mut inbound: litlnet::queue::MessagesToRead<(ClientId, Vec<u8>)> =
        litlnet::queue::MessagesToRead::new();
    litlnet::server::fill_inbound(
        &mut inbound,
        vec![
            (ClientId(0), vec![bytes("{\"a\":1}"), bytes("{\"b\":2}")]),
            (ClientId(1), vec![bytes("{\"c\":3}")]),
        ],
    );
    assert_eq!(inbound.pop(), Some((ClientId(0), bytes("{\"a\":1}"))));
    assert_eq!(inbound.pop(), Some((ClientId(0), bytes("{\"b\":2}"))));
    assert_eq!(inbound.pop(), Some((ClientId(1), bytes("{\"c\":3}"))));
    assert_eq!(inbound.pop(), None);
}

#[test]
fn send_to_unknown_id_is_noop() {
    let mut server = ComServer::new();
    server.accept_connections(1);
    assert!(!server.send(ClientId(99)));
}

#[test]
fn outcomes_for_departed_clients_are_skipped() {
    let mut server = ComServer::new();
    let id = server.accept_connections(1)[0];
    server.mark_failed(id);
    server.sweep_removals();
    let batches = server.receive_all(vec![(id, ReadOutcome::Data(bytes("{\"n\":1}")))]);
    assert_eq!(batches.len(), 0);
    assert_eq!(server.iter().len(), 0);
}
