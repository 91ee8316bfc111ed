use litlnet::client::{ReadOutcome, ReceiveEvent, StreamClient};
use litlnet::id::ClientId;
use litlnet::messages::{rank_descending, PlayerRank, UpdateScores};
use litlnet::server::ComServer;

#[test]
fn one_round_trip_between_client_and_server() {
    // the bound listener itself lives outside the core; here the wire is
    // a pair of in-memory byte runs.  Client A connects; A sends M1; one
    // server tick later the scan reports (ClientId(0), [M1]); the server
    // sends M2 back; A's next receive yields exactly [M2].
    let m1: serde_json::Value = serde_json::from_str("{\"hit\":{\"x\":10,\"y\":4}}").unwrap();
    let m2: serde_json::Value = serde_json::from_str("{\"dead_mole\":3}").unwrap();

    let mut server = ComServer::new();
    let mut client_a = StreamClient::new();

    // accept: one connection pending
    let ids = server.accept_connections(1);
    assert_eq!(ids, vec![ClientId(0)]);

    // client A sends M1: its encoded bytes travel to the server socket
    let wire_to_server = serde_json::to_vec(&m1).unwrap();

    // one server tick: receive_all polls A's socket and gets those bytes
    let batches = server.receive_all(vec![(ids[0], ReadOutcome::Data(wire_to_server))]);
    assert_eq!(batches.len(), 1);
    assert_eq!(batches[0].0, ClientId(0));
    assert_eq!(batches[0].1.len(), 1);
    let got: serde_json::Value = serde_json::from_slice(&batches[0].1[0]).unwrap();
    assert_eq!(got, m1);

    // the server answers M2 on that id; the id is live, so the payload
    // goes out on A's socket
    let wire_to_client = serde_json::to_vec(&m2).unwrap();
    assert!(server.send(ids[0]));

    // client A's next receive returns exactly [M2]
    let ev = client_a.receive(ReadOutcome::Data(wire_to_client));
    match ev {
        ReceiveEvent::Batch(frames) => {
            assert_eq!(frames.len(), 1);
            let got: serde_json::Value = serde_json::from_slice(&frames[0]).unwrap();
            assert_eq!(got, m2);
        },
        _ => panic!("expected the answer batch"),
    }
}

#[test]
fn messages_in_order_across_arbitrary_chunks() {
    // N messages from one connected client, no I/O error: the server
    // reports each exactly once, in send order, however the stream is cut
    let sent = vec![
        "{\"n\":0}".to_string(),
        "{\"n\":1}".to_string(),
        "{\"n\":2}".to_string(),
        "{\"n\":3}".to_string(),
    ];
    let mut stream: Vec<u8> = Vec::new();
    for s in sent.iter() {
        stream.extend_from_slice(s.as_bytes());
    }

    let mut server = ComServer::new();
    let id = server.accept_connections(1)[0];

    // cut the stream into ragged chunks of 5 bytes
    let mut received: Vec<Vec<u8>> = Vec::new();
    let mut at = 0;
    while at < stream.len() {
        let end = std::cmp::min(at + 5, stream.len());
        let chunk = stream[at..end].to_vec();
        let mut batches = server.receive_all(vec![(id, ReadOutcome::Data(chunk))]);
        for (_, mut frames) in batches.drain(..) {
            received.append(&mut frames);
        }
        at = end;
    }

    assert_eq!(received.len(), sent.len());
    for (got, want) in received.iter().zip(sent.iter()) {
        assert_eq!(got, want.as_bytes());
    }
}

#[test]
fn scores_rank_best_first() {
    let update = UpdateScores {
        best_players: vec![
            PlayerRank { name: "ada".to_string(), score: 3 },
            PlayerRank { name: "bo".to_string(), score: 9 },
            PlayerRank { name: "cy".to_string(), score: 9 },
            PlayerRank { name: "dee".to_string(), score: 1 },
        ],
    };
    let ranked = rank_descending(update.best_players);
    let scores: Vec<usize> = ranked.iter().map(|p| p.score).collect();
    assert_eq!(scores, vec![9, 9, 3, 1]);
    let mut names: Vec<String> = ranked.iter().map(|p| p.name.clone()).collect();
    names.sort();
    assert_eq!(names, vec!["ada", "bo", "cy", "dee"]);
}
