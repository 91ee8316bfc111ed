use litlnet::client::{FrameClient, ReadOutcome, ReceiveEvent, StreamClient};
use litlnet::queue::{MessagesToRead, MessagesToSend};
use litlnet::reconnect::ReconnectState;

fn bytes(s: &str) -> Vec<u8> {
    s.as_bytes().to_vec()
}

#[test]
fn no_data_differs_from_empty_batch() {
    // zero available bytes is "no data", never an error — and it is
    // distinguishable from "data present but zero messages"
    let mut client = StreamClient::new();
    let ev = client.receive(ReadOutcome::WouldBlock);
    assert!(matches!(ev, ReceiveEvent::NoData));
    let ev = client.receive(ReadOutcome::Data(bytes("{\"par")));
    match ev {
        ReceiveEvent::Batch(frames) => assert_eq!(frames.len(), 0),
        _ => panic!("partial data must still be a batch, not NoData"),
    }
}

#[test]
fn stream_client_two_complete_then_partial_third() {
    let mut client = StreamClient::new();
    let ev = client.receive(ReadOutcome::Data(bytes("{\"m\":1}{\"m\":2}{\"m\":")));
    match ev {
        ReceiveEvent::Batch(frames) => {
            assert_eq!(frames, vec![bytes("{\"m\":1}"), bytes("{\"m\":2}")]);
        },
        _ => panic!("expected a batch"),
    }
    let ev = client.receive(ReadOutcome::Data(bytes("3}")));
    match ev {
        ReceiveEvent::Batch(frames) => {
            assert_eq!(frames, vec![bytes("{\"m\":3}")]);
        },
        _ => panic!("expected a batch"),
    }
}

#[test]
fn stream_client_hard_error_disconnects() {
    let mut client = StreamClient::new();
    let ev = client.receive(ReadOutcome::HardError);
    assert!(matches!(ev, ReceiveEvent::Disconnected));
}

#[test]
fn frame_client_one_message_per_frame() {
    let mut client = FrameClient::new();
    let ev = client.receive(ReadOutcome::Data(bytes("{\"hello\":true}")));
    match ev {
        ReceiveEvent::Batch(frames) => assert_eq!(frames, vec![bytes("{\"hello\":true}")]),
        _ => panic!("expected a batch of one"),
    }
    let ev = client.receive(ReadOutcome::WouldBlock);
    assert!(matches!(ev, ReceiveEvent::NoData));
}

#[test]
fn frame_client_skips_malformed_frame() {
    let mut client = FrameClient::new();
    let ev = client.receive(ReadOutcome::Data(bytes("{\"bad\" true}")));
    match ev {
        ReceiveEvent::Batch(frames) => assert_eq!(frames.len(), 0),
        _ => panic!("a malformed frame is skipped, not an error"),
    }
}

#[test]
fn frame_client_drains_posted_packets() {
    let mut client = FrameClient::new();
    let ev = client.receive_posted(Vec::new());
    assert!(matches!(ev, ReceiveEvent::NoData));
    let ev = client.receive_posted(vec![bytes("{\"a\":1}"), bytes("oops"), bytes("{\"b\":2}")]);
    match ev {
        ReceiveEvent::Batch(frames) => {
            assert_eq!(frames, vec![bytes("{\"a\":1}"), bytes("{\"b\":2}")]);
        },
        _ => panic!("expected a batch"),
    }
}

#[test]
fn queues_are_fifo() {
    let mut outbound: MessagesToSend<u32> = MessagesToSend::new();
    outbound.push(1);
    outbound.push(2);
    outbound.push(3);
    assert_eq!(outbound.len(), 3);
    let drained = outbound.drain();
    assert_eq!(drained, vec![1, 2, 3]);
    assert_eq!(outbound.len(), 0);

    let mut inbound: MessagesToRead<u32> = MessagesToRead::new();
    assert_eq!(inbound.pop(), None);
    inbound.push(7);
    inbound.push(8);
    assert_eq!(inbound.pop(), Some(7));
    assert_eq!(inbound.pop(), Some(8));
    assert_eq!(inbound.pop(), None);
}

#[test]
fn reconnect_backs_off_and_resets() {
    let mut state = ReconnectState::new();
    assert_eq!(state.delay_ms, 10);
    assert!(!state.tick(5));
    assert!(state.tick(5));
    assert_eq!(state.attempt, 1);
    assert_eq!(state.delay_ms, 2010);
    assert!(!state.tick(2000));
    assert!(state.tick(10));
    assert_eq!(state.attempt, 2);
    assert_eq!(state.delay_ms, 4010);
    state.connected();
    assert_eq!(state.attempt, 0);
    assert_eq!(state.delay_ms, 2000);
    assert_eq!(state.elapsed_ms, 0);
}
