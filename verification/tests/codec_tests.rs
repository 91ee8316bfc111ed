use litlnet::codec::{frame_is_valid_json, split_frames, StreamDecoder};

fn bytes(s: &str) -> Vec<u8> {
    s.as_bytes().to_vec()
}

#[test]
fn split_two_complete_frames() {
    let buf = bytes("{\"a\":1}{\"b\":2}");
    let (frames, consumed, corrupt) = split_frames(&buf);
    assert_eq!(frames.len(), 2);
    assert_eq!(frames[0], bytes("{\"a\":1}"));
    assert_eq!(frames[1], bytes("{\"b\":2}"));
    assert_eq!(consumed, buf.len());
    assert!(!corrupt);
}

#[test]
fn split_keeps_partial_tail() {
    let buf = bytes("{\"a\":1}{\"b\":");
    let (frames, consumed, corrupt) = split_frames(&buf);
    assert_eq!(frames.len(), 1);
    assert_eq!(frames[0], bytes("{\"a\":1}"));
    assert_eq!(consumed, 7);
    assert!(!corrupt);
}

#[test]
fn split_handles_braces_inside_strings() {
    let buf = bytes("{\"a\":\"}{\\\"\"}");
    let (frames, consumed, corrupt) = split_frames(&buf);
    assert_eq!(frames.len(), 1);
    assert_eq!(frames[0], buf);
    assert_eq!(consumed, buf.len());
    assert!(!corrupt);
}

#[test]
fn split_top_level_string_and_number() {
    // a number is complete only once a byte that cannot continue it shows
    // up; that byte stays unconsumed
    let buf = bytes("\"hello\"42 ");
    let (frames, consumed, corrupt) = split_frames(&buf);
    assert_eq!(frames.len(), 2);
    assert_eq!(frames[0], bytes("\"hello\""));
    assert_eq!(frames[1], bytes("42"));
    assert_eq!(consumed, 9);
    assert!(!corrupt);
}

#[test]
fn split_number_at_end_stays_buffered() {
    let buf = bytes("17");
    let (frames, consumed, corrupt) = split_frames(&buf);
    assert_eq!(frames.len(), 0);
    assert_eq!(consumed, 0);
    assert!(!corrupt);
}

#[test]
fn split_reports_corrupt_garbage() {
    let buf = bytes("{\"a\":1}@@@");
    let (frames, consumed, corrupt) = split_frames(&buf);
    assert_eq!(frames.len(), 1);
    assert_eq!(consumed, buf.len());
    assert!(corrupt);
}

#[test]
fn whitespace_between_frames_travels_with_the_next() {
    // a frame spans from where the last one ended, so separating
    // whitespace rides along; it is still one well-formed value
    let buf = bytes("{\"a\":1} {\"b\":2}");
    let (frames, consumed, corrupt) = split_frames(&buf);
    assert_eq!(frames.len(), 2);
    assert_eq!(frames[0], bytes("{\"a\":1}"));
    assert_eq!(frames[1], bytes(" {\"b\":2}"));
    assert_eq!(consumed, buf.len());
    assert!(!corrupt);
    assert!(frame_is_valid_json(&frames[1]));
}

#[test]
fn whitespace_only_tail_stays_buffered() {
    let buf = bytes("  \n");
    let (frames, consumed, corrupt) = split_frames(&buf);
    assert_eq!(frames.len(), 0);
    assert_eq!(consumed, 0);
    assert!(!corrupt);
}

#[test]
fn valid_json_frame_accepted() {
    let v: serde_json::Value = serde_json::from_str("{\"kind\":\"hit\",\"x\":3}").unwrap();
    let frame = serde_json::to_vec(&v).unwrap();
    assert!(frame_is_valid_json(&frame));
}

#[test]
fn balanced_but_malformed_frame_rejected() {
    // the boundary scanner frames this, but it is not well-formed JSON
    let frame = bytes("{\"a\" 1}");
    assert!(!frame_is_valid_json(&frame));
    let mut dec = StreamDecoder::new();
    let out = dec.feed(&frame);
    assert_eq!(out.len(), 0);
}

#[test]
fn decoder_stitches_across_reads() {
    // two complete messages and a partial third in one read: the first
    // two come out; completing bytes later yield exactly the third
    let mut dec = StreamDecoder::new();
    let out = dec.feed(&bytes("{\"m\":1}{\"m\":2}{\"m\""));
    assert_eq!(out.len(), 2);
    assert_eq!(out[0], bytes("{\"m\":1}"));
    assert_eq!(out[1], bytes("{\"m\":2}"));
    let out = dec.feed(&bytes(":3}"));
    assert_eq!(out.len(), 1);
    assert_eq!(out[0], bytes("{\"m\":3}"));
}

#[test]
fn decoder_single_bytes_deliver_everything_once() {
    // the same stream cut at every possible boundary still delivers each
    // message exactly once, in order
    let stream = bytes("{\"a\":1}{\"b\":[2,3]}\"x\"");
    let mut dec = StreamDecoder::new();
    let mut got: Vec<Vec<u8>> = Vec::new();
    for b in stream.iter() {
        let one = vec![*b];
        let mut out = dec.feed(&one);
        got.append(&mut out);
    }
    assert_eq!(got.len(), 3);
    assert_eq!(got[0], bytes("{\"a\":1}"));
    assert_eq!(got[1], bytes("{\"b\":[2,3]}"));
    assert_eq!(got[2], bytes("\"x\""));
}

#[test]
fn decoder_skips_malformed_value_in_batch() {
    let mut dec = StreamDecoder::new();
    let out = dec.feed(&bytes("{\"ok\":1}{\"bad\" 2}{\"ok\":3}"));
    assert_eq!(out.len(), 2);
    assert_eq!(out[0], bytes("{\"ok\":1}"));
    assert_eq!(out[1], bytes("{\"ok\":3}"));
}

#[test]
fn round_trip_preserves_field_contents() {
    // decoding then re-encoding a message value keeps identical fields
    let original = "{\"name\":\"ada\",\"score\":7,\"tags\":[\"a\",\"b\"]}";
    let v: serde_json::Value = serde_json::from_str(original).unwrap();
    let encoded = serde_json::to_vec(&v).unwrap();
    let mut dec = StreamDecoder::new();
    let frames = dec.feed(&encoded);
    assert_eq!(frames.len(), 1);
    let decoded: serde_json::Value = serde_json::from_slice(&frames[0]).unwrap();
    assert_eq!(decoded, v);
    let re_encoded = serde_json::to_vec(&decoded).unwrap();
    let round: serde_json::Value = serde_json::from_slice(&re_encoded).unwrap();
    assert_eq!(round, v);
}

#[test]
fn split_of_concatenated_frames_is_identity() {
    let f1 = bytes("{\"a\":1}");
    let f2 = bytes("[1,2,3]");
    let f3 = bytes("\"end\"");
    let mut all = Vec::new();
    all.extend_from_slice(&f1);
    all.extend_from_slice(&f2);
    all.extend_from_slice(&f3);
    let (frames, consumed, corrupt) = split_frames(&all);
    assert_eq!(frames, vec![f1, f2, f3]);
    assert_eq!(consumed, all.len());
    assert!(!corrupt);
}
