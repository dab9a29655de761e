use hftcore::ipc::{
    extract_frame, from_bot_service, make_frame, route, select_publisher, to_bot_service, BotError,
    CustomHeader, FanIn, NodeSignal, PubSubError, RecvDecision, MAX_PAYLOAD_LEN, TO_ALL,
};

#[test]
fn frame_round_trips_payload_and_id() {
    let payload: Vec<u8> = vec![1, 2, 3, 250];
    let (header, slot) = make_frame(7, &payload).unwrap();
    assert_eq!(header.id, 7);
    assert_eq!(header.len, 4);
    assert_eq!(slot.len(), MAX_PAYLOAD_LEN);
    let back = extract_frame(&header, &slot).unwrap();
    assert_eq!(back, payload);
}

#[test]
fn frame_round_trips_empty_and_full_payloads() {
    let empty: Vec<u8> = Vec::new();
    let (header, slot) = make_frame(0, &empty).unwrap();
    assert_eq!(header.len, 0);
    assert_eq!(extract_frame(&header, &slot).unwrap(), empty);

    let full: Vec<u8> = (0..128).map(|i| i as u8).collect();
    let (header, slot) = make_frame(9, &full).unwrap();
    assert_eq!(header.len, 128);
    assert_eq!(extract_frame(&header, &slot).unwrap(), full);
}

#[test]
fn oversized_payload_fails_to_encode() {
    let payload: Vec<u8> = vec![0; MAX_PAYLOAD_LEN + 1];
    assert_eq!(make_frame(1, &payload), Err(PubSubError::Encode));
}

#[test]
fn truncated_slot_fails_to_decode() {
    let header = CustomHeader { id: 1, len: 10 };
    let slot: Vec<u8> = vec![0; 4];
    assert_eq!(extract_frame(&header, &slot), Err(PubSubError::Decode));
}

#[test]
fn trailing_bytes_are_ignored() {
    let payload: Vec<u8> = vec![5, 6];
    let (header, mut slot) = make_frame(3, &payload).unwrap();
    // Whatever padding follows the payload does not reach the decoder.
    slot[10] = 99;
    assert_eq!(extract_frame(&header, &slot).unwrap(), payload);
}

#[test]
fn route_delivers_broadcasts_and_addressed_messages() {
    assert_eq!(route(5, Some((TO_ALL, "a"))), Some("a"));
    assert_eq!(route(5, Some((5, "b"))), Some("b"));
    assert_eq!(route(5, Some((6, "c"))), None);
    assert_eq!(route::<&str>(5, None), None);
}

#[test]
fn recv_step_times_out_interrupts_and_polls_round_robin() {
    let mut fan_in = FanIn::new(3);
    assert_eq!(fan_in.recv_step(11, 10, NodeSignal::Tick), RecvDecision::TimedOut);
    assert_eq!(
        fan_in.recv_step(0, 10, NodeSignal::TerminationRequest),
        RecvDecision::Interrupted
    );
    assert_eq!(fan_in.recv_step(0, 10, NodeSignal::InterruptSignal), RecvDecision::Interrupted);
    // Ticks poll every endpoint in turn and wrap around.
    assert_eq!(fan_in.recv_step(0, 10, NodeSignal::Tick), RecvDecision::Poll(0));
    assert_eq!(fan_in.recv_step(1, 10, NodeSignal::Tick), RecvDecision::Poll(1));
    assert_eq!(fan_in.recv_step(2, 10, NodeSignal::Tick), RecvDecision::Poll(2));
    assert_eq!(fan_in.recv_step(3, 10, NodeSignal::Tick), RecvDecision::Poll(0));
    // The deadline is exclusive: elapsed equal to the timeout still polls.
    assert_eq!(fan_in.recv_step(10, 10, NodeSignal::Tick), RecvDecision::Poll(1));
}

#[test]
fn send_path_checks_the_asset_index() {
    assert_eq!(select_publisher(0, 2), Ok(0));
    assert_eq!(select_publisher(1, 2), Ok(1));
    assert_eq!(select_publisher(2, 2), Err(BotError::AssetNotFound));
}

#[test]
fn service_names_follow_the_asset_name() {
    assert_eq!(from_bot_service("btcusdt"), "btcusdt/FromBot");
    assert_eq!(to_bot_service("btcusdt"), "btcusdt/ToBot");
}

#[test]
fn frame_round_trips_a_bincode_message() {
    // The wire path end to end: encode a typed message with the real
    // codec, frame it, read the frame back, decode.
    let message: (u64, String, Vec<u8>) = (99, "btcusdt".to_string(), vec![1, 2, 3]);
    let payload = bincode::encode_to_vec(&message, bincode::config::standard()).unwrap();
    let (header, slot) = make_frame(4, &payload).unwrap();
    let bytes = extract_frame(&header, &slot).unwrap();
    let (decoded, _): ((u64, String, Vec<u8>), usize) =
        bincode::decode_from_slice(&bytes, bincode::config::standard()).unwrap();
    assert_eq!(header.id, 4);
    assert_eq!(decoded, message);
}
