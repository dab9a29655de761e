use hftcore::stream::{
    depth_events, is_decimal_str, snapshot_events, subscribe_frame, subscribe_step, trade_event,
    ws_step, DepthSnapshot, DepthUpdate, FeedKind, MarketDataState, PxQty, StreamError,
    SubscribeAction, SymbolFeed, Trade, WsAction, WsIncoming,
};

fn level(px: &str, qty: &str) -> PxQty {
    PxQty { px: px.to_string(), qty: qty.to_string() }
}

#[test]
fn depth_diff_is_normalized() {
    let update = DepthUpdate {
        symbol: "BTCUSDT".to_string(),
        transaction_time: 1_700_000_000_000,
        first_update_id: 100,
        last_update_id: 105,
        prev_update_id: 99,
        bids: vec![level("50000", "1.5")],
        asks: vec![level("50100", "2.0")],
    };
    let mut state = MarketDataState::new();
    // First message: no reconciliation state yet, so a snapshot fetch is
    // requested; the diff is still applied.
    let (fetch, events) = state.on_depth_update(&update, 42);
    assert!(fetch);
    events.unwrap();
    // With the state primed, the diff is authoritative.
    let (fetch, events) = state.on_depth_update(&update, 42);
    assert!(!fetch);
    let events = events.unwrap();
    assert_eq!(events.len(), 2);
    assert_eq!(events[0].kind, FeedKind::BidDepth);
    assert_eq!(events[0].symbol, "btcusdt");
    assert_eq!(events[0].exch_ts, 1_700_000_000_000_000_000);
    assert_eq!(events[0].local_ts, 42);
    assert_eq!(events[0].px.parse::<f64>().unwrap(), 50000.0);
    assert_eq!(events[0].qty.parse::<f32>().unwrap(), 1.5);
    assert_eq!(events[1].kind, FeedKind::AskDepth);
    assert_eq!(events[1].px.parse::<f64>().unwrap(), 50100.0);
    assert_eq!(events[1].qty.parse::<f32>().unwrap(), 2.0);
}

#[test]
fn chained_diffs_emit_levels_in_order() {
    // Two diffs chained by update id: each emits its bids then its asks,
    // in the levels' order, and only the first asks for a snapshot.
    let mut state = MarketDataState::new();
    let first = DepthUpdate {
        symbol: "ethusdt".to_string(),
        transaction_time: 1_000,
        first_update_id: 10,
        last_update_id: 12,
        prev_update_id: 9,
        bids: vec![level("2000", "1"), level("1999", "2")],
        asks: vec![level("2001", "3")],
    };
    let (fetch, events) = state.on_depth_update(&first, 0);
    assert!(fetch);
    let events = events.unwrap();
    assert_eq!(events.len(), 3);
    assert_eq!(
        events.iter().map(|e| e.px.as_str()).collect::<Vec<_>>(),
        vec!["2000", "1999", "2001"]
    );
    assert_eq!(events[0].kind, FeedKind::BidDepth);
    assert_eq!(events[1].kind, FeedKind::BidDepth);
    assert_eq!(events[2].kind, FeedKind::AskDepth);

    let second = DepthUpdate {
        symbol: "ethusdt".to_string(),
        transaction_time: 2_000,
        first_update_id: 13,
        last_update_id: 15,
        prev_update_id: 12,
        bids: vec![level("2002", "1")],
        asks: vec![],
    };
    let (fetch, events) = state.on_depth_update(&second, 1);
    assert!(!fetch);
    let events = events.unwrap();
    assert_eq!(events.len(), 1);
    assert_eq!(events[0].exch_ts, 2_000_000_000);
    // A different symbol still has no state.
    let mut other = first;
    other.symbol = "btcusdt".to_string();
    let (fetch, _) = state.on_depth_update(&other, 2);
    assert!(fetch);
}

#[test]
fn trade_side_follows_the_maker_flag() {
    let mut trade = Trade {
        symbol: "BTCUSDT".to_string(),
        transaction_time: 1_700_000_000_000,
        price: "50050".to_string(),
        qty: "0.1".to_string(),
        is_the_buyer_the_market_maker: true,
    };
    let ev = trade_event(&trade, 7).unwrap();
    assert_eq!(ev.kind, FeedKind::SellTrade);
    assert_eq!(ev.symbol, "btcusdt");
    assert_eq!(ev.exch_ts, 1_700_000_000_000_000_000);
    assert_eq!(ev.px, "50050");
    assert_eq!(ev.qty, "0.1");

    trade.is_the_buyer_the_market_maker = false;
    let ev = trade_event(&trade, 7).unwrap();
    assert_eq!(ev.kind, FeedKind::BuyTrade);
}

#[test]
fn malformed_payloads_are_skipped() {
    let update = DepthUpdate {
        symbol: "btcusdt".to_string(),
        transaction_time: 1,
        first_update_id: 1,
        last_update_id: 2,
        prev_update_id: 0,
        bids: vec![level("50.0.0", "1")],
        asks: vec![],
    };
    let r = depth_events("btcusdt", 1, &update.bids, &update.asks, 0);
    assert_eq!(r.err(), Some(StreamError::Malformed));

    let trade = Trade {
        symbol: "btcusdt".to_string(),
        transaction_time: 1,
        price: "abc".to_string(),
        qty: "1".to_string(),
        is_the_buyer_the_market_maker: false,
    };
    assert_eq!(trade_event(&trade, 0).err(), Some(StreamError::Malformed));
}

#[test]
fn decimal_grammar_is_exact() {
    assert!(is_decimal_str("0"));
    assert!(is_decimal_str("50000"));
    assert!(is_decimal_str("1.5"));
    assert!(is_decimal_str("0.001"));
    assert!(!is_decimal_str(""));
    assert!(!is_decimal_str("."));
    assert!(!is_decimal_str(".5"));
    assert!(!is_decimal_str("5."));
    assert!(!is_decimal_str("1.2.3"));
    assert!(!is_decimal_str("12a"));
    assert!(!is_decimal_str("-1"));
}

#[test]
fn snapshot_emits_bids_then_asks() {
    let snapshot = DepthSnapshot {
        last_update_id: 10,
        transaction_time: 1_000,
        bids: vec![level("100", "1"), level("99", "2")],
        asks: vec![level("101", "3")],
    };
    let events = snapshot_events(&"btcusdt".to_string(), &snapshot, 5).unwrap();
    assert_eq!(events.len(), 3);
    assert_eq!(events[0].kind, FeedKind::BidDepth);
    assert_eq!(events[0].px, "100");
    assert_eq!(events[1].kind, FeedKind::BidDepth);
    assert_eq!(events[1].px, "99");
    assert_eq!(events[2].kind, FeedKind::AskDepth);
    assert_eq!(events[2].px, "101");
    assert_eq!(events[0].exch_ts, 1_000_000_000);
    assert_eq!(events[0].symbol, "btcusdt");
}

#[test]
fn subscribe_frame_is_the_exchange_request() {
    assert_eq!(
        subscribe_frame("btcusdt"),
        "{\"method\":\"SUBSCRIBE\",\"params\":[\"btcusdt@trade\",\"btcusdt@depth@0ms\"],\"id\":1}"
    );
}

#[test]
fn ws_steps_follow_the_housekeeping_table() {
    assert_eq!(
        ws_step(WsIncoming::Text("x".to_string())),
        WsAction::ProcessText("x".to_string())
    );
    assert_eq!(ws_step(WsIncoming::Ping(vec![1])), WsAction::ReplyPong);
    assert_eq!(ws_step(WsIncoming::Pong), WsAction::Ignore);
    assert_eq!(ws_step(WsIncoming::Binary(vec![2])), WsAction::Ignore);
    assert_eq!(ws_step(WsIncoming::Frame), WsAction::Ignore);
    assert_eq!(
        ws_step(WsIncoming::Close(Some("bye".to_string()))),
        WsAction::AbortConnection("bye".to_string())
    );
    assert_eq!(
        ws_step(WsIncoming::Close(None)),
        WsAction::AbortConnection(String::new())
    );
    assert_eq!(
        ws_step(WsIncoming::TransportError("reset".to_string())),
        WsAction::FailTransport("reset".to_string())
    );
    assert_eq!(ws_step(WsIncoming::StreamEnd), WsAction::FailInterrupted);
}

#[test]
fn subscribe_steps_follow_the_channel() {
    assert_eq!(
        subscribe_step(SymbolFeed::Symbol("ethusdt".to_string())),
        SubscribeAction::SendFrame(subscribe_frame("ethusdt"))
    );
    assert_eq!(subscribe_step(SymbolFeed::Lagged(3)), SubscribeAction::Continue);
    assert_eq!(subscribe_step(SymbolFeed::Closed), SubscribeAction::Finish);
}
