use lob::codec::decode_execute_message;
use lob::codec::decode_order_value;
use lob::codec::decode_raw_order;
use lob::codec::encode_execute_message;
use lob::codec::encode_order_value;
use lob::codec::encode_raw_order;
use lob::order::ExecuteMessage;
use lob::order::Execution;
use lob::order::OrderType;
use lob::order::OrderValue;
use lob::order::RawOrder;
use lob::order::RawSequencedOrder;
use lob::order::Side;
use lob::queue::MmapQueue;
use lob::sequencer::Sequencer;

fn sample_order_value() -> OrderValue {
    OrderValue {
        quote: "BTCETH".to_string(),
        order_id: "ORDER".to_string(),
        price: 10010,
        size: 10,
        side: Side::ASK,
        order_type: OrderType::LIMIT,
    }
}

#[test]
fn raw_order_codec_round_trip() {
    let raw = RawOrder {
        seq_id: 77,
        order_id: "id-α".to_string(),
        quote: "BTCINR".to_string(),
        price: 100011,
        size: 42,
        side: Side::BID,
        order_type: OrderType::MARKET,
    };
    let bytes = encode_raw_order(&raw);
    let back = decode_raw_order(&bytes).unwrap();
    assert_eq!(back.seq_id, 77);
    assert_eq!(back.order_id, "id-α".to_string());
    assert_eq!(back.quote, "BTCINR".to_string());
    assert_eq!(back.price, 100011);
    assert_eq!(back.size, 42);
    assert_eq!(back.side, Side::BID);
    assert_eq!(back.order_type, OrderType::MARKET);
}

#[test]
fn order_value_codec_round_trip() {
    let ov = sample_order_value();
    let bytes = encode_order_value(&ov);
    let back = decode_order_value(&bytes).unwrap();
    assert_eq!(back.order_id, ov.order_id);
    assert_eq!(back.quote, ov.quote);
    assert_eq!(back.price, ov.price);
    assert_eq!(back.size, ov.size);
    assert_eq!(back.side, ov.side);
    assert_eq!(back.order_type, ov.order_type);
}

#[test]
fn execute_message_codec_round_trip() {
    for e in [
        Execution::INSERTED,
        Execution::CANCELLED,
        Execution::FILL(10010, 10),
        Execution::PARTIAL(9900, 4),
    ] {
        let m = ExecuteMessage::new(5, e);
        let bytes = m.as_bytes();
        assert_eq!(decode_execute_message(&bytes).unwrap(), m);
        assert_eq!(encode_execute_message(&m), bytes);
    }
}

#[test]
fn malformed_bytes_are_rejected() {
    assert!(decode_raw_order(&[]).is_err());
    assert!(decode_execute_message(&[1, 2, 3]).is_err());
    let mut bytes = encode_order_value(&sample_order_value());
    bytes.push(0);
    assert!(decode_order_value(&bytes).is_err());
}

fn fresh_sequencer() -> Sequencer {
    let inbound_engine = MmapQueue::create(1024, 512).unwrap();
    let outbound_engine = MmapQueue::create(1024, 512).unwrap();
    let inbound_manager = MmapQueue::create(1024, 512).unwrap();
    let write_head_log = MmapQueue::create(4096, 512).unwrap();
    let outbound_manager = MmapQueue::create(1024, 512).unwrap();
    Sequencer::new(
        "BTCETH".to_string(),
        inbound_engine,
        outbound_engine,
        inbound_manager,
        write_head_log,
        outbound_manager,
    )
}

#[test]
fn sequencer_promotes_and_logs() {
    let mut seq = fresh_sequencer();
    let submission = encode_order_value(&sample_order_value());
    seq.enqueue_inbound(&submission).unwrap();
    // nothing on the engine queue yet
    assert_eq!(seq.poll_inbound(), Ok(true));
    let forwarded = seq.dequeue_engine_inbound().unwrap().unwrap();
    let raw = decode_raw_order(&forwarded).unwrap();
    assert_eq!(raw.seq_id, 0);
    assert_eq!(raw.order_id, "ORDER".to_string());
    assert_eq!(raw.price, 10010);
    assert_eq!(raw.size, 10);
    // an empty inbox is reported without work
    assert_eq!(seq.poll_inbound(), Ok(false));
}

#[test]
fn sequencer_ids_are_contiguous() {
    let mut seq = fresh_sequencer();
    for _ in 0..3 {
        let submission = encode_order_value(&sample_order_value());
        seq.enqueue_inbound(&submission).unwrap();
        assert_eq!(seq.poll_inbound(), Ok(true));
    }
    for expect in 0..3u128 {
        let forwarded = seq.dequeue_engine_inbound().unwrap().unwrap();
        let raw = decode_raw_order(&forwarded).unwrap();
        assert_eq!(raw.seq_id, expect);
    }
}

#[test]
fn sequencer_forwards_executions_unchanged() {
    let mut seq = fresh_sequencer();
    let m = ExecuteMessage::new(9, Execution::PARTIAL(10010, 3));
    let bytes = m.as_bytes();
    seq.enqueue_engine_outbound(&bytes).unwrap();
    assert_eq!(seq.poll_outbound(), Ok(true));
    let out = seq.dequeue_outbound().unwrap().unwrap();
    assert_eq!(out, bytes);
    assert_eq!(seq.poll_outbound(), Ok(false));
}

#[test]
fn builders_fill_every_field() {
    let r = RawSequencedOrder::default()
        .with_seq_id(1)
        .with_order_id("ORDER".to_string())
        .with_quote("TEST".to_string())
        .with_price(10010)
        .with_size(10)
        .with_side(false)
        .with_order_type(true);
    let raw = RawOrder::from(r);
    assert_eq!(raw.seq_id, 1);
    assert_eq!(raw.order_id, "ORDER".to_string());
    assert_eq!(raw.quote, "TEST".to_string());
    assert_eq!(raw.price, 10010);
    assert_eq!(raw.size, 10);
    assert_eq!(raw.side, Side::ASK);
    assert_eq!(raw.order_type, OrderType::LIMIT);
}
