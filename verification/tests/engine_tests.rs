use lob::book::LimitOrderBook;
use lob::engine::process_order;
use lob::order::ExecuteMessage;
use lob::order::Execution;
use lob::order::OrderType;
use lob::order::RawOrder;
use lob::order::Side;

// Prices are integer tick counts: 10010 stands for 100.10 at a tick of 0.01.

fn raw(seq_id: u128, order_id: &str, price: u64, size: u64, side: Side) -> RawOrder {
    RawOrder {
        seq_id,
        order_id: order_id.to_string(),
        quote: "BTCETH".to_string(),
        price,
        size,
        side,
        order_type: OrderType::LIMIT,
    }
}

#[test]
fn resting_ask_no_cross() {
    let mut book = LimitOrderBook::new("BTCETH".to_string());
    let events = process_order(&mut book, raw(1, "A", 10010, 10, Side::ASK));
    assert_eq!(events, vec![ExecuteMessage::new(1, Execution::INSERTED)]);
    assert_eq!(book.best_ask().unwrap().price, 10010);
    assert_eq!(book.depth(Side::ASK, 10010), Some(10));
}

#[test]
fn exact_match_cross() {
    let mut book = LimitOrderBook::new("BTCETH".to_string());
    process_order(&mut book, raw(1, "A", 10010, 10, Side::ASK));
    let events = process_order(&mut book, raw(2, "B", 10010, 10, Side::BID));
    // the resting order's final fragment trades: a single FILL, not a
    // PARTIAL; the fully traded aggressor gets a FILL of its own.
    assert_eq!(
        events,
        vec![
            ExecuteMessage::new(1, Execution::FILL(10010, 10)),
            ExecuteMessage::new(2, Execution::FILL(10010, 10)),
        ]
    );
    assert!(book.best_ask().is_none());
    assert!(book.best_bid().is_none());
    assert_eq!(book.depth(Side::ASK, 10010), None);
    assert_eq!(book.depth(Side::BID, 10010), None);
}

#[test]
fn partial_fill_remainder_rests() {
    let mut book = LimitOrderBook::new("BTCETH".to_string());
    process_order(&mut book, raw(1, "A", 10010, 10, Side::ASK));
    let events = process_order(&mut book, raw(2, "B", 10010, 4, Side::BID));
    assert_eq!(
        events,
        vec![
            ExecuteMessage::new(1, Execution::PARTIAL(10010, 4)),
            ExecuteMessage::new(2, Execution::FILL(10010, 4)),
        ]
    );
    // A remains with size 6 at the same level; B is fully consumed.
    assert_eq!(book.depth(Side::ASK, 10010), Some(6));
    assert_eq!(book.best_ask().unwrap().order_id, "A".to_string());
    assert!(book.best_bid().is_none());
}

#[test]
fn non_crossing_bid_rests() {
    let mut book = LimitOrderBook::new("BTCETH".to_string());
    process_order(&mut book, raw(1, "A", 10010, 10, Side::ASK));
    let events = process_order(&mut book, raw(2, "C", 9900, 5, Side::BID));
    assert_eq!(events, vec![ExecuteMessage::new(2, Execution::INSERTED)]);
    assert_eq!(book.best_bid().unwrap().price, 9900);
    assert_eq!(book.depth(Side::BID, 9900), Some(5));
    // no trade happened
    assert_eq!(book.depth(Side::ASK, 10010), Some(10));
}

#[test]
fn cancel_clears_level_and_best() {
    let mut book = LimitOrderBook::new("BTCETH".to_string());
    process_order(&mut book, raw(1, "A", 10010, 10, Side::ASK));
    book.remove("A".to_string());
    assert_eq!(book.depth(Side::ASK, 10010), None);
    assert!(book.best_ask().is_none());
}

#[test]
fn fifo_within_level() {
    let mut book = LimitOrderBook::new("BTCETH".to_string());
    process_order(&mut book, raw(1, "A", 10010, 3, Side::ASK));
    process_order(&mut book, raw(2, "B", 10010, 7, Side::ASK));
    let events = process_order(&mut book, raw(3, "C", 10010, 5, Side::BID));
    // A arrived first and is fully traded before B trades at all.
    assert_eq!(
        events,
        vec![
            ExecuteMessage::new(1, Execution::FILL(10010, 3)),
            ExecuteMessage::new(2, Execution::PARTIAL(10010, 2)),
            ExecuteMessage::new(3, Execution::FILL(10010, 5)),
        ]
    );
    assert_eq!(book.depth(Side::ASK, 10010), Some(5));
    assert_eq!(book.best_ask().unwrap().order_id, "B".to_string());
}

#[test]
fn market_order_crosses_any_price() {
    let mut book = LimitOrderBook::new("BTCETH".to_string());
    process_order(&mut book, raw(1, "A", 99999, 2, Side::ASK));
    let mut aggressor = raw(2, "M", 1, 2, Side::BID);
    aggressor.order_type = OrderType::MARKET;
    let events = process_order(&mut book, aggressor);
    assert_eq!(
        events,
        vec![
            ExecuteMessage::new(1, Execution::FILL(99999, 2)),
            ExecuteMessage::new(2, Execution::FILL(99999, 2)),
        ]
    );
    assert!(book.best_ask().is_none());
}

#[test]
fn sweep_crosses_many_levels() {
    let mut book = LimitOrderBook::new("BTCETH".to_string());
    process_order(&mut book, raw(1, "A", 10000, 2, Side::ASK));
    process_order(&mut book, raw(2, "B", 10005, 2, Side::ASK));
    process_order(&mut book, raw(3, "C", 10010, 2, Side::ASK));
    let events = process_order(&mut book, raw(4, "D", 10005, 5, Side::BID));
    // the sweep takes whole levels in price order and the remainder rests
    assert_eq!(
        events,
        vec![
            ExecuteMessage::new(1, Execution::FILL(10000, 2)),
            ExecuteMessage::new(2, Execution::FILL(10005, 2)),
            ExecuteMessage::new(4, Execution::INSERTED),
        ]
    );
    assert_eq!(book.depth(Side::BID, 10005), Some(1));
    assert_eq!(book.depth(Side::ASK, 10010), Some(2));
    assert_eq!(book.best_ask().unwrap().order_id, "C".to_string());
    assert_eq!(book.best_bid().unwrap().order_id, "D".to_string());
}
