use lob::book::LimitOrderBook;
use lob::order::OrderType;
use lob::order::RawOrder;
use lob::order::Side;

// Prices are integer tick counts: 10010 stands for 100.10 at a tick of 0.01.

fn create_lob() -> LimitOrderBook {
    LimitOrderBook::new(String::from("LIMITORDERBOOK"))
}

fn raw(seq_id: u128, order_id: &str, price: u64, size: u64, side: Side) -> RawOrder {
    RawOrder {
        seq_id,
        order_id: order_id.to_string(),
        quote: "BTCETH".to_string(),
        price,
        size,
        side,
        order_type: OrderType::LIMIT,
    }
}

#[test]
fn insertion() {
    let mut lob = create_lob();
    let raw_order = raw(1, "ORDER1", 10010, 10, Side::ASK);

    lob.insert(raw_order);

    assert_eq!(lob.ask_list_len(), 1);
    assert_eq!(lob.bid_list_len(), 0);
    assert_eq!(lob.ask_map_len(), 1);
    assert_eq!(lob.bid_map_len(), 0);
    assert_eq!(lob.ord_map_len(), 1);
    assert!(lob.best_ask().is_some());
}

#[test]
fn insertion_on_same_limit() {
    let mut lob = create_lob();
    for i in 0..10u64 {
        let raw_order = raw(i as u128, &format!("ORDER{:?}", i), 10010, 10, Side::ASK);
        lob.insert(raw_order);
    }

    assert_eq!(lob.ask_list_len(), 1);
    assert_eq!(lob.bid_list_len(), 0);
    assert_eq!(lob.ask_map_len(), 1);
    assert_eq!(lob.bid_map_len(), 0);
    assert_eq!(lob.ord_map_len(), 10);

    assert_eq!(lob.depth(Side::ASK, 10010), Some(100));
}

#[test]
fn insertion_on_different_limit() {
    let mut lob = create_lob();
    for i in 0..10u64 {
        let raw_order = raw(
            i as u128,
            &format!("ORDER{:?}", i),
            10010 + i * 100,
            10,
            Side::ASK,
        );
        lob.insert(raw_order);
    }

    assert_eq!(lob.ask_list_len(), 10);
    assert_eq!(lob.bid_list_len(), 0);
    assert_eq!(lob.ask_map_len(), 10);
    assert_eq!(lob.bid_map_len(), 0);
    assert_eq!(lob.ord_map_len(), 10);
}

#[test]
fn removal() {
    let mut lob = create_lob();

    let raw_order = raw(1, "ORDER1", 10010, 10, Side::ASK);
    lob.insert(raw_order);

    assert_eq!(lob.ask_list_len(), 1);
    assert_eq!(lob.bid_list_len(), 0);
    assert_eq!(lob.ask_map_len(), 1);
    assert_eq!(lob.bid_map_len(), 0);
    assert_eq!(lob.ord_map_len(), 1);
    assert!(lob.best_ask().is_some());

    lob.remove("ORDER1".to_string());

    assert_eq!(lob.ask_list_len(), 0);
    assert_eq!(lob.bid_list_len(), 0);
    assert_eq!(lob.ask_map_len(), 0);
    assert_eq!(lob.bid_map_len(), 0);
    assert_eq!(lob.ord_map_len(), 0);
    // cancelling the only order empties the side, so the best quote clears
    assert!(lob.best_ask().is_none());
}

#[test]
fn removal_on_same_limit() {
    let mut lob = create_lob();

    for i in 0..10u64 {
        let raw_order = raw(i as u128, &format!("ORDER{:?}", i), 10010, 10, Side::ASK);
        lob.insert(raw_order);
    }

    assert_eq!(lob.ask_list_len(), 1);
    assert_eq!(lob.bid_list_len(), 0);
    assert_eq!(lob.ask_map_len(), 1);
    assert_eq!(lob.bid_map_len(), 0);
    assert_eq!(lob.ord_map_len(), 10);

    assert_eq!(lob.depth(Side::ASK, 10010), Some(100));

    let head_order = lob.best_ask().unwrap();
    assert_eq!(head_order.order_id, String::from("ORDER0"));
    // removing the first order from the limit node.
    lob.remove("ORDER0".to_string());

    assert_eq!(lob.ask_list_len(), 1);
    assert_eq!(lob.bid_list_len(), 0);
    assert_eq!(lob.ask_map_len(), 1);
    assert_eq!(lob.bid_map_len(), 0);
    assert_eq!(lob.ord_map_len(), 9);

    assert_eq!(lob.depth(Side::ASK, 10010), Some(90));
    let head_order = lob.best_ask().unwrap();
    assert_eq!(head_order.order_id, String::from("ORDER1"));
}

#[test]
fn update_best_is_stable() {
    let mut lob = create_lob();
    lob.insert(raw(1, "A", 10010, 10, Side::ASK));
    lob.insert(raw(2, "B", 10005, 4, Side::ASK));
    lob.update_best(Side::ASK);
    assert_eq!(lob.best_ask().unwrap().price, 10005);
    lob.update_best(Side::BID);
    assert!(lob.best_bid().is_none());
}

#[test]
fn insert_then_remove_restores_depths() {
    let mut lob = create_lob();
    lob.insert(raw(1, "A", 10010, 10, Side::ASK));
    lob.insert(raw(2, "B", 9900, 5, Side::BID));

    lob.insert(raw(3, "C", 10010, 7, Side::ASK));
    lob.remove("C".to_string());

    assert_eq!(lob.depth(Side::ASK, 10010), Some(10));
    assert_eq!(lob.depth(Side::BID, 9900), Some(5));
    assert_eq!(lob.ord_map_len(), 2);
    assert_eq!(lob.best_ask().unwrap().order_id, "A".to_string());
}
