use order_book_server::error::ServerError;
use order_book_server::listeners::order_book::state::OrderBookState;
use order_book_server::order_book::multi_book::{CoinBook, OrderBooks, Snapshots};
use order_book_server::order_book::types::{Coin, Oid, Px, Side, Sz};
use order_book_server::types::inner::InnerL4Order;
use order_book_server::types::node_data::{Batch, BlockDateTime, EventSource, NodeDataOrderDiff};
use order_book_server::types::{OrderDiff, UserAddress};

fn order(coin: &str, side: Side, px: u64, sz: u64, oid: u64, trigger: bool) -> InnerL4Order {
    InnerL4Order {
        user: UserAddress([1; 20]),
        coin: Coin::new(coin),
        side,
        limit_px: Px(px),
        sz: Sz(sz),
        oid,
        timestamp: 0,
        trigger_condition: "N/A".to_string(),
        is_trigger: trigger,
        trigger_px: "0.0".to_string(),
        is_position_tpsl: false,
        reduce_only: false,
        order_type: "Limit".to_string(),
        tif: None,
        cloid: None,
    }
}

fn oids(v: &[InnerL4Order]) -> Vec<u64> {
    v.iter().map(|o| o.oid).collect()
}

fn book_of<'a>(s: &'a Snapshots, coin: &str) -> &'a CoinBook {
    s.0.iter().find(|b| b.coin.value() == coin).unwrap()
}

fn new_diff(coin: &str, oid: u64, side: Side, px: &str, sz: &str) -> NodeDataOrderDiff {
    NodeDataOrderDiff {
        user: UserAddress([2; 20]),
        oid,
        px: px.to_string(),
        coin: coin.to_string(),
        side,
        raw_book_diff: OrderDiff::New { sz: sz.to_string() },
    }
}

fn update_diff(coin: &str, oid: u64, new_sz: &str) -> NodeDataOrderDiff {
    NodeDataOrderDiff {
        user: UserAddress([2; 20]),
        oid,
        px: "0".to_string(),
        coin: coin.to_string(),
        side: Side::Bid,
        raw_book_diff: OrderDiff::Update { orig_sz: "1".to_string(), new_sz: new_sz.to_string() },
    }
}

fn remove_diff(coin: &str, oid: u64) -> NodeDataOrderDiff {
    NodeDataOrderDiff {
        user: UserAddress([2; 20]),
        oid,
        px: "0".to_string(),
        coin: coin.to_string(),
        side: Side::Bid,
        raw_book_diff: OrderDiff::Remove,
    }
}

fn time(days: i32, secs: u32) -> BlockDateTime {
    BlockDateTime::new(days, secs, 0).unwrap()
}

fn batch(number: u64, events: Vec<NodeDataOrderDiff>) -> Batch<NodeDataOrderDiff> {
    Batch { local_time: time(20_000, 5), block_time: time(20_000, number as u32), block_number: number, events }
}

fn starting_state(ignore_spot: bool) -> OrderBookState {
    let mut books = OrderBooks::new();
    books.add_order(order("BTC", Side::Bid, 100, 1, 1, false));
    books.add_order(order("BTC", Side::Ask, 110, 1, 2, false));
    OrderBookState::from_snapshot(books.to_snapshots(), 10, 1_000, false, ignore_spot)
}

#[test]
fn bids_and_asks_keep_price_time_priority() {
    let mut books = OrderBooks::new();
    books.add_order(order("BTC", Side::Bid, 100, 1, 1, false));
    books.add_order(order("BTC", Side::Bid, 105, 1, 2, false));
    books.add_order(order("BTC", Side::Bid, 100, 1, 3, false));
    books.add_order(order("BTC", Side::Bid, 90, 1, 4, false));
    books.add_order(order("BTC", Side::Ask, 120, 1, 5, false));
    books.add_order(order("BTC", Side::Ask, 110, 1, 6, false));
    books.add_order(order("BTC", Side::Ask, 120, 1, 7, false));
    let s = books.to_snapshots();
    let b = book_of(&s, "BTC");
    assert_eq!(oids(&b.bids), vec![2, 1, 3, 4]);
    assert_eq!(oids(&b.asks), vec![6, 5, 7]);
}

#[test]
fn adding_an_existing_id_replaces_the_order() {
    let mut books = OrderBooks::new();
    books.add_order(order("BTC", Side::Bid, 100, 1, 1, false));
    books.add_order(order("BTC", Side::Ask, 130, 4, 1, false));
    let s = books.to_snapshots();
    let b = book_of(&s, "BTC");
    assert!(b.bids.is_empty());
    assert_eq!(oids(&b.asks), vec![1]);
    assert_eq!(b.asks[0].sz, Sz(4));
}

#[test]
fn cancel_and_modify() {
    let mut books = OrderBooks::new();
    books.add_order(order("BTC", Side::Bid, 100, 1, 1, false));
    books.add_order(order("ETH", Side::Ask, 50, 1, 2, false));
    books.modify_sz(Oid(2), Coin::new("ETH"), Sz(9));
    books.modify_sz(Oid(2), Coin::new("BTC"), Sz(7));
    books.cancel_order(Oid(1), Coin::new("ETH"));
    let s = books.to_snapshots();
    assert_eq!(book_of(&s, "ETH").asks[0].sz, Sz(9));
    assert_eq!(oids(&book_of(&s, "BTC").bids), vec![1]);
    books.cancel_order(Oid(1), Coin::new("BTC"));
    books.cancel_order(Oid(1), Coin::new("SOL"));
    let s = books.to_snapshots();
    assert!(book_of(&s, "BTC").bids.is_empty());
    let coins: Vec<String> = books.universe().iter().map(|c| c.value()).collect();
    assert_eq!(coins, vec!["BTC".to_string(), "ETH".to_string()]);
}

#[test]
fn aggregated_levels() {
    let mut books = OrderBooks::new();
    books.add_order(order("BTC", Side::Bid, 100, 1, 1, false));
    books.add_order(order("BTC", Side::Bid, 100, 2, 2, false));
    books.add_order(order("BTC", Side::Bid, 99, 5, 3, false));
    books.add_order(order("BTC", Side::Ask, 101, u64::MAX, 4, false));
    books.add_order(order("BTC", Side::Ask, 101, 3, 5, false));
    let l2 = books.l2_snapshots();
    assert_eq!(l2.0.len(), 1);
    let b = &l2.0[0];
    assert_eq!(b.coin.value(), "BTC");
    let bids: Vec<(u64, u64, usize)> = b.bids.iter().map(|l| (l.px.0, l.sz.0, l.n)).collect();
    assert_eq!(bids, vec![(100, 3, 2), (99, 5, 1)]);
    let asks: Vec<(u64, u64, usize)> = b.asks.iter().map(|l| (l.px.0, l.sz.0, l.n)).collect();
    assert_eq!(asks, vec![(101, u64::MAX, 2)]);
}

#[test]
fn snapshot_loading_skips_triggers_on_request() {
    let mut books = OrderBooks::new();
    books.add_order(order("BTC", Side::Bid, 100, 1, 1, true));
    books.add_order(order("BTC", Side::Bid, 101, 1, 2, false));
    let kept = OrderBooks::from_snapshots(books.to_snapshots(), false).to_snapshots();
    assert_eq!(oids(&book_of(&kept, "BTC").bids), vec![2, 1]);
    let skipped = OrderBooks::from_snapshots(books.to_snapshots(), true).to_snapshots();
    assert_eq!(oids(&book_of(&skipped, "BTC").bids), vec![2]);
}

#[test]
fn snapshot_round_trip_keeps_the_state() {
    let mut state = starting_state(false);
    let r = state.apply_updates(batch(11, vec![new_diff("ETH", 3, Side::Ask, "2000", "1"), new_diff("BTC", 4, Side::Bid, "100", "2")]));
    assert_eq!(r, Ok(()));
    let snap = state.compute_snapshot();
    assert_eq!(snap.height, 11);
    let again = OrderBookState::from_snapshot(snap.snapshot, snap.height, snap.time, false, false);
    let a = state.compute_snapshot();
    let b = again.compute_snapshot();
    assert_eq!((a.height, a.time), (b.height, b.time));
    assert_eq!(a.snapshot.0.len(), b.snapshot.0.len());
    for (x, y) in a.snapshot.0.iter().zip(b.snapshot.0.iter()) {
        assert_eq!(x.coin.value(), y.coin.value());
        assert!(x.bids == y.bids);
        assert!(x.asks == y.asks);
    }
}

#[test]
fn applies_the_next_block() {
    let mut state = starting_state(false);
    let r = state.apply_updates(batch(
        11,
        vec![
            new_diff("BTC", 3, Side::Bid, "101", "2"),
            update_diff("BTC", 1, "0.5"),
            remove_diff("BTC", 2),
        ],
    ));
    assert_eq!(r, Ok(()));
    assert_eq!(state.height(), 11);
    let s = state.compute_snapshot();
    assert_eq!(s.time, (20_000u64 * 86_400 + 11) * 1000);
    let b = book_of(&s.snapshot, "BTC");
    assert_eq!(oids(&b.bids), vec![3, 1]);
    assert_eq!(b.bids[0].limit_px, Px(10_100_000_000));
    assert_eq!(b.bids[1].sz, Sz(50_000_000));
    assert!(b.asks.is_empty());
}

#[test]
fn refuses_a_skipped_block() {
    let mut state = starting_state(false);
    let r = state.apply_updates(batch(13, vec![new_diff("BTC", 3, Side::Bid, "101", "2")]));
    assert_eq!(r, Err(ServerError::UnexpectedBlock { expected: 11, got: 13 }));
    assert_eq!(state.height(), 10);
    assert_eq!(oids(&book_of(&state.compute_snapshot().snapshot, "BTC").bids), vec![1]);
}

#[test]
fn ignores_an_old_block() {
    let mut state = starting_state(false);
    assert_eq!(state.apply_updates(batch(10, vec![remove_diff("BTC", 1)])), Ok(()));
    assert_eq!(state.apply_updates(batch(3, vec![remove_diff("BTC", 1)])), Ok(()));
    assert_eq!(state.height(), 10);
    assert_eq!(state.compute_snapshot().time, 1_000);
    assert_eq!(oids(&book_of(&state.compute_snapshot().snapshot, "BTC").bids), vec![1]);
}

#[test]
fn a_bad_diff_stops_the_batch() {
    let mut state = starting_state(false);
    let r = state.apply_updates(batch(
        11,
        vec![new_diff("BTC", 3, Side::Bid, "101", "2"), update_diff("BTC", 1, "oops"), remove_diff("BTC", 2)],
    ));
    assert_eq!(r, Err(ServerError::InvalidNumber));
    assert_eq!(state.height(), 10);
    let s = state.compute_snapshot();
    let b = book_of(&s.snapshot, "BTC");
    assert_eq!(oids(&b.bids), vec![3, 1]);
    assert_eq!(oids(&b.asks), vec![2]);
}

#[test]
fn spot_diffs_are_skipped_on_request() {
    let mut state = starting_state(true);
    let r = state.apply_updates(batch(11, vec![new_diff("@1", 3, Side::Bid, "1", "1"), new_diff("PURR/USDC", 4, Side::Bid, "bad", "1")]));
    assert_eq!(r, Ok(()));
    let coins: Vec<String> = state.compute_universe().iter().map(|c| c.value()).collect();
    assert_eq!(coins, vec!["BTC".to_string()]);
    let mut with_spot = starting_state(false);
    assert_eq!(with_spot.apply_updates(batch(11, vec![new_diff("@1", 3, Side::Bid, "1", "1")])), Ok(()));
    assert_eq!(with_spot.compute_universe().len(), 2);
}

#[test]
fn aggregated_snapshot_once_per_block() {
    let mut state = starting_state(false);
    let first = state.l2_snapshots(false);
    assert_eq!(first.as_ref().map(|(t, _)| *t), Some(1_000));
    assert!(state.l2_snapshots(true).is_some());
    assert!(state.l2_snapshots(false).is_none());
    assert!(state.l2_snapshots(true).is_none());
    assert_eq!(state.apply_updates(batch(11, vec![])), Ok(()));
    let (t, l2) = state.l2_snapshots(true).unwrap();
    assert_eq!(t, (20_000u64 * 86_400 + 11) * 1000);
    assert_eq!(l2.0[0].bids[0].px, Px(100));
}

#[test]
fn block_times() {
    assert!(BlockDateTime::new(0, 86_400, 0).is_none());
    assert!(BlockDateTime::new(0, 10, 1_500_000_000).is_none());
    assert!(BlockDateTime::new(0, 59, 1_500_000_000).is_some());
    assert!(BlockDateTime::new(95_026_237, 0, 0).is_none());
    assert!(BlockDateTime::new(-96_465_293, 0, 0).is_none());
    let t = BlockDateTime::new(13_036, 43_200, 500_000_000).unwrap();
    assert_eq!(t.timestamp_millis(), 13_036 * 86_400_000 + 43_200_000 + 500);
    let leap = BlockDateTime::new(0, 59, 1_999_000_000).unwrap();
    assert_eq!(leap.timestamp_millis(), 59_000 + 1_999);
    let latest = BlockDateTime::new(95_026_236, 86_399, 999_999_999).unwrap();
    assert_eq!(latest.timestamp_millis(), (95_026_236i64 * 86_400 + 86_399) * 1000 + 999);
    let earliest = BlockDateTime::new(-96_465_292, 0, 0).unwrap();
    assert_eq!(earliest.timestamp_millis(), -96_465_292i64 * 86_400_000);
    assert_eq!((t.epoch_days_value(), t.secs_value(), t.nanos_value()), (13_036, 43_200, 500_000_000));
}

#[test]
fn batch_times() {
    let before_1970 = Batch::<u8> { local_time: time(-1, 0), block_time: time(-1, 0), block_number: 1, events: vec![1, 2] };
    assert_eq!(before_1970.try_block_time(), None);
    let b = Batch::<u8> { local_time: time(0, 0), block_time: time(1, 1), block_number: 9, events: vec![3] };
    assert_eq!(b.try_block_time(), Some(86_401_000));
    assert_eq!(b.block_time(), 86_401_000);
    assert_eq!(b.block_number(), 9);
    assert_eq!(b.events(), vec![3]);
}

#[test]
fn event_source_dirs() {
    assert_eq!(EventSource::Fills.event_source_dir("/data"), "/data/hl/data/node_fills_by_block");
    assert_eq!(EventSource::OrderDiffs.event_source_dir("/data/"), "/data/hl/data/node_raw_book_diffs_by_block");
    assert_eq!(EventSource::Fills.event_source_dir(""), "hl/data/node_fills_by_block");
}
