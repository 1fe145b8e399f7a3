use order_book_server::error::ServerError;
use order_book_server::order_book::types::{Coin, Px, Side, Sz};
use order_book_server::types::inner::{InnerL4Order, InnerLevel, InnerOrderDiff};
use order_book_server::types::node_data::{NodeDataFill, NodeDataOrderDiff};
use order_book_server::types::{Fill, L2Book, L4Order, Level, OrderDiff, Trade, UserAddress};

fn user(b: u8) -> UserAddress {
    UserAddress([b; 20])
}

fn l4(px: &str, sz: &str) -> L4Order {
    L4Order {
        user: None,
        coin: "BTC".to_string(),
        side: Side::Bid,
        limit_px: px.to_string(),
        sz: sz.to_string(),
        oid: 42,
        timestamp: 1_700_000_000_000,
        trigger_condition: "N/A".to_string(),
        is_trigger: false,
        trigger_px: "0.0".to_string(),
        is_position_tpsl: false,
        reduce_only: true,
        order_type: "Limit".to_string(),
        tif: Some("Alo".to_string()),
        cloid: Some("0xabc".to_string()),
    }
}

fn diff(raw: OrderDiff, px: &str) -> NodeDataOrderDiff {
    NodeDataOrderDiff { user: user(3), oid: 9, px: px.to_string(), coin: "ETH".to_string(), side: Side::Ask, raw_book_diff: raw }
}

#[test]
fn order_from_text_form() {
    let o = InnerL4Order::try_from((user(1), l4("100.25", "2"))).unwrap();
    assert_eq!(o.limit_px, Px(10_025_000_000));
    assert_eq!(o.sz, Sz(200_000_000));
    assert_eq!(o.coin.value(), "BTC");
    assert_eq!(o.oid, 42);
    assert_eq!(o.timestamp, 1_700_000_000_000);
    assert!(o.reduce_only);
    assert_eq!(o.tif.as_deref(), Some("Alo"));
    assert_eq!(o.cloid.as_deref(), Some("0xabc"));
    assert_eq!(o.user.0, [1; 20]);
}

#[test]
fn order_from_text_form_refuses_bad_numbers() {
    assert_eq!(InnerL4Order::try_from((user(1), l4("x", "2"))).err(), Some(ServerError::InvalidNumber));
    assert_eq!(InnerL4Order::try_from((user(1), l4("1", ""))).err(), Some(ServerError::InvalidNumber));
}

#[test]
fn text_form_round_trip() {
    let o = InnerL4Order::try_from((user(1), l4("100.25", "0.5"))).unwrap();
    let text = L4Order::from(o.clone());
    assert_eq!(text.limit_px, "100.25");
    assert_eq!(text.sz, "0.5");
    assert_eq!(text.user.map(|u| u.0), Some([1; 20]));
    let back = InnerL4Order::try_from((user(1), text)).unwrap();
    assert!(back == o);
    assert_eq!(back.timestamp, o.timestamp);
    assert_eq!(back.tif, o.tif);
}

#[test]
fn equality_ignores_fields_that_diffs_lack() {
    let a = InnerL4Order::try_from((user(1), l4("1", "1"))).unwrap();
    let mut b = a.clone();
    b.timestamp = 5;
    b.tif = None;
    b.cloid = None;
    b.reduce_only = false;
    assert!(a == b);
    b.sz = Sz(1);
    assert!(a != b);
    let mut c = a.clone();
    c.user = user(2);
    assert!(a != c);
    let mut d = a.clone();
    d.coin = Coin::new("ETH");
    assert!(a != d);
}

#[test]
fn order_from_new_diff() {
    let o = InnerL4Order::try_from_diff(diff(OrderDiff::New { sz: "1.5".to_string() }, "3000")).unwrap();
    assert_eq!(o.sz, Sz(150_000_000));
    assert_eq!(o.limit_px, Px(300_000_000_000));
    assert_eq!(o.side, Side::Ask);
    assert_eq!(o.oid, 9);
    assert_eq!(o.coin.value(), "ETH");
    assert_eq!(o.timestamp, 0);
    assert_eq!(o.trigger_px, "0.0");
    assert_eq!(o.trigger_condition, "N/A");
    assert_eq!(o.order_type, "Limit");
    assert_eq!(o.tif.as_deref(), Some("Gtc"));
    assert_eq!(o.cloid, None);
    assert!(!o.is_trigger && !o.reduce_only && !o.is_position_tpsl);
}

#[test]
fn order_from_diff_errors() {
    assert_eq!(InnerL4Order::try_from_diff(diff(OrderDiff::Remove, "1")).err(), Some(ServerError::NotANewOrderDiff));
    let upd = OrderDiff::Update { orig_sz: "1".to_string(), new_sz: "2".to_string() };
    assert_eq!(InnerL4Order::try_from_diff(diff(upd, "1")).err(), Some(ServerError::NotANewOrderDiff));
    assert_eq!(InnerL4Order::try_from_diff(diff(OrderDiff::New { sz: "1".to_string() }, "bad")).err(), Some(ServerError::InvalidNumber));
    assert_eq!(InnerL4Order::try_from_diff(diff(OrderDiff::New { sz: "-1".to_string() }, "1")).err(), Some(ServerError::InvalidNumber));
}

#[test]
fn diff_accessors() {
    let d = diff(OrderDiff::New { sz: "1".to_string() }, "2");
    assert_eq!(d.oid().0, 9);
    assert_eq!(d.coin().value(), "ETH");
    assert!(matches!(d.diff(), OrderDiff::New { sz } if sz == "1"));
}

#[test]
fn inner_diffs() {
    assert_eq!(InnerOrderDiff::try_from(OrderDiff::New { sz: "x".to_string() }), Ok(InnerOrderDiff::New));
    assert_eq!(InnerOrderDiff::try_from(OrderDiff::Remove), Ok(InnerOrderDiff::Remove));
    assert_eq!(
        InnerOrderDiff::try_from(OrderDiff::Update { orig_sz: "1".to_string(), new_sz: "0.5".to_string() }),
        Ok(InnerOrderDiff::Update { orig_sz: Sz(100_000_000), new_sz: Sz(50_000_000) })
    );
    assert_eq!(
        InnerOrderDiff::try_from(OrderDiff::Update { orig_sz: "1".to_string(), new_sz: "?".to_string() }),
        Err(ServerError::InvalidNumber)
    );
}

#[test]
fn fill_takes_the_smaller_size() {
    let mut taker = InnerL4Order::try_from((user(1), l4("10", "3"))).unwrap();
    let mut maker = InnerL4Order::try_from((user(2), l4("10", "5"))).unwrap();
    let m = taker.fill(&mut maker);
    assert_eq!(m, Sz(300_000_000));
    assert_eq!(taker.sz(), Sz(0));
    assert_eq!(maker.sz(), Sz(200_000_000));
    taker.modify_sz(Sz(700));
    assert_eq!(taker.sz(), Sz(700));
    taker.decrement_sz(Sz(100));
    assert_eq!(taker.sz().value(), 600);
    assert_eq!(taker.oid().0, 42);
    assert_eq!(taker.side(), Side::Bid);
    assert_eq!(taker.limit_px(), Px(1_000_000_000));
    assert_eq!(taker.coin().value(), "BTC");
}

#[test]
fn levels_in_text_form() {
    let l = Level::from(InnerLevel { px: Px(10_550_000_000), sz: Sz(120_000), n: 4 });
    assert_eq!(l.px, "105.5");
    assert_eq!(l.sz, "0.0012");
    assert_eq!(l.n, 4);
    let b = L2Book::from_l2_snapshot("BTC".to_string(), [vec![Level::new("1".to_string(), "2".to_string(), 3)], vec![]], 77);
    assert_eq!(b.coin, "BTC");
    assert_eq!(b.time, 77);
    assert_eq!(b.levels[0][0].n, 3);
    assert!(b.levels[1].is_empty());
}

fn fill(side: Side, crossed: bool, coin: &str, tid: u64) -> Fill {
    Fill {
        coin: coin.to_string(),
        px: "101.5".to_string(),
        sz: if side == Side::Ask { "2".to_string() } else { "9".to_string() },
        side,
        time: if side == Side::Ask { 11 } else { 22 },
        start_position: "0".to_string(),
        dir: "Open Long".to_string(),
        closed_pnl: "0".to_string(),
        hash: if side == Side::Ask { "0xask".to_string() } else { "0xbid".to_string() },
        oid: 1,
        crossed,
        fee: "0".to_string(),
        tid,
        fee_token: "USDC".to_string(),
        liquidation: None,
    }
}

#[test]
fn trade_from_fills() {
    let fills = vec![
        (Side::Bid, NodeDataFill(user(7), fill(Side::Bid, false, "BTC", 5))),
        (Side::Ask, NodeDataFill(user(8), fill(Side::Ask, true, "BTC", 5))),
    ];
    let t = Trade::from_fills(fills);
    assert_eq!(t.coin, "BTC");
    assert_eq!(t.side, Side::Ask);
    assert_eq!(t.px, "101.5");
    assert_eq!(t.sz, "2");
    assert_eq!(t.hash, "0xask");
    assert_eq!(t.time, 11);
    assert_eq!(t.tid, 5);
    assert_eq!(t.users[0].0, [7; 20]);
    assert_eq!(t.users[1].0, [8; 20]);
}

#[test]
fn trade_side_is_bid_when_ask_made() {
    let fills = vec![
        (Side::Ask, NodeDataFill(user(8), fill(Side::Ask, false, "ETH", 6))),
        (Side::Bid, NodeDataFill(user(7), fill(Side::Bid, true, "ETH", 6))),
    ];
    let t = Trade::from_fills(fills);
    assert_eq!(t.side, Side::Bid);
    assert_eq!(t.coin, "ETH");
}

#[test]
fn addresses() {
    assert!(user(1).same(&user(1)));
    assert!(!user(1).same(&user(2)));
    let mut a = [0u8; 20];
    a[19] = 1;
    assert!(!UserAddress(a).same(&user(0)));
}
