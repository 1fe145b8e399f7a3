//! The values that the node writes and that clients read: orders, diffs,
//! fills, trades and price levels.

pub mod inner;
pub mod node_data;

use vstd::prelude::*;
use crate::order_book::types::Side;
use crate::types::node_data::{NodeDataFill, NodeDataOrderDiff};

verus! {

/// An account address: twenty bytes.
#[derive(Clone, Copy, Debug)]
pub struct UserAddress(pub [u8; 20]);

impl UserAddress {
    /// Whether two addresses hold the same bytes.
    pub fn same(&self, other: &UserAddress) -> (r: bool)
        ensures
            r == (self.0@ == other.0@),
    {
        let mut i: usize = 0;
        while i < 20
            invariant
                i <= 20,
                self.0@.len() == 20,
                other.0@.len() == 20,
                forall|j: int| 0 <= j < i ==> self.0@[j] == other.0@[j],
            decreases 20 - i,
        {
            if self.0[i] != other.0[i] {
                return false;
            }
            i = i + 1;
        }
        assert(self.0@ =~= other.0@);
        true
    }
}

/// The view of an optional text.
pub open spec fn opt_text(o: Option<String>) -> Option<Seq<char>> {
    match o {
        Some(s) => Some(s@),
        None => None,
    }
}

pub fn clone_opt_text(o: &Option<String>) -> (r: Option<String>)
    ensures
        opt_text(r) == opt_text(*o),
{
    match o {
        Some(s) => Some(s.clone()),
        None => None,
    }
}

/// A trade between a buyer and a seller.
#[derive(Debug)]
pub struct Trade {
    pub coin: String,
    pub side: Side,
    pub px: String,
    pub sz: String,
    pub hash: String,
    pub time: u64,
    pub tid: u64,
    pub users: [UserAddress; 2],
}

/// One price level of an aggregated book: its price, total size and number
/// of orders.
#[derive(Debug)]
pub struct Level {
    pub px: String,
    pub sz: String,
    pub n: usize,
}

impl Level {
    pub fn new(px: String, sz: String, n: usize) -> (r: Level)
        ensures
            r.px == px,
            r.sz == sz,
            r.n == n,
    {
        Level { px, sz, n }
    }
}

/// An aggregated book of one coin at a time: bid levels, then ask levels.
#[derive(Debug)]
pub struct L2Book {
    pub coin: String,
    pub time: u64,
    pub levels: [Vec<Level>; 2],
}

impl L2Book {
    pub fn from_l2_snapshot(coin: String, snapshot: [Vec<Level>; 2], time: u64) -> (r: L2Book)
        ensures
            r.coin == coin,
            r.time == time,
            r.levels == snapshot,
    {
        L2Book { coin, time, levels: snapshot }
    }
}

/// Order-level book data for a client: a full snapshot, or the diffs of a
/// block.
#[derive(Debug)]
pub enum L4Book {
    Snapshot { coin: String, time: u64, height: u64, levels: [Vec<L4Order>; 2] },
    Updates(Vec<NodeDataOrderDiff>),
}

/// An order as written and read in text form.
#[derive(Debug)]
pub struct L4Order {
    pub user: Option<UserAddress>,
    pub coin: String,
    pub side: Side,
    pub limit_px: String,
    pub sz: String,
    pub oid: u64,
    pub timestamp: u64,
    pub trigger_condition: String,
    pub is_trigger: bool,
    pub trigger_px: String,
    pub is_position_tpsl: bool,
    pub reduce_only: bool,
    pub order_type: String,
    pub tif: Option<String>,
    pub cloid: Option<String>,
}

/// What a diff does to one order: creates it with a size, changes its size,
/// or removes it.
#[derive(Debug)]
pub enum OrderDiff {
    New { sz: String },
    Update { orig_sz: String, new_sz: String },
    Remove,
}

impl Clone for OrderDiff {
    fn clone(&self) -> (r: Self)
        ensures
            r == *self,
    {
        match self {
            OrderDiff::New { sz } => OrderDiff::New { sz: sz.clone() },
            OrderDiff::Update { orig_sz, new_sz } => OrderDiff::Update {
                orig_sz: orig_sz.clone(),
                new_sz: new_sz.clone(),
            },
            OrderDiff::Remove => OrderDiff::Remove,
        }
    }
}

/// One side of a trade as the node reports it.
#[derive(Debug)]
pub struct Fill {
    pub coin: String,
    pub px: String,
    pub sz: String,
    pub side: Side,
    pub time: u64,
    pub start_position: String,
    pub dir: String,
    pub closed_pnl: String,
    pub hash: String,
    pub oid: u64,
    pub crossed: bool,
    pub fee: String,
    pub tid: u64,
    pub fee_token: String,
    pub liquidation: Option<Liquidation>,
}

/// The liquidation a fill belongs to.
#[derive(Debug)]
pub struct Liquidation {
    pub liquidated_user: String,
    pub mark_px: String,
    pub method: String,
}

/// The first fill in `fills` whose side is `side`.
pub open spec fn fill_of_side(fills: Seq<(Side, NodeDataFill)>, side: Side) -> NodeDataFill {
    fills[choose|i: int| 0 <= i < fills.len() && fills[i].0 == side].1
}

pub open spec fn has_side(fills: Seq<(Side, NodeDataFill)>, side: Side) -> bool {
    exists|i: int| 0 <= i < fills.len() && fills[i].0 == side
}

/// No side occurs twice.
pub open spec fn sides_distinct(fills: Seq<(Side, NodeDataFill)>) -> bool {
    forall|i: int, j: int|
        0 <= i < fills.len() && 0 <= j < fills.len() && i != j ==> fills[i].0 != fills[j].0
}

impl Trade {
    /// Builds the trade from the fills of its two sides, keyed by side. The
    /// ask fill says whether the ask side took liquidity and gives price,
    /// size, hash and time; the users are the buyer, then the seller.
    pub fn from_fills(fills: Vec<(Side, NodeDataFill)>) -> (r: Trade)
        requires
            sides_distinct(fills@),
            has_side(fills@, Side::Ask),
            has_side(fills@, Side::Bid),
            fill_of_side(fills@, Side::Ask).1.coin@ == fill_of_side(fills@, Side::Bid).1.coin@,
            fill_of_side(fills@, Side::Ask).1.tid == fill_of_side(fills@, Side::Bid).1.tid,
        ensures
            ({
                let ask = fill_of_side(fills@, Side::Ask);
                let bid = fill_of_side(fills@, Side::Bid);
                &&& r.coin@ == ask.1.coin@
                &&& r.side == (if ask.1.crossed { Side::Ask } else { Side::Bid })
                &&& r.px@ == ask.1.px@
                &&& r.sz@ == ask.1.sz@
                &&& r.hash@ == ask.1.hash@
                &&& r.time == ask.1.time
                &&& r.tid == ask.1.tid
                &&& r.users[0].0@ == bid.0.0@
                &&& r.users[1].0@ == ask.0.0@
            }),
    {
        let mut fills = fills;
        let ghost orig = fills@;
        let mut ask_fill: Option<NodeDataFill> = None;
        let mut bid_fill: Option<NodeDataFill> = None;
        while fills.len() > 0
            invariant
                sides_distinct(orig),
                fills@.len() <= orig.len(),
                fills@ =~= orig.take(fills@.len() as int),
                match ask_fill {
                    Some(f) => has_side(orig, Side::Ask) && f == fill_of_side(orig, Side::Ask),
                    None => forall|j: int| fills@.len() <= j < orig.len() ==> orig[j].0 != Side::Ask,
                },
                match bid_fill {
                    Some(f) => has_side(orig, Side::Bid) && f == fill_of_side(orig, Side::Bid),
                    None => forall|j: int| fills@.len() <= j < orig.len() ==> orig[j].0 != Side::Bid,
                },
            decreases fills@.len(),
        {
            let ghost k = fills@.len() - 1;
            let (side, fill) = fills.pop().unwrap();
            proof {
                assert(orig[k] == (side, fill));
                let c = choose|i: int| 0 <= i < orig.len() && orig[i].0 == side;
                assert(orig[c].0 == orig[k].0);
                assert(c == k);
            }
            match side {
                Side::Ask => {
                    ask_fill = Some(fill);
                },
                Side::Bid => {
                    bid_fill = Some(fill);
                },
            }
        }
        let NodeDataFill(seller, ask) = ask_fill.unwrap();
        let NodeDataFill(buyer, bid) = bid_fill.unwrap();
        let side = if ask.crossed {
            Side::Ask
        } else {
            Side::Bid
        };
        Trade {
            coin: ask.coin,
            side,
            px: ask.px,
            sz: ask.sz,
            hash: ask.hash,
            time: ask.time,
            tid: ask.tid,
            users: [buyer, seller],
        }
    }
}

} // verus!
