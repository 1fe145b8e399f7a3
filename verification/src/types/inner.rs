//! Internal forms of orders, levels and diffs, with numbers parsed.

use vstd::prelude::*;
use vstd::std_specs::cmp::PartialEqSpec;
use crate::error::ServerError;
use crate::order_book::fixed::{format_decimal, parse_decimal_u64};
use crate::order_book::types::{Coin, Oid, Px, Side, Sz};
use crate::types::node_data::NodeDataOrderDiff;
use crate::types::{clone_opt_text, opt_text, L4Order, Level, OrderDiff, UserAddress};

verus! {

/// An order as the book keeps it, with price and size parsed.
#[derive(Debug)]
pub struct InnerL4Order {
    pub user: UserAddress,
    pub coin: Coin,
    pub side: Side,
    pub limit_px: Px,
    pub sz: Sz,
    pub oid: u64,
    pub timestamp: u64,
    pub trigger_condition: String,
    pub is_trigger: bool,
    pub trigger_px: String,
    pub is_position_tpsl: bool,
    pub reduce_only: bool,
    pub order_type: String,
    pub tif: Option<String>,
    pub cloid: Option<String>,
}

/// The mathematical value of an order: texts as character sequences.
pub struct OrderView {
    pub user: Seq<u8>,
    pub coin: Seq<char>,
    pub side: Side,
    pub limit_px: u64,
    pub sz: u64,
    pub oid: u64,
    pub timestamp: u64,
    pub trigger_condition: Seq<char>,
    pub is_trigger: bool,
    pub trigger_px: Seq<char>,
    pub is_position_tpsl: bool,
    pub reduce_only: bool,
    pub order_type: Seq<char>,
    pub tif: Option<Seq<char>>,
    pub cloid: Option<Seq<char>>,
}

impl View for InnerL4Order {
    type V = OrderView;

    open spec fn view(&self) -> OrderView {
        OrderView {
            user: self.user.0@,
            coin: self.coin@,
            side: self.side,
            limit_px: self.limit_px.0,
            sz: self.sz.0,
            oid: self.oid,
            timestamp: self.timestamp,
            trigger_condition: self.trigger_condition@,
            is_trigger: self.is_trigger,
            trigger_px: self.trigger_px@,
            is_position_tpsl: self.is_position_tpsl,
            reduce_only: self.reduce_only,
            order_type: self.order_type@,
            tif: opt_text(self.tif),
            cloid: opt_text(self.cloid),
        }
    }
}

impl Clone for InnerL4Order {
    fn clone(&self) -> (r: Self)
        ensures
            r@ == self@,
    {
        InnerL4Order {
            user: self.user,
            coin: self.coin.clone(),
            side: self.side,
            limit_px: self.limit_px,
            sz: self.sz,
            oid: self.oid,
            timestamp: self.timestamp,
            trigger_condition: self.trigger_condition.clone(),
            is_trigger: self.is_trigger,
            trigger_px: self.trigger_px.clone(),
            is_position_tpsl: self.is_position_tpsl,
            reduce_only: self.reduce_only,
            order_type: self.order_type.clone(),
            tif: clone_opt_text(&self.tif),
            cloid: clone_opt_text(&self.cloid),
        }
    }
}

/// Two orders count as equal when user, coin, side, price, size and id
/// agree; the fields that diffs do not carry are left out.
pub open spec fn same_order(a: OrderView, b: OrderView) -> bool {
    &&& a.user == b.user
    &&& a.coin == b.coin
    &&& a.side == b.side
    &&& a.limit_px == b.limit_px
    &&& a.sz == b.sz
    &&& a.oid == b.oid
}

/// Order equality is an equivalence relation.
pub proof fn lemma_same_order_equivalence(a: OrderView, b: OrderView, c: OrderView)
    ensures
        same_order(a, a),
        same_order(a, b) ==> same_order(b, a),
        same_order(a, b) && same_order(b, c) ==> same_order(a, c),
{
}

impl PartialEq for InnerL4Order {
    fn eq(&self, other: &Self) -> (r: bool) {
        self.user.same(&other.user) && self.coin.same(&other.coin) && self.side == other.side
            && self.limit_px.0 == other.limit_px.0 && self.sz.0 == other.sz.0 && self.oid
            == other.oid
    }
}

impl vstd::std_specs::cmp::PartialEqSpecImpl for InnerL4Order {
    open spec fn obeys_eq_spec() -> bool {
        true
    }

    open spec fn eq_spec(&self, other: &InnerL4Order) -> bool {
        same_order(self@, other@)
    }
}

impl Eq for InnerL4Order {

}

/// The internal order that a user and an order in text form give, or why
/// they give none.
pub open spec fn spec_order_from_l4(user: UserAddress, o: L4Order) -> Result<OrderView, ServerError> {
    match (parse_decimal_u64(o.limit_px@), parse_decimal_u64(o.sz@)) {
        (Some(px), Some(sz)) => Ok(
            OrderView {
                user: user.0@,
                coin: o.coin@,
                side: o.side,
                limit_px: px,
                sz: sz,
                oid: o.oid,
                timestamp: o.timestamp,
                trigger_condition: o.trigger_condition@,
                is_trigger: o.is_trigger,
                trigger_px: o.trigger_px@,
                is_position_tpsl: o.is_position_tpsl,
                reduce_only: o.reduce_only,
                order_type: o.order_type@,
                tif: opt_text(o.tif),
                cloid: opt_text(o.cloid),
            },
        ),
        _ => Err(ServerError::InvalidNumber),
    }
}

/// `l` is the text form of the order `o`, with its user.
pub open spec fn l4_order_describes(l: L4Order, o: OrderView) -> bool {
    &&& l.user matches Some(u) && u.0@ == o.user
    &&& l.coin@ == o.coin
    &&& l.side == o.side
    &&& l.limit_px@ == format_decimal(o.limit_px as nat)
    &&& l.sz@ == format_decimal(o.sz as nat)
    &&& l.oid == o.oid
    &&& l.timestamp == o.timestamp
    &&& l.trigger_condition@ == o.trigger_condition
    &&& l.is_trigger == o.is_trigger
    &&& l.trigger_px@ == o.trigger_px
    &&& l.is_position_tpsl == o.is_position_tpsl
    &&& l.reduce_only == o.reduce_only
    &&& l.order_type@ == o.order_type
    &&& opt_text(l.tif) == o.tif
    &&& opt_text(l.cloid) == o.cloid
}

/// The order that a diff creates, or why it creates none.
pub open spec fn spec_order_from_diff(d: NodeDataOrderDiff) -> Result<OrderView, ServerError> {
    match d.raw_book_diff {
        OrderDiff::New { sz } => match parse_decimal_u64(sz@) {
            None => Err(ServerError::InvalidNumber),
            Some(s) => match parse_decimal_u64(d.px@) {
                None => Err(ServerError::InvalidNumber),
                Some(p) => Ok(
                    OrderView {
                        user: d.user.0@,
                        coin: d.coin@,
                        side: d.side,
                        limit_px: p,
                        sz: s,
                        oid: d.oid,
                        timestamp: 0,
                        trigger_condition: "N/A"@,
                        is_trigger: false,
                        trigger_px: "0.0"@,
                        is_position_tpsl: false,
                        reduce_only: false,
                        order_type: "Limit"@,
                        tif: Some("Gtc"@),
                        cloid: None,
                    },
                ),
            },
        },
        _ => Err(ServerError::NotANewOrderDiff),
    }
}

impl InnerL4Order {
    pub fn oid(&self) -> (r: Oid)
        ensures
            r.0 == self.oid,
    {
        Oid::new(self.oid)
    }

    pub fn side(&self) -> (r: Side)
        ensures
            r == self.side,
    {
        self.side
    }

    pub fn limit_px(&self) -> (r: Px)
        ensures
            r == self.limit_px,
    {
        self.limit_px
    }

    pub fn sz(&self) -> (r: Sz)
        ensures
            r == self.sz,
    {
        self.sz
    }

    pub fn coin(&self) -> (r: Coin)
        ensures
            r@ == self.coin@,
    {
        self.coin.clone()
    }

    /// Lowers the order's size by `dec`; nothing else changes.
    pub fn decrement_sz(&mut self, dec: Sz)
        requires
            old(self).sz.0 >= dec.0,
        ensures
            final(self)@ == (OrderView { sz: (old(self).sz.0 - dec.0) as u64, ..old(self)@ }),
    {
        self.sz.decrement_sz(dec.value());
    }

    /// Sets the order's size; nothing else changes.
    pub fn modify_sz(&mut self, sz: Sz)
        ensures
            final(self)@ == (OrderView { sz: sz.0, ..old(self)@ }),
    {
        self.sz = sz;
    }

    /// Matches this order against a resting `maker_order`: both lose the
    /// smaller of their two sizes, which is returned.
    pub fn fill(&mut self, maker_order: &mut Self) -> (r: Sz)
        ensures
            r.0 == (if old(self).sz.0 <= old(maker_order).sz.0 {
                old(self).sz.0
            } else {
                old(maker_order).sz.0
            }),
            final(self)@ == (OrderView { sz: (old(self).sz.0 - r.0) as u64, ..old(self)@ }),
            final(maker_order)@ == (OrderView {
                sz: (old(maker_order).sz.0 - r.0) as u64,
                ..old(maker_order)@
            }),
            final(self).sz.0 == 0 || final(maker_order).sz.0 == 0,
    {
        let match_sz = if self.sz().value() <= maker_order.sz().value() {
            self.sz()
        } else {
            maker_order.sz()
        };
        self.decrement_sz(match_sz);
        maker_order.decrement_sz(match_sz);
        match_sz
    }

    /// Builds the internal order from a user and an order in text form:
    /// price and size are parsed (price first); the coin is kept by name.
    pub fn try_from(value: (UserAddress, L4Order)) -> (r: Result<InnerL4Order, ServerError>)
        ensures
            match spec_order_from_l4(value.0, value.1) {
                Ok(v) => r matches Ok(o) && o@ == v,
                Err(e) => r == Err::<InnerL4Order, ServerError>(e),
            },
    {
        let (user, o) = value;
        let L4Order {
            coin,
            side,
            limit_px,
            sz,
            oid,
            timestamp,
            trigger_condition,
            is_trigger,
            trigger_px,
            is_position_tpsl,
            reduce_only,
            order_type,
            tif,
            cloid,
            ..
        } = o;
        let limit_px = match Px::parse_from_str(limit_px.as_str()) {
            Ok(p) => p,
            Err(e) => return Err(e),
        };
        let sz = match Sz::parse_from_str(sz.as_str()) {
            Ok(s) => s,
            Err(e) => return Err(e),
        };
        Ok(InnerL4Order {
            user,
            coin: Coin::from_string(coin),
            side,
            limit_px,
            sz,
            oid,
            timestamp,
            trigger_condition,
            is_trigger,
            trigger_px,
            is_position_tpsl,
            reduce_only,
            order_type,
            tif,
            cloid,
        })
    }

    /// Builds a resting limit order from a diff that creates it: size from
    /// the diff, price from the diff's price; the fields that diffs do not
    /// carry get the defaults of a plain good-till-cancel limit order.
    pub fn try_from_diff(value: NodeDataOrderDiff) -> (r: Result<InnerL4Order, ServerError>)
        ensures
            match spec_order_from_diff(value) {
                Ok(v) => r matches Ok(o) && o@ == v,
                Err(e) => r == Err::<InnerL4Order, ServerError>(e),
            },
    {
        let sz = match value.diff() {
            OrderDiff::New { sz } => sz,
            _ => return Err(ServerError::NotANewOrderDiff),
        };
        let sz = match Sz::parse_from_str(sz.as_str()) {
            Ok(s) => s,
            Err(e) => return Err(e),
        };
        let limit_px = match Px::parse_from_str(value.px.as_str()) {
            Ok(p) => p,
            Err(e) => return Err(e),
        };
        let coin = value.coin();
        Ok(InnerL4Order {
            user: value.user,
            coin,
            side: value.side,
            limit_px,
            sz,
            oid: value.oid,
            timestamp: 0,
            trigger_condition: String::from_str("N/A"),
            is_trigger: false,
            trigger_px: String::from_str("0.0"),
            is_position_tpsl: false,
            reduce_only: false,
            order_type: String::from_str("Limit"),
            tif: Some(String::from_str("Gtc")),
            cloid: None,
        })
    }
}


impl L4Order {
    /// The text form of an internal order.
    pub fn from(value: InnerL4Order) -> (r: L4Order)
        ensures
            l4_order_describes(r, value@),
    {
        let limit_px = value.limit_px.to_str();
        let sz = value.sz.to_str();
        let InnerL4Order {
            user,
            coin,
            side,
            oid,
            timestamp,
            trigger_condition,
            is_trigger,
            trigger_px,
            is_position_tpsl,
            reduce_only,
            order_type,
            tif,
            cloid,
            ..
        } = value;
        L4Order {
            user: Some(user),
            coin: coin.value(),
            side,
            limit_px,
            sz,
            oid,
            timestamp,
            trigger_condition,
            is_trigger,
            trigger_px,
            is_position_tpsl,
            reduce_only,
            order_type,
            tif,
            cloid,
        }
    }
}

/// Reading back the text form of an order, with its user, gives the order
/// again.
pub proof fn lemma_l4_order_roundtrip(user: UserAddress, l: L4Order, o: OrderView)
    requires
        l4_order_describes(l, o),
        user.0@ == o.user,
    ensures
        spec_order_from_l4(user, l) == Ok::<OrderView, ServerError>(o),
{
    crate::order_book::fixed::lemma_parse_format_roundtrip(o.limit_px as nat);
    crate::order_book::fixed::lemma_parse_format_roundtrip(o.sz as nat);
}

/// A price level as the book computes it.
#[derive(Clone, Copy, Debug)]
pub struct InnerLevel {
    pub px: Px,
    pub sz: Sz,
    pub n: usize,
}

impl Level {
    /// The text form of a price level.
    pub fn from(value: InnerLevel) -> (r: Level)
        ensures
            r.px@ == format_decimal(value.px.0 as nat),
            r.sz@ == format_decimal(value.sz.0 as nat),
            r.n == value.n,
    {
        Level::new(value.px.to_str(), value.sz.to_str(), value.n)
    }
}

/// What a diff does to an order, with sizes parsed.
#[derive(Clone, Copy, Debug, PartialEq, Eq, Structural)]
pub enum InnerOrderDiff {
    New,
    Update { orig_sz: Sz, new_sz: Sz },
    Remove,
}

/// The parsed form of a diff, or why it has none.
pub open spec fn spec_inner_diff(d: OrderDiff) -> Result<InnerOrderDiff, ServerError> {
    match d {
        OrderDiff::New { .. } => Ok(InnerOrderDiff::New),
        OrderDiff::Update { orig_sz, new_sz } => match (
            parse_decimal_u64(orig_sz@),
            parse_decimal_u64(new_sz@),
        ) {
            (Some(o), Some(n)) => Ok(InnerOrderDiff::Update { orig_sz: Sz(o), new_sz: Sz(n) }),
            _ => Err(ServerError::InvalidNumber),
        },
        OrderDiff::Remove => Ok(InnerOrderDiff::Remove),
    }
}

impl InnerOrderDiff {
    /// Parses the sizes of a diff (the size before the change first).
    pub fn try_from(value: OrderDiff) -> (r: Result<InnerOrderDiff, ServerError>)
        ensures
            r == spec_inner_diff(value),
    {
        match value {
            OrderDiff::New { .. } => Ok(InnerOrderDiff::New),
            OrderDiff::Update { orig_sz, new_sz } => {
                let orig_sz = match Sz::parse_from_str(orig_sz.as_str()) {
                    Ok(s) => s,
                    Err(e) => return Err(e),
                };
                let new_sz = match Sz::parse_from_str(new_sz.as_str()) {
                    Ok(s) => s,
                    Err(e) => return Err(e),
                };
                Ok(InnerOrderDiff::Update { orig_sz, new_sz })
            },
            OrderDiff::Remove => Ok(InnerOrderDiff::Remove),
        }
    }
}


/// Two orders compare equal exactly when user, coin, side, limit price,
/// size and id agree; time, trigger data, flags, type, tif and client id do
/// not take part.
pub proof fn lemma_order_eq_fields(a: InnerL4Order, b: InnerL4Order)
    ensures
        a.eq_spec(&b) <==> (a.user.0@ == b.user.0@ && a.coin@ == b.coin@ && a.side == b.side
            && a.limit_px.0 == b.limit_px.0 && a.sz.0 == b.sz.0 && a.oid == b.oid),
        a.eq_spec(&b) ==> a.limit_px == b.limit_px && a.sz == b.sz,
        a.limit_px != b.limit_px ==> !a.eq_spec(&b),
{
}

/// Reading an order from its text form keeps every field that is not a
/// number exactly as the text gives it (trigger flag, trigger data, flags,
/// type, tif, client id, time, id, side, coin), takes the user from the
/// pair, and gives price and size as the values of their texts; it fails,
/// with `InvalidNumber`, exactly when one of those texts is no number.
pub proof fn lemma_order_from_text_fields(user: UserAddress, l: L4Order)
    ensures
        spec_order_from_l4(user, l) is Err <==> (parse_decimal_u64(l.limit_px@) is None
            || parse_decimal_u64(l.sz@) is None),
        spec_order_from_l4(user, l) is Err ==> spec_order_from_l4(user, l) == Err::<
            OrderView,
            ServerError,
        >(ServerError::InvalidNumber),
        spec_order_from_l4(user, l) matches Ok(v) ==> {
            &&& v.is_trigger == l.is_trigger
            &&& v.trigger_condition == l.trigger_condition@
            &&& v.trigger_px == l.trigger_px@
            &&& v.is_position_tpsl == l.is_position_tpsl
            &&& v.reduce_only == l.reduce_only
            &&& v.order_type == l.order_type@
            &&& v.tif == opt_text(l.tif)
            &&& v.cloid == opt_text(l.cloid)
            &&& v.timestamp == l.timestamp
            &&& v.oid == l.oid
            &&& v.side == l.side
            &&& v.coin == l.coin@
            &&& v.user == user.0@
            &&& Some(v.limit_px) == parse_decimal_u64(l.limit_px@)
            &&& Some(v.sz) == parse_decimal_u64(l.sz@)
        },
{
}

/// The text form of an order keeps every field that is not a number exactly
/// as the order has it, carries its user, and writes price and size in
/// their text forms.
pub proof fn lemma_order_to_text_fields(l: L4Order, o: OrderView)
    requires
        l4_order_describes(l, o),
    ensures
        l.is_trigger == o.is_trigger,
        l.trigger_condition@ == o.trigger_condition,
        l.trigger_px@ == o.trigger_px,
        l.is_position_tpsl == o.is_position_tpsl,
        l.reduce_only == o.reduce_only,
        l.order_type@ == o.order_type,
        opt_text(l.tif) == o.tif,
        opt_text(l.cloid) == o.cloid,
        l.timestamp == o.timestamp,
        l.oid == o.oid,
        l.side == o.side,
        l.coin@ == o.coin,
        l.user matches Some(u) && u.0@ == o.user,
        parse_decimal_u64(l.limit_px@) == Some(o.limit_px),
        parse_decimal_u64(l.sz@) == Some(o.sz),
{
    crate::order_book::fixed::lemma_parse_format_u64(o.limit_px);
    crate::order_book::fixed::lemma_parse_format_u64(o.sz);
}

/// An order built from a diff that creates it is a plain resting limit
/// order: not a trigger, good till cancel, with the diff's user, coin, side,
/// id, price and size.
pub proof fn lemma_order_from_diff_fields(d: NodeDataOrderDiff)
    ensures
        spec_order_from_diff(d) matches Ok(v) ==> {
            &&& !v.is_trigger
            &&& !v.reduce_only
            &&& !v.is_position_tpsl
            &&& v.order_type == "Limit"@
            &&& v.tif == Some("Gtc"@)
            &&& v.cloid is None
            &&& v.user == d.user.0@
            &&& v.coin == d.coin@
            &&& v.side == d.side
            &&& v.oid == d.oid
            &&& Some(v.limit_px) == parse_decimal_u64(d.px@)
            &&& d.raw_book_diff matches OrderDiff::New { sz } && Some(v.sz) == parse_decimal_u64(sz@)
        },
        !(d.raw_book_diff is New) ==> spec_order_from_diff(d) == Err::<OrderView, ServerError>(
            ServerError::NotANewOrderDiff,
        ),
{
}

} // verus!
