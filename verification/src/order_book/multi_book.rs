//! The books of all coins: for each coin its resting bids and asks, each
//! side kept in price-time priority.

use vstd::prelude::*;
use crate::order_book::types::{Coin, Oid, Side, Sz};
use crate::order_book::types::Px;
use crate::types::inner::{InnerL4Order, InnerLevel, OrderView};

verus! {

// ---------------------------------------------------------------------------
// The mathematical model of one side of a book
// ---------------------------------------------------------------------------

/// The views of a sequence of orders.
pub open spec fn views(s: Seq<InnerL4Order>) -> Seq<OrderView> {
    s.map_values(|x: InnerL4Order| x@)
}

/// On `side`, price `a` comes before or together with price `b`: bids from
/// the highest price down, asks from the lowest up.
pub open spec fn price_at_or_ahead(side: Side, a: u64, b: u64) -> bool {
    match side {
        Side::Bid => a >= b,
        Side::Ask => a <= b,
    }
}

/// The resting order `x` comes before a new order `o` of the same side:
/// its price is at least as good (earlier orders win ties).
pub open spec fn at_or_ahead(x: OrderView, o: OrderView) -> bool {
    price_at_or_ahead(o.side, x.limit_px, o.limit_px)
}

/// The orders of `s` are in price priority for `side`.
pub open spec fn side_sorted(s: Seq<OrderView>, side: Side) -> bool {
    forall|i: int, j: int|
        0 <= i < j < s.len() ==> price_at_or_ahead(side, #[trigger] s[i].limit_px, #[trigger] s[j].limit_px)
}

/// Every order of `s` is on `side` and for `coin`.
pub open spec fn side_members(s: Seq<OrderView>, side: Side, coin: Seq<char>) -> bool {
    forall|i: int| 0 <= i < s.len() ==> (#[trigger] s[i]).side == side && s[i].coin == coin
}

/// No order id occurs twice in `s`.
pub open spec fn oids_unique(s: Seq<OrderView>) -> bool {
    forall|i: int, j: int| 0 <= i < s.len() && 0 <= j < s.len() && i != j ==> (#[trigger] s[i]).oid != (#[trigger] s[j]).oid
}

/// No order id of `a` occurs in `b`.
pub open spec fn oids_disjoint(a: Seq<OrderView>, b: Seq<OrderView>) -> bool {
    forall|i: int, j: int| 0 <= i < a.len() && 0 <= j < b.len() ==> (#[trigger] a[i]).oid != (#[trigger] b[j]).oid
}

/// Where a new order `o` goes in `s`: behind every order from the back that
/// it does not come before, i.e. after all orders at or ahead of it.
pub open spec fn insert_pos(s: Seq<OrderView>, o: OrderView) -> int
    decreases s.len(),
{
    if s.len() == 0 {
        0
    } else if at_or_ahead(s.last(), o) {
        s.len() as int
    } else {
        insert_pos(s.drop_last(), o)
    }
}

/// `s` with `o` put into its place in price-time priority.
pub open spec fn insert_order(s: Seq<OrderView>, o: OrderView) -> Seq<OrderView> {
    s.insert(insert_pos(s, o), o)
}

/// The position of the order with id `oid` in `s` (the last one, should
/// there be several), or -1.
pub open spec fn oid_pos(s: Seq<OrderView>, oid: u64) -> int
    decreases s.len(),
{
    if s.len() == 0 {
        -1
    } else if s.last().oid == oid {
        s.len() - 1
    } else {
        oid_pos(s.drop_last(), oid)
    }
}

/// `s` without the order with id `oid`.
pub open spec fn remove_oid(s: Seq<OrderView>, oid: u64) -> Seq<OrderView> {
    let p = oid_pos(s, oid);
    if p >= 0 {
        s.remove(p)
    } else {
        s
    }
}

/// `s` with the size of the order with id `oid` set to `sz`.
pub open spec fn resize_oid(s: Seq<OrderView>, oid: u64, sz: u64) -> Seq<OrderView> {
    let p = oid_pos(s, oid);
    if p >= 0 {
        s.update(p, OrderView { sz: sz, ..s[p] })
    } else {
        s
    }
}

// ---------------------------------------------------------------------------
// Lemmas on one side
// ---------------------------------------------------------------------------

pub proof fn lemma_oid_pos(s: Seq<OrderView>, oid: u64)
    ensures
        -1 <= oid_pos(s, oid) < s.len(),
        oid_pos(s, oid) >= 0 ==> s[oid_pos(s, oid)].oid == oid,
        oid_pos(s, oid) == -1 ==> forall|i: int| 0 <= i < s.len() ==> (#[trigger] s[i]).oid != oid,
    decreases s.len(),
{
    if s.len() > 0 {
        lemma_oid_pos(s.drop_last(), oid);
        if s.last().oid != oid {
            assert forall|i: int| 0 <= i < s.len() && oid_pos(s, oid) == -1 implies (
            #[trigger] s[i]).oid != oid by {
                if i < s.len() - 1 {
                    assert(s[i] == s.drop_last()[i]);
                }
            }
        }
    }
}

pub proof fn lemma_insert_pos_bounds(s: Seq<OrderView>, o: OrderView)
    ensures
        0 <= insert_pos(s, o) <= s.len(),
    decreases s.len(),
{
    if s.len() > 0 {
        lemma_insert_pos_bounds(s.drop_last(), o);
    }
}

pub proof fn lemma_insert_pos(s: Seq<OrderView>, o: OrderView)
    requires
        side_sorted(s, o.side),
    ensures
        0 <= insert_pos(s, o) <= s.len(),
        forall|i: int| 0 <= i < insert_pos(s, o) ==> at_or_ahead(#[trigger] s[i], o),
        forall|i: int| insert_pos(s, o) <= i < s.len() ==> !at_or_ahead(#[trigger] s[i], o),
    decreases s.len(),
{
    if s.len() > 0 {
        let t = s.drop_last();
        assert(side_sorted(t, o.side)) by {
            assert forall|i: int, j: int| 0 <= i < j < t.len() implies price_at_or_ahead(
                o.side,
                #[trigger] t[i].limit_px,
                #[trigger] t[j].limit_px,
            ) by {
                assert(t[i] == s[i] && t[j] == s[j]);
            }
        }
        lemma_insert_pos(t, o);
        if at_or_ahead(s.last(), o) {
            assert forall|i: int| 0 <= i < s.len() implies at_or_ahead(#[trigger] s[i], o) by {
                if i < s.len() - 1 {
                    assert(price_at_or_ahead(o.side, s[i].limit_px, s[s.len() - 1].limit_px));
                }
            }
        } else {
            assert forall|i: int| 0 <= i < insert_pos(s, o) implies at_or_ahead(#[trigger] s[i], o) by {
                assert(s[i] == t[i]);
            }
            assert forall|i: int| insert_pos(s, o) <= i < s.len() implies !at_or_ahead(#[trigger] s[i], o) by {
                if i < s.len() - 1 {
                    assert(s[i] == t[i]);
                }
            }
        }
    }
}

pub proof fn lemma_insert_order(s: Seq<OrderView>, o: OrderView, coin: Seq<char>)
    requires
        side_sorted(s, o.side),
        side_members(s, o.side, coin),
        o.coin == coin,
        forall|i: int| 0 <= i < s.len() ==> (#[trigger] s[i]).oid != o.oid,
        oids_unique(s),
    ensures
        side_sorted(insert_order(s, o), o.side),
        side_members(insert_order(s, o), o.side, coin),
        oids_unique(insert_order(s, o)),
        insert_order(s, o).len() == s.len() + 1,
{
    lemma_insert_pos(s, o);
    let k = insert_pos(s, o);
    let t = insert_order(s, o);
    assert forall|i: int, j: int| 0 <= i < j < t.len() implies price_at_or_ahead(
        o.side,
        #[trigger] t[i].limit_px,
        #[trigger] t[j].limit_px,
    ) by {
        if j < k {
            assert(t[i] == s[i] && t[j] == s[j]);
        } else if j == k {
            assert(t[i] == s[i]);
            assert(at_or_ahead(s[i], o));
        } else if i < k {
            assert(t[i] == s[i] && t[j] == s[j - 1]);
            assert(at_or_ahead(s[i], o));
            assert(!at_or_ahead(s[j - 1], o));
        } else if i == k {
            assert(t[j] == s[j - 1]);
            assert(!at_or_ahead(s[j - 1], o));
        } else {
            assert(t[i] == s[i - 1] && t[j] == s[j - 1]);
        }
    }
    assert forall|i: int| 0 <= i < t.len() implies (#[trigger] t[i]).side == o.side && t[i].coin == coin by {
        if i < k {
            assert(t[i] == s[i]);
        } else if i > k {
            assert(t[i] == s[i - 1]);
        }
    }
    assert forall|i: int, j: int| 0 <= i < t.len() && 0 <= j < t.len() && i != j implies (
    #[trigger] t[i]).oid != (#[trigger] t[j]).oid by {
        let si = if i < k { i } else { i - 1 };
        let sj = if j < k { j } else { j - 1 };
        if i != k && j != k {
            assert(t[i] == s[si] && t[j] == s[sj]);
        } else if i == k {
            assert(t[j] == s[sj]);
        } else {
            assert(t[i] == s[si]);
        }
    }
}


pub proof fn lemma_remove_oid(s: Seq<OrderView>, oid: u64, side: Side, coin: Seq<char>)
    requires
        side_sorted(s, side),
        side_members(s, side, coin),
        oids_unique(s),
    ensures
        side_sorted(remove_oid(s, oid), side),
        side_members(remove_oid(s, oid), side, coin),
        oids_unique(remove_oid(s, oid)),
        forall|i: int| 0 <= i < remove_oid(s, oid).len() ==> (#[trigger] remove_oid(s, oid)[i]).oid != oid,
        forall|i: int| 0 <= i < remove_oid(s, oid).len() ==> s.contains(#[trigger] remove_oid(s, oid)[i]),
{
    lemma_oid_pos(s, oid);
    let p = oid_pos(s, oid);
    let t = remove_oid(s, oid);
    if p >= 0 {
        assert forall|i: int| 0 <= i < t.len() implies t[i] == s[if i < p { i } else { i + 1 }] by {}
        assert forall|i: int, j: int| 0 <= i < j < t.len() implies price_at_or_ahead(
            side,
            #[trigger] t[i].limit_px,
            #[trigger] t[j].limit_px,
        ) by {
            let si = if i < p { i } else { i + 1 };
            let sj = if j < p { j } else { j + 1 };
            assert(t[i] == s[si] && t[j] == s[sj]);
        }
        assert forall|i: int| 0 <= i < t.len() implies (#[trigger] t[i]).side == side && t[i].coin == coin by {
            let si = if i < p { i } else { i + 1 };
            assert(t[i] == s[si]);
        }
        assert forall|i: int, j: int| 0 <= i < t.len() && 0 <= j < t.len() && i != j implies (
        #[trigger] t[i]).oid != (#[trigger] t[j]).oid by {
            let si = if i < p { i } else { i + 1 };
            let sj = if j < p { j } else { j + 1 };
            assert(t[i] == s[si] && t[j] == s[sj]);
        }
        assert forall|i: int| 0 <= i < t.len() implies (#[trigger] t[i]).oid != oid by {
            let si = if i < p { i } else { i + 1 };
            assert(t[i] == s[si]);
            assert(si != p);
        }
        assert forall|i: int| 0 <= i < t.len() implies s.contains(#[trigger] t[i]) by {
            let si = if i < p { i } else { i + 1 };
            assert(t[i] == s[si]);
        }
    } else {
        assert forall|i: int| 0 <= i < t.len() implies s.contains(#[trigger] t[i]) by {
            assert(t[i] == s[i]);
        }
    }
}

pub proof fn lemma_resize_oid(s: Seq<OrderView>, oid: u64, sz: u64, side: Side, coin: Seq<char>)
    requires
        side_sorted(s, side),
        side_members(s, side, coin),
        oids_unique(s),
    ensures
        side_sorted(resize_oid(s, oid, sz), side),
        side_members(resize_oid(s, oid, sz), side, coin),
        oids_unique(resize_oid(s, oid, sz)),
        resize_oid(s, oid, sz).len() == s.len(),
        forall|i: int| 0 <= i < s.len() ==> (#[trigger] resize_oid(s, oid, sz)[i]).oid == s[i].oid,
{
    lemma_oid_pos(s, oid);
    let p = oid_pos(s, oid);
    let t = resize_oid(s, oid, sz);
    assert forall|i: int| 0 <= i < t.len() implies (#[trigger] t[i]).oid == s[i].oid && t[i].limit_px
        == s[i].limit_px && t[i].side == s[i].side && t[i].coin == s[i].coin by {}
    assert forall|i: int, j: int| 0 <= i < j < t.len() implies price_at_or_ahead(
        side,
        #[trigger] t[i].limit_px,
        #[trigger] t[j].limit_px,
    ) by {
        assert(t[i].limit_px == s[i].limit_px && t[j].limit_px == s[j].limit_px);
    }
    assert forall|i: int, j: int| 0 <= i < t.len() && 0 <= j < t.len() && i != j implies (
    #[trigger] t[i]).oid != (#[trigger] t[j]).oid by {
        assert(t[i].oid == s[i].oid && t[j].oid == s[j].oid);
    }
}

// ---------------------------------------------------------------------------
// The book of one coin
// ---------------------------------------------------------------------------

/// The mathematical value of one coin's book.
pub struct BookView {
    pub coin: Seq<char>,
    pub bids: Seq<OrderView>,
    pub asks: Seq<OrderView>,
}

/// A well-formed book: bids and asks in price-time priority, each order on
/// its side and for the book's coin, and no order id twice.
pub open spec fn book_wf(b: BookView) -> bool {
    &&& side_sorted(b.bids, Side::Bid)
    &&& side_sorted(b.asks, Side::Ask)
    &&& side_members(b.bids, Side::Bid, b.coin)
    &&& side_members(b.asks, Side::Ask, b.coin)
    &&& oids_unique(b.bids)
    &&& oids_unique(b.asks)
    &&& oids_disjoint(b.bids, b.asks)
}

pub open spec fn empty_book(coin: Seq<char>) -> BookView {
    BookView { coin, bids: Seq::empty(), asks: Seq::empty() }
}

/// The book without the order with id `oid`.
pub open spec fn book_cancel(b: BookView, oid: u64) -> BookView {
    BookView { coin: b.coin, bids: remove_oid(b.bids, oid), asks: remove_oid(b.asks, oid) }
}

/// The book with `o` resting in it: an order with the same id leaves first.
pub open spec fn book_add(b: BookView, o: OrderView) -> BookView {
    let c = book_cancel(b, o.oid);
    match o.side {
        Side::Bid => BookView { bids: insert_order(c.bids, o), ..c },
        Side::Ask => BookView { asks: insert_order(c.asks, o), ..c },
    }
}

/// The book with the size of the order with id `oid` set to `sz`.
pub open spec fn book_modify(b: BookView, oid: u64, sz: u64) -> BookView {
    if oid_pos(b.bids, oid) >= 0 {
        BookView { bids: resize_oid(b.bids, oid, sz), ..b }
    } else {
        BookView { asks: resize_oid(b.asks, oid, sz), ..b }
    }
}

pub proof fn lemma_book_cancel(b: BookView, oid: u64)
    requires
        book_wf(b),
    ensures
        book_wf(book_cancel(b, oid)),
        forall|i: int| 0 <= i < book_cancel(b, oid).bids.len() ==> (#[trigger] book_cancel(b, oid).bids[i]).oid != oid,
        forall|i: int| 0 <= i < book_cancel(b, oid).asks.len() ==> (#[trigger] book_cancel(b, oid).asks[i]).oid != oid,
{
    lemma_remove_oid(b.bids, oid, Side::Bid, b.coin);
    lemma_remove_oid(b.asks, oid, Side::Ask, b.coin);
    let c = book_cancel(b, oid);
    assert forall|i: int, j: int| 0 <= i < c.bids.len() && 0 <= j < c.asks.len() implies (
    #[trigger] c.bids[i]).oid != (#[trigger] c.asks[j]).oid by {
        assert(b.bids.contains(c.bids[i]));
        assert(b.asks.contains(c.asks[j]));
    }
}

pub proof fn lemma_book_add(b: BookView, o: OrderView)
    requires
        book_wf(b),
        o.coin == b.coin,
    ensures
        book_wf(book_add(b, o)),
        book_add(b, o).coin == b.coin,
{
    lemma_book_cancel(b, o.oid);
    let c = book_cancel(b, o.oid);
    let r = book_add(b, o);
    match o.side {
        Side::Bid => {
            lemma_insert_order(c.bids, o, b.coin);
            lemma_insert_pos(c.bids, o);
            let k = insert_pos(c.bids, o);
            assert forall|i: int, j: int| 0 <= i < r.bids.len() && 0 <= j < r.asks.len() implies (
            #[trigger] r.bids[i]).oid != (#[trigger] r.asks[j]).oid by {
                if i < k {
                    assert(r.bids[i] == c.bids[i]);
                } else if i > k {
                    assert(r.bids[i] == c.bids[i - 1]);
                }
            }
        },
        Side::Ask => {
            lemma_insert_order(c.asks, o, b.coin);
            lemma_insert_pos(c.asks, o);
            let k = insert_pos(c.asks, o);
            assert forall|i: int, j: int| 0 <= i < r.bids.len() && 0 <= j < r.asks.len() implies (
            #[trigger] r.bids[i]).oid != (#[trigger] r.asks[j]).oid by {
                if j < k {
                    assert(r.asks[j] == c.asks[j]);
                } else if j > k {
                    assert(r.asks[j] == c.asks[j - 1]);
                }
            }
        },
    }
}

pub proof fn lemma_book_modify(b: BookView, oid: u64, sz: u64)
    requires
        book_wf(b),
    ensures
        book_wf(book_modify(b, oid, sz)),
        book_modify(b, oid, sz).coin == b.coin,
{
    lemma_resize_oid(b.bids, oid, sz, Side::Bid, b.coin);
    lemma_resize_oid(b.asks, oid, sz, Side::Ask, b.coin);
    let r = book_modify(b, oid, sz);
    assert forall|i: int, j: int| 0 <= i < r.bids.len() && 0 <= j < r.asks.len() implies (
    #[trigger] r.bids[i]).oid != (#[trigger] r.asks[j]).oid by {
        assert(r.bids[i].oid == b.bids[i].oid);
        assert(r.asks[j].oid == b.asks[j].oid);
    }
}


/// The resting orders of one coin.
#[derive(Debug)]
pub struct CoinBook {
    pub coin: Coin,
    pub bids: Vec<InnerL4Order>,
    pub asks: Vec<InnerL4Order>,
}

impl View for CoinBook {
    type V = BookView;

    open spec fn view(&self) -> BookView {
        BookView { coin: self.coin@, bids: views(self.bids@), asks: views(self.asks@) }
    }
}

fn at_or_ahead_exec(x: &InnerL4Order, o: &InnerL4Order) -> (r: bool)
    ensures
        r == at_or_ahead(x@, o@),
{
    match o.side {
        Side::Bid => x.limit_px.0 >= o.limit_px.0,
        Side::Ask => x.limit_px.0 <= o.limit_px.0,
    }
}

fn find_insert_pos(v: &Vec<InnerL4Order>, o: &InnerL4Order) -> (r: usize)
    ensures
        r == insert_pos(views(v@), o@),
        r <= v@.len(),
{
    proof {
        lemma_insert_pos_bounds(views(v@), o@);
    }
    let mut k = v.len();
    proof {
        assert(views(v@).take(k as int) =~= views(v@));
    }
    while k > 0 && !at_or_ahead_exec(&v[k - 1], o)
        invariant
            k <= v@.len(),
            insert_pos(views(v@).take(k as int), o@) == insert_pos(views(v@), o@),
        decreases k,
    {
        proof {
            assert(views(v@).take(k as int).drop_last() =~= views(v@).take(k - 1));
        }
        k = k - 1;
    }
    proof {
        if k == 0 {
            assert(views(v@).take(0) =~= Seq::<OrderView>::empty());
        }
    }
    k
}

fn find_oid(v: &Vec<InnerL4Order>, oid: u64) -> (r: Option<usize>)
    ensures
        oid_pos(views(v@), oid) < 0 <==> r is None,
        r matches Some(p) ==> p < v@.len() && p as int == oid_pos(views(v@), oid),
{
    proof {
        lemma_oid_pos(views(v@), oid);
    }
    let mut k = v.len();
    proof {
        assert(views(v@).take(k as int) =~= views(v@));
    }
    while k > 0 && v[k - 1].oid != oid
        invariant
            k <= v@.len(),
            oid_pos(views(v@).take(k as int), oid) == oid_pos(views(v@), oid),
        decreases k,
    {
        proof {
            assert(views(v@).take(k as int).drop_last() =~= views(v@).take(k - 1));
        }
        k = k - 1;
    }
    if k == 0 {
        proof {
            assert(views(v@).take(0) =~= Seq::<OrderView>::empty());
        }
        None
    } else {
        Some(k - 1)
    }
}

fn remove_oid_exec(v: &mut Vec<InnerL4Order>, oid: u64)
    ensures
        views(final(v)@) == remove_oid(views(old(v)@), oid),
{
    match find_oid(v, oid) {
        Some(p) => {
            v.remove(p);
            proof {
                assert(views(v@) =~= views(old(v)@).remove(p as int));
            }
        },
        None => {},
    }
}

fn resize_oid_exec(v: &mut Vec<InnerL4Order>, oid: u64, sz: Sz) -> (found: bool)
    ensures
        views(final(v)@) == resize_oid(views(old(v)@), oid, sz.0),
        found == (oid_pos(views(old(v)@), oid) >= 0),
{
    match find_oid(v, oid) {
        Some(p) => {
            v[p].modify_sz(sz);
            proof {
                assert(views(v@) =~= views(old(v)@).update(
                    p as int,
                    OrderView { sz: sz.0, ..views(old(v)@)[p as int] },
                ));
            }
            true
        },
        None => false,
    }
}

impl CoinBook {
    pub fn new(coin: Coin) -> (r: CoinBook)
        ensures
            r@ == empty_book(coin@),
    {
        let r = CoinBook { coin, bids: Vec::new(), asks: Vec::new() };
        assert(r@.bids =~= Seq::<OrderView>::empty());
        assert(r@.asks =~= Seq::<OrderView>::empty());
        r
    }

    pub fn cancel(&mut self, oid: u64)
        ensures
            final(self)@ == book_cancel(old(self)@, oid),
    {
        remove_oid_exec(&mut self.bids, oid);
        remove_oid_exec(&mut self.asks, oid);
    }

    pub fn add(&mut self, o: InnerL4Order)
        ensures
            final(self)@ == book_add(old(self)@, o@),
    {
        self.cancel(o.oid);
        let ghost cb = self.bids@;
        let ghost ca = self.asks@;
        let ghost ov = o@;
        match o.side {
            Side::Bid => {
                let k = find_insert_pos(&self.bids, &o);
                self.bids.insert(k, o);
                proof {
                    assert(views(self.bids@) =~= views(cb).insert(k as int, ov));
                }
            },
            Side::Ask => {
                let k = find_insert_pos(&self.asks, &o);
                self.asks.insert(k, o);
                proof {
                    assert(views(self.asks@) =~= views(ca).insert(k as int, ov));
                }
            },
        }
    }

    pub fn modify(&mut self, oid: u64, sz: Sz)
        ensures
            final(self)@ == book_modify(old(self)@, oid, sz.0),
    {
        let found = resize_oid_exec(&mut self.bids, oid, sz);
        if !found {
            resize_oid_exec(&mut self.asks, oid, sz);
        }
    }
}


// ---------------------------------------------------------------------------
// The books of all coins
// ---------------------------------------------------------------------------

/// The position of the book of `coin` in `bs`, or -1.
pub open spec fn coin_pos(bs: Seq<BookView>, coin: Seq<char>) -> int
    decreases bs.len(),
{
    if bs.len() == 0 {
        -1
    } else if bs.last().coin == coin {
        bs.len() - 1
    } else {
        coin_pos(bs.drop_last(), coin)
    }
}

/// Every book is well formed and no coin has two books.
pub open spec fn books_wf(bs: Seq<BookView>) -> bool {
    &&& forall|i: int| 0 <= i < bs.len() ==> book_wf(#[trigger] bs[i])
    &&& forall|i: int, j: int|
        0 <= i < bs.len() && 0 <= j < bs.len() && i != j ==> (#[trigger] bs[i]).coin != (
        #[trigger] bs[j]).coin
}

/// The books with `o` resting in the book of its coin (a new, empty book
/// for a coin not seen before).
pub open spec fn books_add(bs: Seq<BookView>, o: OrderView) -> Seq<BookView> {
    let i = coin_pos(bs, o.coin);
    if i >= 0 {
        bs.update(i, book_add(bs[i], o))
    } else {
        bs.push(book_add(empty_book(o.coin), o))
    }
}

/// The books with the size of order `oid` of `coin` set to `sz`.
pub open spec fn books_modify(bs: Seq<BookView>, oid: u64, coin: Seq<char>, sz: u64) -> Seq<BookView> {
    let i = coin_pos(bs, coin);
    if i >= 0 {
        bs.update(i, book_modify(bs[i], oid, sz))
    } else {
        bs
    }
}

/// The books without order `oid` of `coin`.
pub open spec fn books_cancel(bs: Seq<BookView>, oid: u64, coin: Seq<char>) -> Seq<BookView> {
    let i = coin_pos(bs, coin);
    if i >= 0 {
        bs.update(i, book_cancel(bs[i], oid))
    } else {
        bs
    }
}

/// The books, with an empty book for `coin` when it has none.
pub open spec fn books_touch(bs: Seq<BookView>, coin: Seq<char>) -> Seq<BookView> {
    if coin_pos(bs, coin) >= 0 {
        bs
    } else {
        bs.push(empty_book(coin))
    }
}

pub proof fn lemma_coin_pos(bs: Seq<BookView>, coin: Seq<char>)
    ensures
        -1 <= coin_pos(bs, coin) < bs.len(),
        coin_pos(bs, coin) >= 0 ==> bs[coin_pos(bs, coin)].coin == coin,
        coin_pos(bs, coin) == -1 ==> forall|i: int| 0 <= i < bs.len() ==> (#[trigger] bs[i]).coin != coin,
    decreases bs.len(),
{
    if bs.len() > 0 {
        lemma_coin_pos(bs.drop_last(), coin);
        if bs.last().coin != coin {
            assert forall|i: int| 0 <= i < bs.len() && coin_pos(bs, coin) == -1 implies (
            #[trigger] bs[i]).coin != coin by {
                if i < bs.len() - 1 {
                    assert(bs[i] == bs.drop_last()[i]);
                }
            }
        }
    }
}

proof fn lemma_books_replace(bs: Seq<BookView>, i: int, b: BookView)
    requires
        books_wf(bs),
        0 <= i < bs.len(),
        book_wf(b),
        b.coin == bs[i].coin,
    ensures
        books_wf(bs.update(i, b)),
{
    let r = bs.update(i, b);
    assert forall|j: int| 0 <= j < r.len() implies book_wf(#[trigger] r[j]) by {
        if j != i {
            assert(r[j] == bs[j]);
        }
    }
    assert forall|j: int, k: int| 0 <= j < r.len() && 0 <= k < r.len() && j != k implies (
    #[trigger] r[j]).coin != (#[trigger] r[k]).coin by {
        assert(r[j].coin == bs[j].coin && r[k].coin == bs[k].coin);
    }
}

proof fn lemma_books_push(bs: Seq<BookView>, b: BookView)
    requires
        books_wf(bs),
        book_wf(b),
        coin_pos(bs, b.coin) == -1,
    ensures
        books_wf(bs.push(b)),
{
    lemma_coin_pos(bs, b.coin);
    let r = bs.push(b);
    assert forall|j: int| 0 <= j < r.len() implies book_wf(#[trigger] r[j]) by {
        if j < bs.len() {
            assert(r[j] == bs[j]);
        }
    }
    assert forall|j: int, k: int| 0 <= j < r.len() && 0 <= k < r.len() && j != k implies (
    #[trigger] r[j]).coin != (#[trigger] r[k]).coin by {
        if j < bs.len() {
            assert(r[j] == bs[j]);
        }
        if k < bs.len() {
            assert(r[k] == bs[k]);
        }
    }
}

/// Every operation on the books keeps them well formed.
pub proof fn lemma_books_ops_wf(bs: Seq<BookView>, o: OrderView, oid: u64, coin: Seq<char>, sz: u64)
    requires
        books_wf(bs),
    ensures
        books_wf(books_add(bs, o)),
        books_wf(books_modify(bs, oid, coin, sz)),
        books_wf(books_cancel(bs, oid, coin)),
        books_wf(books_touch(bs, coin)),
{
    lemma_coin_pos(bs, o.coin);
    lemma_coin_pos(bs, coin);
    let i = coin_pos(bs, o.coin);
    if i >= 0 {
        lemma_book_add(bs[i], o);
        lemma_books_replace(bs, i, book_add(bs[i], o));
    } else {
        lemma_book_add(empty_book(o.coin), o);
        lemma_books_push(bs, book_add(empty_book(o.coin), o));
    }
    let j = coin_pos(bs, coin);
    if j >= 0 {
        lemma_book_modify(bs[j], oid, sz);
        lemma_books_replace(bs, j, book_modify(bs[j], oid, sz));
        lemma_book_cancel(bs[j], oid);
        lemma_books_replace(bs, j, book_cancel(bs[j], oid));
    } else {
        lemma_books_push(bs, empty_book(coin));
    }
}

/// The views of a sequence of coin books.
pub open spec fn book_views(s: Seq<CoinBook>) -> Seq<BookView> {
    s.map_values(|b: CoinBook| b@)
}

fn find_coin(books: &Vec<CoinBook>, coin: &Coin) -> (r: Option<usize>)
    ensures
        coin_pos(book_views(books@), coin@) < 0 <==> r is None,
        r matches Some(i) ==> i < books@.len() && i as int == coin_pos(book_views(books@), coin@),
{
    let ghost bv = book_views(books@);
    proof {
        lemma_coin_pos(bv, coin@);
    }
    let mut k = books.len();
    proof {
        assert(bv.take(k as int) =~= bv);
    }
    while k > 0 && !books[k - 1].coin.same(coin)
        invariant
            k <= bv.len() == books@.len(),
            bv == book_views(books@),
            coin_pos(bv.take(k as int), coin@) == coin_pos(bv, coin@),
        decreases k,
    {
        proof {
            assert(bv.take(k as int).drop_last() =~= bv.take(k - 1));
        }
        k = k - 1;
    }
    if k == 0 {
        proof {
            assert(bv.take(0) =~= Seq::<BookView>::empty());
        }
        None
    } else {
        Some(k - 1)
    }
}

proof fn lemma_locate(bs: Seq<BookView>, i: int, coin: Seq<char>, oid: u64, p: int, on_bids: bool)
    requires
        books_wf(bs),
        0 <= i < bs.len(),
        bs[i].coin == coin,
        on_bids ==> 0 <= p < bs[i].bids.len() && bs[i].bids[p].oid == oid,
        !on_bids ==> 0 <= p < bs[i].asks.len() && bs[i].asks[p].oid == oid,
    ensures
        coin_pos(bs, coin) == i,
        on_bids ==> oid_pos(bs[i].bids, oid) == p && oid_pos(bs[i].asks, oid) == -1,
        !on_bids ==> oid_pos(bs[i].asks, oid) == p && oid_pos(bs[i].bids, oid) == -1,
{
    lemma_coin_pos(bs, coin);
    let b = bs[i];
    lemma_oid_pos(b.bids, oid);
    lemma_oid_pos(b.asks, oid);
    assert(book_wf(b));
    if coin_pos(bs, coin) != i {
        assert(bs[coin_pos(bs, coin)].coin == bs[i].coin);
    }
    if on_bids {
        if oid_pos(b.asks, oid) >= 0 {
            assert(b.asks[oid_pos(b.asks, oid)].oid == b.bids[p].oid);
        }
    } else {
        if oid_pos(b.bids, oid) >= 0 {
            assert(b.bids[oid_pos(b.bids, oid)].oid == b.asks[p].oid);
        }
    }
}

/// Cancelling an order that rests at position `p` of a side of its coin's
/// book deletes exactly that order: the side becomes the old side without
/// position `p` (one shorter, every other order kept in its order), the
/// other side and every other coin's book stay as they were.
pub proof fn lemma_cancel_removes_exactly_that_order(
    bs: Seq<BookView>,
    i: int,
    oid: u64,
    p: int,
    on_bids: bool,
)
    requires
        books_wf(bs),
        0 <= i < bs.len(),
        on_bids ==> 0 <= p < bs[i].bids.len() && bs[i].bids[p].oid == oid,
        !on_bids ==> 0 <= p < bs[i].asks.len() && bs[i].asks[p].oid == oid,
    ensures
        ({
            let r = books_cancel(bs, oid, bs[i].coin);
            &&& r.len() == bs.len()
            &&& forall|j: int| 0 <= j < bs.len() && j != i ==> r[j] == bs[j]
            &&& r[i].coin == bs[i].coin
            &&& on_bids ==> r[i].bids == bs[i].bids.remove(p) && r[i].asks == bs[i].asks
                && r[i].bids.len() == bs[i].bids.len() - 1
            &&& !on_bids ==> r[i].asks == bs[i].asks.remove(p) && r[i].bids == bs[i].bids
                && r[i].asks.len() == bs[i].asks.len() - 1
        }),
{
    lemma_locate(bs, i, bs[i].coin, oid, p, on_bids);
}

/// Setting the size of an order that rests at position `p` of a side of its
/// coin's book gives that order, and only it, the new size, wherever it
/// stands: price, id and everything else of it stay, the side keeps its
/// length and order, and the rest of the books stay as they were.
pub proof fn lemma_modify_sets_that_orders_size(
    bs: Seq<BookView>,
    i: int,
    oid: u64,
    p: int,
    on_bids: bool,
    sz: u64,
)
    requires
        books_wf(bs),
        0 <= i < bs.len(),
        on_bids ==> 0 <= p < bs[i].bids.len() && bs[i].bids[p].oid == oid,
        !on_bids ==> 0 <= p < bs[i].asks.len() && bs[i].asks[p].oid == oid,
    ensures
        ({
            let r = books_modify(bs, oid, bs[i].coin, sz);
            &&& r.len() == bs.len()
            &&& forall|j: int| 0 <= j < bs.len() && j != i ==> r[j] == bs[j]
            &&& r[i].coin == bs[i].coin
            &&& on_bids ==> r[i].asks == bs[i].asks && r[i].bids.len() == bs[i].bids.len()
                && r[i].bids[p].sz == sz && r[i].bids[p].oid == oid && r[i].bids[p].limit_px
                == bs[i].bids[p].limit_px && r[i].bids == bs[i].bids.update(
                p,
                OrderView { sz: sz, ..bs[i].bids[p] },
            )
            &&& !on_bids ==> r[i].bids == bs[i].bids && r[i].asks.len() == bs[i].asks.len()
                && r[i].asks[p].sz == sz && r[i].asks[p].oid == oid && r[i].asks[p].limit_px
                == bs[i].asks[p].limit_px && r[i].asks == bs[i].asks.update(
                p,
                OrderView { sz: sz, ..bs[i].asks[p] },
            )
        }),
{
    lemma_locate(bs, i, bs[i].coin, oid, p, on_bids);
}

/// The books of all coins.
#[derive(Debug)]
pub struct OrderBooks {
    books: Vec<CoinBook>,
}

impl View for OrderBooks {
    type V = Seq<BookView>;

    closed spec fn view(&self) -> Seq<BookView> {
        book_views(self.books@)
    }
}

impl OrderBooks {
    #[verifier::type_invariant]
    spec fn inv(self) -> bool {
        books_wf(self@)
    }

    /// The books are always well formed.
    pub fn check_wf(&self)
        ensures
            books_wf(self@),
    {
        proof {
            use_type_invariant(self);
        }
    }

    /// No books at all.
    pub fn new() -> (r: OrderBooks)
        ensures
            r@ == Seq::<BookView>::empty(),
            books_wf(r@),
    {
        let r = OrderBooks { books: Vec::new() };
        assert(r@ =~= Seq::<BookView>::empty());
        r
    }

    fn take_books(&mut self) -> (r: Vec<CoinBook>)
        ensures
            book_views(r@) == old(self)@,
            books_wf(book_views(r@)),
            final(self)@ == Seq::<BookView>::empty(),
    {
        proof {
            use_type_invariant(&*self);
        }
        let mut books: Vec<CoinBook> = Vec::new();
        proof {
            assert(book_views(books@) =~= Seq::<BookView>::empty());
        }
        std::mem::swap(&mut books, &mut self.books);
        books
    }

    /// Puts `o` into the book of its coin (see `books_add`).
    pub fn add_order(&mut self, o: InnerL4Order)
        ensures
            final(self)@ == books_add(old(self)@, o@),
            books_wf(final(self)@),
    {
        let mut books = self.take_books();
        let ghost bv = book_views(books@);
        proof {
            lemma_books_ops_wf(bv, o@, 0, Seq::empty(), 0);
            lemma_coin_pos(bv, o@.coin);
        }
        let ghost ov = o@;
        match find_coin(&books, &o.coin) {
            Some(i) => {
                books[i].add(o);
                assert(book_views(books@) =~= books_add(bv, ov));
            },
            None => {
                let mut b = CoinBook::new(o.coin.clone());
                b.add(o);
                books.push(b);
                assert(book_views(books@) =~= books_add(bv, ov));
            },
        }
        self.books = books;
    }

    /// Sets the size of order `oid` of `coin` (see `books_modify`).
    pub fn modify_sz(&mut self, oid: Oid, coin: Coin, sz: Sz)
        ensures
            final(self)@ == books_modify(old(self)@, oid.0, coin@, sz.0),
            books_wf(final(self)@),
    {
        let mut books = self.take_books();
        let ghost bv = book_views(books@);
        proof {
            lemma_books_ops_wf(bv, arbitrary(), oid.0, coin@, sz.0);
        }
        match find_coin(&books, &coin) {
            Some(i) => {
                books[i].modify(oid.0, sz);
                assert(book_views(books@) =~= books_modify(bv, oid.0, coin@, sz.0));
            },
            None => {},
        }
        self.books = books;
    }

    /// Removes order `oid` of `coin` (see `books_cancel`).
    pub fn cancel_order(&mut self, oid: Oid, coin: Coin)
        ensures
            final(self)@ == books_cancel(old(self)@, oid.0, coin@),
            books_wf(final(self)@),
    {
        let mut books = self.take_books();
        let ghost bv = book_views(books@);
        proof {
            lemma_books_ops_wf(bv, arbitrary(), oid.0, coin@, 0);
        }
        match find_coin(&books, &coin) {
            Some(i) => {
                books[i].cancel(oid.0);
                assert(book_views(books@) =~= books_cancel(bv, oid.0, coin@));
            },
            None => {},
        }
        self.books = books;
    }

    /// Gives `coin` an empty book when it has none (see `books_touch`).
    pub fn touch(&mut self, coin: &Coin)
        ensures
            final(self)@ == books_touch(old(self)@, coin@),
            books_wf(final(self)@),
    {
        let mut books = self.take_books();
        let ghost bv = book_views(books@);
        proof {
            lemma_books_ops_wf(bv, arbitrary(), 0, coin@, 0);
        }
        match find_coin(&books, coin) {
            Some(_) => {},
            None => {
                books.push(CoinBook::new(coin.clone()));
                assert(book_views(books@) =~= books_touch(bv, coin@));
            },
        }
        self.books = books;
    }
}


// ---------------------------------------------------------------------------
// Snapshots
// ---------------------------------------------------------------------------

/// The books after loading the orders `os` one by one, skipping trigger
/// orders when `ignore_triggers` holds.
pub open spec fn load_orders(bs: Seq<BookView>, os: Seq<OrderView>, ignore_triggers: bool) -> Seq<
    BookView,
>
    decreases os.len(),
{
    if os.len() == 0 {
        bs
    } else {
        let prev = load_orders(bs, os.drop_last(), ignore_triggers);
        let o = os.last();
        if ignore_triggers && o.is_trigger {
            prev
        } else {
            books_add(prev, o)
        }
    }
}

/// The books rebuilt from a snapshot: coin by coin, the coin gets a book,
/// then its bids and then its asks are loaded in order.
pub open spec fn load_snapshots(ss: Seq<BookView>, ignore_triggers: bool) -> Seq<BookView>
    decreases ss.len(),
{
    if ss.len() == 0 {
        Seq::empty()
    } else {
        let prev = load_snapshots(ss.drop_last(), ignore_triggers);
        let s = ss.last();
        load_orders(
            load_orders(books_touch(prev, s.coin), s.bids, ignore_triggers),
            s.asks,
            ignore_triggers,
        )
    }
}

/// No order of `s` is a trigger order that loading would skip.
pub open spec fn none_skipped(s: Seq<OrderView>, ignore_triggers: bool) -> bool {
    forall|i: int| 0 <= i < s.len() ==> !(ignore_triggers && (#[trigger] s[i]).is_trigger)
}

proof fn lemma_oid_absent(s: Seq<OrderView>, j: int, oid: u64)
    requires
        0 <= j <= s.len(),
        forall|i: int| 0 <= i < j ==> (#[trigger] s[i]).oid != oid,
    ensures
        remove_oid(s.take(j), oid) == s.take(j),
{
    lemma_oid_pos(s.take(j), oid);
    if oid_pos(s.take(j), oid) >= 0 {
        assert(s.take(j)[oid_pos(s.take(j), oid)] == s[oid_pos(s.take(j), oid)]);
    }
}

proof fn lemma_insert_at_end(s: Seq<OrderView>, j: int, side: Side)
    requires
        0 <= j < s.len(),
        side_sorted(s, side),
        s[j].side == side,
    ensures
        insert_order(s.take(j), s[j]) == s.take(j + 1),
{
    let t = s.take(j);
    if j > 0 {
        assert(t.last() == s[j - 1]);
        assert(price_at_or_ahead(side, s[j - 1].limit_px, s[j].limit_px));
    }
    assert(insert_pos(t, s[j]) == j);
    assert(t.insert(j, s[j]) =~= s.take(j + 1));
}

proof fn lemma_load_bids(p: Seq<BookView>, b: BookView, j: int, ignore_triggers: bool)
    requires
        book_wf(b),
        0 <= j <= b.bids.len(),
        none_skipped(b.bids, ignore_triggers),
    ensures
        load_orders(p.push(empty_book(b.coin)), b.bids.take(j), ignore_triggers) == p.push(
            BookView { coin: b.coin, bids: b.bids.take(j), asks: Seq::empty() },
        ),
    decreases j,
{
    let s = b.bids;
    if j == 0 {
        assert(s.take(0) =~= Seq::<OrderView>::empty());
        assert(empty_book(b.coin) == BookView { coin: b.coin, bids: s.take(0), asks: Seq::empty() });
    } else {
        lemma_load_bids(p, b, j - 1, ignore_triggers);
        let k = j - 1;
        let o = s[k];
        assert(s.take(j).drop_last() =~= s.take(k));
        assert(s.take(j).last() == o);
        assert(!(ignore_triggers && o.is_trigger));
        let prev = p.push(BookView { coin: b.coin, bids: s.take(k), asks: Seq::empty() });
        let bk = BookView { coin: b.coin, bids: s.take(k), asks: Seq::<OrderView>::empty() };
        assert(o.coin == b.coin && o.side == Side::Bid);
        assert(coin_pos(prev, o.coin) == p.len());
        assert forall|i: int| 0 <= i < k implies (#[trigger] s[i]).oid != o.oid by {}
        lemma_oid_absent(s, k, o.oid);
        assert(remove_oid(Seq::<OrderView>::empty(), o.oid) == Seq::<OrderView>::empty());
        assert(book_cancel(bk, o.oid) == bk);
        lemma_insert_at_end(s, k, Side::Bid);
        assert(book_add(bk, o) == BookView { coin: b.coin, bids: s.take(j), asks: Seq::<OrderView>::empty() });
        assert(books_add(prev, o) =~= p.push(
            BookView { coin: b.coin, bids: s.take(j), asks: Seq::empty() },
        ));
    }
}

proof fn lemma_load_asks(p: Seq<BookView>, b: BookView, j: int, ignore_triggers: bool)
    requires
        book_wf(b),
        0 <= j <= b.asks.len(),
        none_skipped(b.asks, ignore_triggers),
    ensures
        load_orders(
            p.push(BookView { coin: b.coin, bids: b.bids, asks: Seq::empty() }),
            b.asks.take(j),
            ignore_triggers,
        ) == p.push(BookView { coin: b.coin, bids: b.bids, asks: b.asks.take(j) }),
    decreases j,
{
    let s = b.asks;
    if j == 0 {
        assert(s.take(0) =~= Seq::<OrderView>::empty());
    } else {
        lemma_load_asks(p, b, j - 1, ignore_triggers);
        let k = j - 1;
        let o = s[k];
        assert(s.take(j).drop_last() =~= s.take(k));
        assert(s.take(j).last() == o);
        assert(!(ignore_triggers && o.is_trigger));
        let bk = BookView { coin: b.coin, bids: b.bids, asks: s.take(k) };
        let prev = p.push(bk);
        assert(o.coin == b.coin && o.side == Side::Ask);
        assert(coin_pos(prev, o.coin) == p.len());
        assert forall|i: int| 0 <= i < k implies (#[trigger] s[i]).oid != o.oid by {}
        lemma_oid_absent(s, k, o.oid);
        assert forall|i: int| 0 <= i < b.bids.len() implies (#[trigger] b.bids[i]).oid != o.oid by {}
        lemma_oid_absent(b.bids, b.bids.len() as int, o.oid);
        assert(b.bids.take(b.bids.len() as int) =~= b.bids);
        assert(book_cancel(bk, o.oid) == bk);
        lemma_insert_at_end(s, k, Side::Ask);
        assert(book_add(bk, o) == BookView { coin: b.coin, bids: b.bids, asks: s.take(j) });
        assert(books_add(prev, o) =~= p.push(BookView { coin: b.coin, bids: b.bids, asks: s.take(j) }));
    }
}

/// Loading a copy of well-formed books gives the same books again, unless
/// loading skips some of their trigger orders.
pub proof fn lemma_load_snapshots_roundtrip(bs: Seq<BookView>, ignore_triggers: bool)
    requires
        books_wf(bs),
        forall|i: int| 0 <= i < bs.len() ==> none_skipped((#[trigger] bs[i]).bids, ignore_triggers)
            && none_skipped(bs[i].asks, ignore_triggers),
    ensures
        load_snapshots(bs, ignore_triggers) == bs,
    decreases bs.len(),
{
    if bs.len() > 0 {
        let p = bs.drop_last();
        let b = bs.last();
        assert(books_wf(p)) by {
            assert forall|i: int| 0 <= i < p.len() implies book_wf(#[trigger] p[i]) by {
                assert(p[i] == bs[i]);
            }
            assert forall|i: int, j: int| 0 <= i < p.len() && 0 <= j < p.len() && i != j implies (
            #[trigger] p[i]).coin != (#[trigger] p[j]).coin by {
                assert(p[i] == bs[i] && p[j] == bs[j]);
            }
        }
        assert forall|i: int| 0 <= i < p.len() implies none_skipped((#[trigger] p[i]).bids, ignore_triggers)
            && none_skipped(p[i].asks, ignore_triggers) by {
            assert(p[i] == bs[i]);
        }
        lemma_load_snapshots_roundtrip(p, ignore_triggers);
        lemma_coin_pos(p, b.coin);
        if coin_pos(p, b.coin) >= 0 {
            let q = coin_pos(p, b.coin);
            assert(p[q] == bs[q]);
            assert(bs[q].coin != bs[bs.len() - 1].coin);
        }
        assert(books_touch(p, b.coin) == p.push(empty_book(b.coin)));
        assert(book_wf(bs[bs.len() - 1]));
        lemma_load_bids(p, b, b.bids.len() as int, ignore_triggers);
        assert(b.bids.take(b.bids.len() as int) =~= b.bids);
        lemma_load_asks(p, b, b.asks.len() as int, ignore_triggers);
        assert(b.asks.take(b.asks.len() as int) =~= b.asks);
        assert(p.push(BookView { coin: b.coin, bids: b.bids, asks: b.asks }) =~= bs);
    }
}

/// The resting orders of all coins, coin by coin.
#[derive(Debug)]
pub struct Snapshots(pub Vec<CoinBook>);

impl View for Snapshots {
    type V = Seq<BookView>;

    open spec fn view(&self) -> Seq<BookView> {
        book_views(self.0@)
    }
}

fn clone_orders(v: &Vec<InnerL4Order>) -> (r: Vec<InnerL4Order>)
    ensures
        views(r@) == views(v@),
{
    let mut r: Vec<InnerL4Order> = Vec::new();
    let mut i: usize = 0;
    while i < v.len()
        invariant
            i <= v@.len(),
            r@.len() == i,
            views(r@) =~= views(v@).take(i as int),
        decreases v@.len() - i,
    {
        let ghost prev = r@;
        r.push(v[i].clone());
        proof {
            assert forall|k: int| 0 <= k < i + 1 implies #[trigger] views(r@)[k] == views(v@).take(
                i + 1,
            )[k] by {
                if k < i {
                    assert(r@[k] == prev[k]);
                    assert(views(prev)[k] == views(v@).take(i as int)[k]);
                }
            }
            assert(views(r@) =~= views(v@).take(i + 1));
        }
        i = i + 1;
    }
    assert(views(v@).take(v@.len() as int) =~= views(v@));
    r
}

fn load_side(
    books: &mut OrderBooks,
    os: &Vec<InnerL4Order>,
    ignore_triggers: bool,
)
    ensures
        final(books)@ == load_orders(old(books)@, views(os@), ignore_triggers),
        books_wf(final(books)@),
{
    books.check_wf();
    let ghost start = books@;
    let mut j: usize = 0;
    proof {
        assert(views(os@).take(0) =~= Seq::<OrderView>::empty());
    }
    while j < os.len()
        invariant
            j <= os@.len(),
            books@ == load_orders(start, views(os@).take(j as int), ignore_triggers),
            books_wf(books@),
        decreases os@.len() - j,
    {
        let o = &os[j];
        proof {
            assert(views(os@).take(j + 1).drop_last() =~= views(os@).take(j as int));
        }
        if !(ignore_triggers && o.is_trigger) {
            books.add_order(o.clone());
        }
        j = j + 1;
    }
    proof {
        assert(views(os@).take(os@.len() as int) =~= views(os@));
    }
}

/// The mathematical value of one coin's aggregated book.
pub struct L2View {
    pub coin: Seq<char>,
    pub bids: Seq<InnerLevel>,
    pub asks: Seq<InnerLevel>,
}

/// The price levels of one side: runs of orders at the same price become
/// one level with their total size (capped at the largest `u64`) and their
/// count.
pub open spec fn aggregate(s: Seq<OrderView>) -> Seq<InnerLevel>
    decreases s.len(),
{
    if s.len() == 0 {
        Seq::empty()
    } else {
        let a = aggregate(s.drop_last());
        let o = s.last();
        if a.len() > 0 && a.last().px.0 == o.limit_px {
            let l = a.last();
            let total = if l.sz.0 + o.sz > u64::MAX {
                u64::MAX
            } else {
                (l.sz.0 + o.sz) as u64
            };
            a.update(a.len() - 1, InnerLevel { px: l.px, sz: Sz(total), n: (l.n + 1) as usize })
        } else {
            a.push(InnerLevel { px: Px(o.limit_px), sz: Sz(o.sz), n: 1 })
        }
    }
}

pub open spec fn l2_of_book(b: BookView) -> L2View {
    L2View { coin: b.coin, bids: aggregate(b.bids), asks: aggregate(b.asks) }
}

/// The aggregated book of every coin.
pub open spec fn l2_of_books(bs: Seq<BookView>) -> Seq<L2View> {
    bs.map_values(|b: BookView| l2_of_book(b))
}

/// The coins of the books, in order.
pub open spec fn book_coins(bs: Seq<BookView>) -> Seq<Seq<char>> {
    bs.map_values(|b: BookView| b.coin)
}

pub open spec fn coin_views(cs: Seq<Coin>) -> Seq<Seq<char>> {
    cs.map_values(|c: Coin| c@)
}

proof fn lemma_aggregate_counts(s: Seq<OrderView>)
    requires
        s.len() <= usize::MAX,
    ensures
        aggregate(s).len() <= s.len(),
        forall|i: int| 0 <= i < aggregate(s).len() ==> 1 <= (#[trigger] aggregate(s)[i]).n <= s.len(),
    decreases s.len(),
{
    if s.len() > 0 {
        let t = s.drop_last();
        lemma_aggregate_counts(t);
        let a = aggregate(t);
        let r = aggregate(s);
        if a.len() > 0 && a.last().px.0 == s.last().limit_px {
            assert forall|i: int| 0 <= i < r.len() implies 1 <= (#[trigger] r[i]).n <= s.len() by {
                if i < a.len() - 1 {
                    assert(r[i] == a[i]);
                } else {
                    assert(a[a.len() - 1].n <= t.len());
                }
            }
        } else {
            assert forall|i: int| 0 <= i < r.len() implies 1 <= (#[trigger] r[i]).n <= s.len() by {
                if i < a.len() {
                    assert(r[i] == a[i]);
                }
            }
        }
    }
}

/// Total number of orders over `levels`.
pub open spec fn level_count(levels: Seq<InnerLevel>) -> int
    decreases levels.len(),
{
    if levels.len() == 0 {
        0
    } else {
        level_count(levels.drop_last()) + levels.last().n
    }
}

/// On `side`, price `a` comes strictly before price `b`.
pub open spec fn price_ahead(side: Side, a: u64, b: u64) -> bool {
    match side {
        Side::Bid => a > b,
        Side::Ask => a < b,
    }
}

/// The levels of a side in price priority have strictly ordered prices, the
/// last level has the price of the last order, and the levels count every
/// order once.
pub proof fn lemma_aggregate_levels(s: Seq<OrderView>, side: Side)
    requires
        side_sorted(s, side),
        s.len() <= usize::MAX,
    ensures
        forall|i: int, j: int|
            0 <= i < j < aggregate(s).len() ==> price_ahead(
                side,
                #[trigger] aggregate(s)[i].px.0,
                #[trigger] aggregate(s)[j].px.0,
            ),
        s.len() > 0 ==> aggregate(s).len() > 0 && aggregate(s).last().px.0 == s.last().limit_px,
        level_count(aggregate(s)) == s.len(),
    decreases s.len(),
{
    if s.len() > 0 {
        let t = s.drop_last();
        assert(side_sorted(t, side)) by {
            assert forall|i: int, j: int| 0 <= i < j < t.len() implies price_at_or_ahead(
                side,
                #[trigger] t[i].limit_px,
                #[trigger] t[j].limit_px,
            ) by {
                assert(t[i] == s[i] && t[j] == s[j]);
            }
        }
        lemma_aggregate_levels(t, side);
        lemma_aggregate_counts(t);
        let a = aggregate(t);
        let r = aggregate(s);
        let o = s.last();
        if a.len() > 0 && a.last().px.0 == o.limit_px {
            assert(r.drop_last() =~= a.drop_last());
            assert(level_count(a) == level_count(a.drop_last()) + a.last().n);
            assert forall|i: int, j: int| 0 <= i < j < r.len() implies price_ahead(
                side,
                #[trigger] r[i].px.0,
                #[trigger] r[j].px.0,
            ) by {
                assert(r[i].px == a[i].px && r[j].px == a[j].px);
            }
        } else {
            assert(r.drop_last() =~= a);
            if t.len() > 0 {
                assert(price_at_or_ahead(side, s[t.len() - 1].limit_px, s[s.len() - 1].limit_px));
            }
            assert forall|i: int, j: int| 0 <= i < j < r.len() implies price_ahead(
                side,
                #[trigger] r[i].px.0,
                #[trigger] r[j].px.0,
            ) by {
                if j < a.len() {
                    assert(r[i] == a[i] && r[j] == a[j]);
                } else {
                    assert(r[i] == a[i]);
                    if i < a.len() - 1 {
                        assert(price_ahead(side, a[i].px.0, a[a.len() - 1].px.0));
                    }
                }
            }
        }
    }
}

/// Total size of the orders of `s` at price `px`.
pub open spec fn size_at_price(s: Seq<OrderView>, px: u64) -> nat
    decreases s.len(),
{
    if s.len() == 0 {
        0
    } else {
        size_at_price(s.drop_last(), px) + if s.last().limit_px == px {
            s.last().sz as nat
        } else {
            0
        }
    }
}

/// Number of the orders of `s` at price `px`.
pub open spec fn count_at_price(s: Seq<OrderView>, px: u64) -> nat
    decreases s.len(),
{
    if s.len() == 0 {
        0
    } else {
        count_at_price(s.drop_last(), px) + if s.last().limit_px == px {
            1nat
        } else {
            0
        }
    }
}

proof fn lemma_no_order_at_price(s: Seq<OrderView>, px: u64)
    requires
        forall|i: int| 0 <= i < s.len() ==> (#[trigger] s[i]).limit_px != px,
    ensures
        size_at_price(s, px) == 0,
        count_at_price(s, px) == 0,
    decreases s.len(),
{
    if s.len() > 0 {
        let t = s.drop_last();
        assert forall|i: int| 0 <= i < t.len() implies (#[trigger] t[i]).limit_px != px by {
            assert(t[i] == s[i]);
        }
        lemma_no_order_at_price(t, px);
        assert(s[s.len() - 1].limit_px != px);
    }
}

/// The levels of a side in price priority: every resting price has a level,
/// and each level holds the total size (capped at the largest `u64`) and
/// the number of all orders of the side at its price.
pub proof fn lemma_aggregate_totals(s: Seq<OrderView>, side: Side)
    requires
        side_sorted(s, side),
        s.len() <= usize::MAX,
    ensures
        forall|k: int|
            0 <= k < aggregate(s).len() ==> {
                let l = #[trigger] aggregate(s)[k];
                &&& l.sz.0 == (if size_at_price(s, l.px.0) > u64::MAX {
                    u64::MAX as nat
                } else {
                    size_at_price(s, l.px.0)
                })
                &&& l.n == count_at_price(s, l.px.0)
            },
        forall|j: int|
            0 <= j < s.len() ==> exists|k: int|
                0 <= k < aggregate(s).len() && (#[trigger] aggregate(s)[k]).px.0 == (
                #[trigger] s[j]).limit_px,
    decreases s.len(),
{
    if s.len() > 0 {
        let t = s.drop_last();
        assert(side_sorted(t, side)) by {
            assert forall|i: int, j: int| 0 <= i < j < t.len() implies price_at_or_ahead(
                side,
                #[trigger] t[i].limit_px,
                #[trigger] t[j].limit_px,
            ) by {
                assert(t[i] == s[i] && t[j] == s[j]);
            }
        }
        lemma_aggregate_totals(t, side);
        lemma_aggregate_levels(t, side);
        lemma_aggregate_levels(s, side);
        let a = aggregate(t);
        let r = aggregate(s);
        let o = s.last();
        if a.len() > 0 && a.last().px.0 == o.limit_px {
            assert forall|k: int| 0 <= k < r.len() implies {
                let l = #[trigger] r[k];
                &&& l.sz.0 == (if size_at_price(s, l.px.0) > u64::MAX {
                    u64::MAX as nat
                } else {
                    size_at_price(s, l.px.0)
                })
                &&& l.n == count_at_price(s, l.px.0)
            } by {
                let px = r[k].px.0;
                assert(size_at_price(s, px) == size_at_price(t, px) + if o.limit_px == px {
                    o.sz as nat
                } else {
                    0
                });
                assert(count_at_price(s, px) == count_at_price(t, px) + if o.limit_px == px {
                    1nat
                } else {
                    0
                });
                let la = aggregate(t)[k];
                if k < a.len() - 1 {
                    assert(r[k] == a[k]);
                    assert(price_ahead(side, a[k].px.0, a[a.len() - 1].px.0));
                    assert(a[k].px.0 != o.limit_px);
                } else {
                    lemma_aggregate_counts(t);
                    assert(la.n <= t.len());
                    assert(r[k].px == a[k].px);
                    assert(px == o.limit_px);
                }
            }
            assert forall|j: int| 0 <= j < s.len() implies exists|k: int|
                0 <= k < r.len() && (#[trigger] r[k]).px.0 == (#[trigger] s[j]).limit_px by {
                if j < t.len() {
                    assert(t[j] == s[j]);
                    let k = choose|k: int| 0 <= k < a.len() && (#[trigger] a[k]).px.0 == t[j].limit_px;
                    assert(r[k].px == a[k].px);
                } else {
                    assert(r[a.len() - 1].px.0 == s[j].limit_px);
                }
            }
        } else {
            // `o` starts a new level: no earlier order has its price
            if t.len() > 0 {
                assert(price_at_or_ahead(side, s[t.len() - 1].limit_px, o.limit_px));
                assert(a.last().px.0 == t.last().limit_px);
                assert forall|i: int| 0 <= i < t.len() implies (#[trigger] t[i]).limit_px != o.limit_px by {
                    assert(t[i] == s[i]);
                    if i < t.len() - 1 {
                        assert(price_at_or_ahead(side, s[i].limit_px, s[t.len() - 1].limit_px));
                    }
                }
            }
            lemma_no_order_at_price(t, o.limit_px);
            assert forall|k: int| 0 <= k < r.len() implies {
                let l = #[trigger] r[k];
                &&& l.sz.0 == (if size_at_price(s, l.px.0) > u64::MAX {
                    u64::MAX as nat
                } else {
                    size_at_price(s, l.px.0)
                })
                &&& l.n == count_at_price(s, l.px.0)
            } by {
                let px = r[k].px.0;
                assert(size_at_price(s, px) == size_at_price(t, px) + if o.limit_px == px {
                    o.sz as nat
                } else {
                    0
                });
                assert(count_at_price(s, px) == count_at_price(t, px) + if o.limit_px == px {
                    1nat
                } else {
                    0
                });
                if k < a.len() {
                    let la = aggregate(t)[k];
                    assert(r[k] == a[k]);
                    assert(price_ahead(side, r[k].px.0, r[r.len() - 1].px.0));
                    assert(a[k].px.0 != o.limit_px);
                } else {
                    assert(px == o.limit_px);
                }
            }
            assert forall|j: int| 0 <= j < s.len() implies exists|k: int|
                0 <= k < r.len() && (#[trigger] r[k]).px.0 == (#[trigger] s[j]).limit_px by {
                if j < t.len() {
                    assert(t[j] == s[j]);
                    let k = choose|k: int| 0 <= k < a.len() && (#[trigger] a[k]).px.0 == t[j].limit_px;
                    assert(r[k] == a[k]);
                } else {
                    assert(r[a.len() as int].px.0 == s[j].limit_px);
                }
            }
        }
    }
}

fn aggregate_side(v: &Vec<InnerL4Order>) -> (r: Vec<InnerLevel>)
    ensures
        r@ == aggregate(views(v@)),
{
    let mut r: Vec<InnerLevel> = Vec::new();
    let mut i: usize = 0;
    proof {
        assert(views(v@).take(0) =~= Seq::<OrderView>::empty());
    }
    while i < v.len()
        invariant
            i <= v@.len(),
            r@ == aggregate(views(v@).take(i as int)),
        decreases v@.len() - i,
    {
        let o = &v[i];
        let ghost pre = views(v@).take(i as int);
        proof {
            assert(views(v@).take(i + 1).drop_last() =~= pre);
            lemma_aggregate_counts(pre);
        }
        let len = r.len();
        if len > 0 && r[len - 1].px.0 == o.limit_px.0 {
            let last = r.pop().unwrap();
            let total = last.sz.0.saturating_add(o.sz.0);
            r.push(InnerLevel { px: last.px, sz: Sz(total), n: last.n + 1 });
            proof {
                assert(r@ =~= aggregate(views(v@).take(i + 1)));
            }
        } else {
            r.push(InnerLevel { px: o.limit_px, sz: o.sz, n: 1 });
            proof {
                assert(r@ =~= aggregate(views(v@).take(i + 1)));
            }
        }
        i = i + 1;
    }
    proof {
        assert(views(v@).take(v@.len() as int) =~= views(v@));
    }
    r
}

/// The aggregated book of a well-formed coin book: bid levels from the
/// highest price down and ask levels from the lowest up, each price once,
/// and together they count every resting order once.
pub proof fn lemma_l2_of_book(b: BookView)
    requires
        book_wf(b),
        b.bids.len() <= usize::MAX,
        b.asks.len() <= usize::MAX,
    ensures
        forall|i: int, j: int|
            0 <= i < j < l2_of_book(b).bids.len() ==> #[trigger] l2_of_book(b).bids[i].px.0
                > #[trigger] l2_of_book(b).bids[j].px.0,
        forall|i: int, j: int|
            0 <= i < j < l2_of_book(b).asks.len() ==> #[trigger] l2_of_book(b).asks[i].px.0
                < #[trigger] l2_of_book(b).asks[j].px.0,
        level_count(l2_of_book(b).bids) == b.bids.len(),
        level_count(l2_of_book(b).asks) == b.asks.len(),
{
    lemma_aggregate_levels(b.bids, Side::Bid);
    lemma_aggregate_levels(b.asks, Side::Ask);
    assert forall|i: int, j: int| 0 <= i < j < l2_of_book(b).bids.len() implies #[trigger] l2_of_book(
        b,
    ).bids[i].px.0 > #[trigger] l2_of_book(b).bids[j].px.0 by {
        assert(price_ahead(Side::Bid, aggregate(b.bids)[i].px.0, aggregate(b.bids)[j].px.0));
    }
    assert forall|i: int, j: int| 0 <= i < j < l2_of_book(b).asks.len() implies #[trigger] l2_of_book(
        b,
    ).asks[i].px.0 < #[trigger] l2_of_book(b).asks[j].px.0 by {
        assert(price_ahead(Side::Ask, aggregate(b.asks)[i].px.0, aggregate(b.asks)[j].px.0));
    }
}

/// The aggregated book of one coin.
#[derive(Debug)]
pub struct L2Snapshot {
    pub coin: Coin,
    pub bids: Vec<InnerLevel>,
    pub asks: Vec<InnerLevel>,
}

impl View for L2Snapshot {
    type V = L2View;

    open spec fn view(&self) -> L2View {
        L2View { coin: self.coin@, bids: self.bids@, asks: self.asks@ }
    }
}

pub open spec fn l2_views(s: Seq<L2Snapshot>) -> Seq<L2View> {
    s.map_values(|x: L2Snapshot| x@)
}

/// The aggregated books of all coins.
#[derive(Debug)]
pub struct L2Snapshots(pub Vec<L2Snapshot>);

impl View for L2Snapshots {
    type V = Seq<L2View>;

    open spec fn view(&self) -> Seq<L2View> {
        l2_views(self.0@)
    }
}

impl OrderBooks {
    /// Rebuilds the books from a snapshot (see `load_snapshots`).
    pub fn from_snapshots(snapshot: Snapshots, ignore_triggers: bool) -> (r: OrderBooks)
        ensures
            r@ == load_snapshots(snapshot@, ignore_triggers),
            books_wf(r@),
    {
        let mut books = OrderBooks::new();
        let mut i: usize = 0;
        proof {
            assert(snapshot@.take(0) =~= Seq::<BookView>::empty());
        }
        while i < snapshot.0.len()
            invariant
                i <= snapshot@.len() == snapshot.0@.len(),
                books@ == load_snapshots(snapshot@.take(i as int), ignore_triggers),
                books_wf(books@),
            decreases snapshot@.len() - i,
        {
            let s = &snapshot.0[i];
            proof {
                assert(snapshot@.take(i + 1).drop_last() =~= snapshot@.take(i as int));
                assert(snapshot@.take(i + 1).last() == s@);
            }
            books.touch(&s.coin);
            load_side(&mut books, &s.bids, ignore_triggers);
            load_side(&mut books, &s.asks, ignore_triggers);
            i = i + 1;
        }
        proof {
            assert(snapshot@.take(snapshot@.len() as int) =~= snapshot@);
        }
        books
    }

    /// A copy of all resting orders, coin by coin.
    pub fn to_snapshots(&self) -> (r: Snapshots)
        ensures
            r@ == self@,
    {
        let mut out: Vec<CoinBook> = Vec::new();
        let mut i: usize = 0;
        while i < self.books.len()
            invariant
                i <= self.books@.len(),
                out@.len() == i,
                book_views(out@) =~= book_views(self.books@).take(i as int),
            decreases self.books@.len() - i,
        {
            let b = &self.books[i];
            let c = CoinBook { coin: b.coin.clone(), bids: clone_orders(&b.bids), asks: clone_orders(&b.asks) };
            let ghost prev = out@;
            out.push(c);
            proof {
                assert forall|k: int| 0 <= k < i + 1 implies #[trigger] book_views(out@)[k]
                    == book_views(self.books@).take(i + 1)[k] by {
                    if k < i {
                        assert(out@[k] == prev[k]);
                        assert(book_views(prev)[k] == book_views(self.books@).take(i as int)[k]);
                    }
                }
            }
            i = i + 1;
        }
        proof {
            assert(book_views(self.books@).take(self.books@.len() as int) =~= book_views(self.books@));
        }
        Snapshots(out)
    }

    /// The aggregated book of every coin, in the order of the books.
    pub fn l2_snapshots(&self) -> (r: L2Snapshots)
        ensures
            r@ == l2_of_books(self@),
    {
        let mut out: Vec<L2Snapshot> = Vec::new();
        let mut i: usize = 0;
        while i < self.books.len()
            invariant
                i <= self.books@.len(),
                out@.len() == i,
                l2_views(out@) =~= l2_of_books(self@).take(i as int),
            decreases self.books@.len() - i,
        {
            let b = &self.books[i];
            let ghost prev = out@;
            out.push(L2Snapshot { coin: b.coin.clone(), bids: aggregate_side(&b.bids), asks: aggregate_side(&b.asks) });
            proof {
                let target = l2_of_books(self@);
                assert forall|k: int| 0 <= k < i + 1 implies #[trigger] l2_views(out@)[k]
                    == target.take(i + 1)[k] by {
                    if k < i {
                        assert(out@[k] == prev[k]);
                        assert(l2_views(prev)[k] == target.take(i as int)[k]);
                    } else {
                        assert(self@[k] == self.books@[k]@);
                    }
                }
            }
            i = i + 1;
        }
        proof {
            assert(l2_of_books(self@).take(self.books@.len() as int)
                =~= l2_of_books(self@));
        }
        L2Snapshots(out)
    }

    /// The coins that have a book, in the order of the books.
    pub fn universe(&self) -> (r: Vec<Coin>)
        ensures
            coin_views(r@) == book_coins(self@),
    {
        let mut out: Vec<Coin> = Vec::new();
        let mut i: usize = 0;
        while i < self.books.len()
            invariant
                i <= self.books@.len(),
                out@.len() == i,
                coin_views(out@) =~= book_coins(self@).take(i as int),
            decreases self.books@.len() - i,
        {
            let ghost prev = out@;
            out.push(self.books[i].coin.clone());
            proof {
                let target = book_coins(self@);
                assert forall|k: int| 0 <= k < i + 1 implies #[trigger] coin_views(out@)[k]
                    == target.take(i + 1)[k] by {
                    if k < i {
                        assert(out@[k] == prev[k]);
                        assert(coin_views(prev)[k] == target.take(i as int)[k]);
                    } else {
                        assert(self@[k] == self.books@[k]@);
                    }
                }
            }
            i = i + 1;
        }
        proof {
            assert(book_coins(self@).take(self.books@.len() as int)
                =~= book_coins(self@));
        }
        out
    }
}

} // verus!
