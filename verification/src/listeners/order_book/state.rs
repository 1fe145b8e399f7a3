//! The order book state that follows the node block by block.

use vstd::prelude::*;
use crate::error::ServerError;
use crate::order_book::multi_book::{
    book_coins, books_add, books_cancel, books_modify, books_wf, coin_views, l2_of_books,
    load_snapshots, BookView, L2Snapshots, L2View, OrderBooks, Snapshots,
};
use crate::order_book::types::{spec_is_spot, Coin};
use crate::types::inner::{spec_inner_diff, spec_order_from_diff, InnerL4Order, InnerOrderDiff};
use crate::types::node_data::{Batch, NodeDataOrderDiff};

verus! {

/// The books at a block, with the block's height and time.
#[derive(Debug)]
pub struct TimedSnapshots {
    pub time: u64,
    pub height: u64,
    pub snapshot: Snapshots,
}

/// The mathematical value of the state.
pub struct StateView {
    pub books: Seq<BookView>,
    pub height: u64,
    pub time: u64,
    pub snapped: bool,
    pub ignore_spot: bool,
}

/// The books after one diff: diffs of spot coins are skipped when
/// `ignore_spot` holds; otherwise the diff adds, resizes or removes an
/// order, or is refused.
pub open spec fn apply_diff(bs: Seq<BookView>, d: NodeDataOrderDiff, ignore_spot: bool) -> Result<
    Seq<BookView>,
    ServerError,
> {
    if spec_is_spot(d.coin@) && ignore_spot {
        Ok(bs)
    } else {
        match spec_inner_diff(d.raw_book_diff) {
            Err(e) => Err(e),
            Ok(InnerOrderDiff::New) => match spec_order_from_diff(d) {
                Ok(o) => Ok(books_add(bs, o)),
                Err(e) => Err(e),
            },
            Ok(InnerOrderDiff::Update { new_sz, .. }) => Ok(books_modify(bs, d.oid, d.coin@, new_sz.0)),
            Ok(InnerOrderDiff::Remove) => Ok(books_cancel(bs, d.oid, d.coin@)),
        }
    }
}

/// The books after the diffs `ds` in order, and the error of the first
/// refused diff, if any: the books are then those before that diff.
pub open spec fn apply_diffs(bs: Seq<BookView>, ds: Seq<NodeDataOrderDiff>, ignore_spot: bool) -> (
    Seq<BookView>,
    Option<ServerError>,
)
    decreases ds.len(),
{
    if ds.len() == 0 {
        (bs, None)
    } else {
        let (prev, err) = apply_diffs(bs, ds.drop_last(), ignore_spot);
        if err is Some {
            (prev, err)
        } else {
            match apply_diff(prev, ds.last(), ignore_spot) {
                Ok(next) => (next, None),
                Err(e) => (prev, Some(e)),
            }
        }
    }
}

/// Once a diff is refused, the later diffs change nothing.
pub proof fn lemma_apply_diffs_error_sticks(
    bs: Seq<BookView>,
    ds: Seq<NodeDataOrderDiff>,
    k: int,
    ignore_spot: bool,
)
    requires
        0 <= k <= ds.len(),
        apply_diffs(bs, ds.take(k), ignore_spot).1 is Some,
    ensures
        apply_diffs(bs, ds, ignore_spot) == apply_diffs(bs, ds.take(k), ignore_spot),
    decreases ds.len(),
{
    if k == ds.len() {
        assert(ds.take(k) =~= ds);
    } else {
        assert(ds.drop_last().take(k) =~= ds.take(k));
        lemma_apply_diffs_error_sticks(bs, ds.drop_last(), k, ignore_spot);
    }
}

/// The state after a batch of diffs for block `height` at `time`: a batch
/// that skips a block is refused, an old batch is ignored, and the next
/// block's batch is applied diff by diff.
pub open spec fn apply_batch(
    s: StateView,
    height: u64,
    time: u64,
    ds: Seq<NodeDataOrderDiff>,
) -> (StateView, Result<(), ServerError>) {
    if height > s.height + 1 {
        (s, Err(ServerError::UnexpectedBlock { expected: (s.height + 1) as u64, got: height }))
    } else if height <= s.height {
        (s, Ok(()))
    } else {
        let (bs, err) = apply_diffs(s.books, ds, s.ignore_spot);
        match err {
            Some(e) => (StateView { books: bs, ..s }, Err(e)),
            None => (
                StateView {
                    books: bs,
                    height: (s.height + 1) as u64,
                    time: time,
                    snapped: false,
                    ..s
                },
                Ok(()),
            ),
        }
    }
}

/// An aggregated snapshot request: refused while `snapped` holds; otherwise
/// it gives the time and the aggregated books, and `snapped` becomes
/// `prevent_future_snaps`.
pub open spec fn l2_step(s: StateView, prevent_future_snaps: bool) -> (
    StateView,
    Option<(u64, Seq<L2View>)>,
) {
    if s.snapped {
        (s, None)
    } else {
        (StateView { snapped: prevent_future_snaps, ..s }, Some((s.time, l2_of_books(s.books))))
    }
}

/// A batch moves the height by at most one: up by one exactly when it is
/// the next block's batch and every diff of it applies; a refused or old
/// batch leaves height and time as they were.
pub proof fn lemma_apply_batch_height(s: StateView, height: u64, time: u64, ds: Seq<NodeDataOrderDiff>)
    requires
        s.height < u64::MAX,
    ensures
        ({
            let (t, r) = apply_batch(s, height, time, ds);
            &&& (r is Ok && height == s.height + 1) ==> t.height == s.height + 1 && t.time == time && !t.snapped
            &&& !(r is Ok && height == s.height + 1) ==> t.height == s.height && t.time == s.time && t.snapped == s.snapped
            &&& t.ignore_spot == s.ignore_spot
            &&& height != s.height + 1 ==> t == s
        }),
{
}

/// Once an aggregated snapshot is taken with `prevent_future_snaps`, none
/// is given again until the next block applies; after a block applies, one
/// is given.
pub proof fn lemma_l2_once_per_block(
    s: StateView,
    other: bool,
    height: u64,
    time: u64,
    ds: Seq<NodeDataOrderDiff>,
)
    requires
        s.height < u64::MAX,
    ensures
        l2_step(s, true).1 is Some ==> l2_step(l2_step(s, true).0, other).1 is None,
        l2_step(s, false).1 is Some ==> l2_step(l2_step(s, false).0, other).1 is Some,
        apply_batch(s, height, time, ds).1 is Ok && height == s.height + 1 ==> l2_step(
            apply_batch(s, height, time, ds).0,
            other,
        ).1 is Some,
{
}

/// Applying diffs keeps the books well formed, whether or not one of them
/// is refused.
pub proof fn lemma_apply_diffs_wf(bs: Seq<BookView>, ds: Seq<NodeDataOrderDiff>, ignore_spot: bool)
    requires
        books_wf(bs),
    ensures
        books_wf(apply_diffs(bs, ds, ignore_spot).0),
    decreases ds.len(),
{
    if ds.len() > 0 {
        lemma_apply_diffs_wf(bs, ds.drop_last(), ignore_spot);
        let prev = apply_diffs(bs, ds.drop_last(), ignore_spot).0;
        let d = ds.last();
        match spec_inner_diff(d.raw_book_diff) {
            Ok(InnerOrderDiff::Update { new_sz, .. }) => {
                crate::order_book::multi_book::lemma_books_ops_wf(prev, arbitrary(), d.oid, d.coin@, new_sz.0);
            },
            _ => {
                let o = match spec_order_from_diff(d) {
                    Ok(o) => o,
                    Err(_) => arbitrary(),
                };
                crate::order_book::multi_book::lemma_books_ops_wf(prev, o, d.oid, d.coin@, 0);
            },
        }
    }
}

/// Every batch keeps the books well formed.
pub proof fn lemma_apply_batch_wf(s: StateView, height: u64, time: u64, ds: Seq<NodeDataOrderDiff>)
    requires
        books_wf(s.books),
    ensures
        books_wf(apply_batch(s, height, time, ds).0.books),
{
    lemma_apply_diffs_wf(s.books, ds, s.ignore_spot);
}

/// Loading the snapshot that a state gives, without skipping trigger
/// orders, gives the state's books again.
pub proof fn lemma_snapshot_roundtrip(s: StateView)
    requires
        books_wf(s.books),
    ensures
        load_snapshots(s.books, false) == s.books,
{
    crate::order_book::multi_book::lemma_load_snapshots_roundtrip(s.books, false);
}

/// The books of all coins, with the height and time of the last block
/// applied and whether an aggregated snapshot may not be taken again yet.
#[derive(Debug)]
pub struct OrderBookState {
    order_book: OrderBooks,
    height: u64,
    time: u64,
    snapped: bool,
    ignore_spot: bool,
}

impl View for OrderBookState {
    type V = StateView;

    closed spec fn view(&self) -> StateView {
        StateView {
            books: self.order_book@,
            height: self.height,
            time: self.time,
            snapped: self.snapped,
            ignore_spot: self.ignore_spot,
        }
    }
}

impl OrderBookState {
    /// The state that a snapshot at `height` and `time` gives.
    pub fn from_snapshot(
        snapshot: Snapshots,
        height: u64,
        time: u64,
        ignore_triggers: bool,
        ignore_spot: bool,
    ) -> (r: OrderBookState)
        ensures
            r@ == (StateView {
                books: load_snapshots(snapshot@, ignore_triggers),
                height,
                time,
                snapped: false,
                ignore_spot,
            }),
            books_wf(r@.books),
    {
        OrderBookState {
            ignore_spot,
            time,
            height,
            order_book: OrderBooks::from_snapshots(snapshot, ignore_triggers),
            snapped: false,
        }
    }

    /// The books are always well formed.
    pub fn check_wf(&self)
        ensures
            books_wf(self@.books),
    {
        self.order_book.check_wf();
    }

    pub fn height(&self) -> (r: u64)
        ensures
            r == self@.height,
    {
        self.height
    }

    /// The books as they are now, with height and time.
    pub fn compute_snapshot(&self) -> (r: TimedSnapshots)
        ensures
            r.time == self@.time,
            r.height == self@.height,
            r.snapshot@ == self@.books,
    {
        TimedSnapshots { time: self.time, height: self.height, snapshot: self.order_book.to_snapshots() }
    }

    /// The aggregated books with the time, unless one was already taken
    /// with `prevent_future_snaps` since the last block; such a call stops
    /// further ones until the next block.
    pub fn l2_snapshots(&mut self, prevent_future_snaps: bool) -> (r: Option<(u64, L2Snapshots)>)
        ensures
            final(self)@ == l2_step(old(self)@, prevent_future_snaps).0,
            match r {
                None => l2_step(old(self)@, prevent_future_snaps).1 is None,
                Some((t, l2)) => l2_step(old(self)@, prevent_future_snaps).1 == Some((t, l2@)),
            },
    {
        if self.snapped {
            None
        } else {
            self.snapped = prevent_future_snaps || self.snapped;
            Some((self.time, self.order_book.l2_snapshots()))
        }
    }

    /// The coins that have a book.
    pub fn compute_universe(&self) -> (r: Vec<Coin>)
        ensures
            coin_views(r@) == book_coins(self@.books),
    {
        self.order_book.universe()
    }

    /// Applies the batch of one block (see `apply_batch`).
    pub fn apply_updates(&mut self, order_diffs: Batch<NodeDataOrderDiff>) -> (r: Result<(), ServerError>)
        requires
            old(self)@.height < u64::MAX,
            order_diffs.block_time.millis() >= 0,
        ensures
            ({
                let (s, res) = apply_batch(
                    old(self)@,
                    order_diffs.block_number,
                    order_diffs.block_time.millis() as u64,
                    order_diffs.events@,
                );
                final(self)@ == s && r == res
            }),
    {
        let height = order_diffs.block_number();
        let time = order_diffs.block_time();
        if height > self.height + 1 {
            return Err(ServerError::UnexpectedBlock { expected: self.height + 1, got: height });
        } else if height <= self.height {
            return Ok(());
        }
        let ghost ds = order_diffs.events@;
        let ghost start = self.order_book@;
        let diffs = order_diffs.events();
        let n = diffs.len();
        // the diffs are taken out back to front into `pending`, so that
        // popping `pending` yields them in their order
        let mut all = diffs;
        let mut pending: Vec<NodeDataOrderDiff> = Vec::new();
        while all.len() > 0
            invariant
                all@.len() + pending@.len() == n == ds.len(),
                all@ == ds.take(all@.len() as int),
                forall|k: int| 0 <= k < pending@.len() ==> #[trigger] pending@[k] == ds[n - 1 - k],
            decreases all@.len(),
        {
            let ghost before = pending@;
            let d = all.pop().unwrap();
            pending.push(d);
            proof {
                assert(all@ =~= ds.take(all@.len() as int));
                assert forall|k: int| 0 <= k < pending@.len() implies #[trigger] pending@[k] == ds[n - 1 - k] by {
                    if k < before.len() {
                        assert(pending@[k] == before[k]);
                    }
                }
            }
        }
        let mut i: usize = 0;
        proof {
            assert(ds.take(0) =~= Seq::<NodeDataOrderDiff>::empty());
        }
        while pending.len() > 0
            invariant
                i + pending@.len() == n == ds.len(),
                forall|k: int| 0 <= k < pending@.len() ==> #[trigger] pending@[k] == ds[n - 1 - k],
                apply_diffs(start, ds.take(i as int), self.ignore_spot) == (self.order_book@, None::<ServerError>),
                self@ == (StateView { books: self.order_book@, ..old(self)@ }),
                start == old(self)@.books,
                height == old(self)@.height + 1,
                height == order_diffs.block_number,
                ds == order_diffs.events@,
            decreases pending@.len(),
        {
            let diff = pending.pop().unwrap();
            proof {
                assert(diff == ds[i as int]);
                assert(ds.take(i + 1).drop_last() =~= ds.take(i as int));
                assert(ds.take(i + 1).last() == diff);
            }
            let ghost before = self.order_book@;
            let oid = diff.oid();
            let coin = diff.coin();
            if coin.is_spot() && self.ignore_spot {
                i = i + 1;
                continue;
            }
            let inner_diff = match InnerOrderDiff::try_from(diff.diff()) {
                Ok(d) => d,
                Err(e) => {
                    proof {
                        assert(apply_diff(before, diff, self.ignore_spot) == Err::<Seq<BookView>, ServerError>(e));
                        assert(apply_diffs(start, ds.take(i + 1), self.ignore_spot) == (before, Some(e)));
                        lemma_apply_diffs_error_sticks(start, ds, i + 1, self.ignore_spot);
                    }
                    return Err(e);
                },
            };
            match inner_diff {
                InnerOrderDiff::New => {
                    let inner_order = match InnerL4Order::try_from_diff(diff) {
                        Ok(o) => o,
                        Err(e) => {
                            proof {
                                assert(apply_diff(before, ds[i as int], self.ignore_spot) == Err::<Seq<BookView>, ServerError>(e));
                                assert(apply_diffs(start, ds.take(i + 1), self.ignore_spot) == (before, Some(e)));
                                lemma_apply_diffs_error_sticks(start, ds, i + 1, self.ignore_spot);
                            }
                            return Err(e);
                        },
                    };
                    self.order_book.add_order(inner_order);
                },
                InnerOrderDiff::Update { new_sz, .. } => {
                    self.order_book.modify_sz(oid, coin, new_sz);
                },
                InnerOrderDiff::Remove => {
                    self.order_book.cancel_order(oid, coin);
                },
            }
            i = i + 1;
        }
        proof {
            assert(ds.take(n as int) =~= ds);
        }
        self.height += 1;
        self.time = time;
        self.snapped = false;
        Ok(())
    }
}

} // verus!
