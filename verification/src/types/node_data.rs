//! What the node writes per block: order diffs, fills, and the batches that
//! carry them.

use vstd::prelude::*;
use crate::order_book::types::{Coin, Oid, Side};
use crate::types::{Fill, OrderDiff, UserAddress};

verus! {

/// One order diff as the node writes it.
#[derive(Debug)]
pub struct NodeDataOrderDiff {
    pub user: UserAddress,
    pub oid: u64,
    pub px: String,
    pub coin: String,
    pub side: Side,
    pub raw_book_diff: OrderDiff,
}

impl NodeDataOrderDiff {
    pub fn diff(&self) -> (r: OrderDiff)
        ensures
            r == self.raw_book_diff,
    {
        self.raw_book_diff.clone()
    }

    pub fn oid(&self) -> (r: Oid)
        ensures
            r.0 == self.oid,
    {
        Oid::new(self.oid)
    }

    pub fn coin(&self) -> (r: Coin)
        ensures
            r@ == self.coin@,
    {
        Coin::new(self.coin.as_str())
    }
}

/// One side of a trade: the user, and that user's fill.
#[derive(Debug)]
pub struct NodeDataFill(pub UserAddress, pub Fill);

/// The two streams that the node writes.
#[derive(Clone, Copy, Debug, PartialEq, Eq, Structural)]
pub enum EventSource {
    Fills,
    OrderDiffs,
}

/// `base` joined with the relative path `rel`: a '/' stands between them
/// unless `base` is empty or already ends in '/'.
pub open spec fn join_path(base: Seq<char>, rel: Seq<char>) -> Seq<char> {
    if base.len() == 0 || base.last() == '/' {
        base + rel
    } else {
        base + seq!['/'] + rel
    }
}

pub open spec fn event_source_subdir(source: EventSource) -> Seq<char> {
    match source {
        EventSource::Fills => "hl/data/node_fills_by_block"@,
        EventSource::OrderDiffs => "hl/data/node_raw_book_diffs_by_block"@,
    }
}

impl EventSource {
    /// The directory under `dir` where the node writes this stream.
    pub fn event_source_dir(self, dir: &str) -> (r: String)
        ensures
            r@ == join_path(dir@, event_source_subdir(self)),
    {
        let rel = match self {
            EventSource::Fills => "hl/data/node_fills_by_block",
            EventSource::OrderDiffs => "hl/data/node_raw_book_diffs_by_block",
        };
        let mut out = String::from_str(dir);
        let n = dir.unicode_len();
        if n > 0 && dir.get_char(n - 1) != '/' {
            proof {
                reveal_strlit("/");
            }
            out.append("/");
        }
        out.append(rel);
        out
    }
}

/// Whether `(epoch_days, secs, nanos)` is a date and time of day that chrono
/// can hold: a day between -262143-01-01 and +262142-12-31 counted from
/// 1970-01-01, a second of the day, and the nanoseconds of that second (past
/// one billion only in a leap second, i.e. when the second is 59).
pub open spec fn valid_date_time(epoch_days: int, secs: int, nanos: int) -> bool {
    &&& -96_465_292 <= epoch_days <= 95_026_236
    &&& 0 <= secs < 86_400
    &&& 0 <= nanos < 2_000_000_000
    &&& nanos >= 1_000_000_000 ==> secs % 60 == 59
}

/// Milliseconds since 1970-01-01 00:00 UTC, leap seconds not counted.
pub open spec fn utc_millis(epoch_days: int, secs: int, nanos: int) -> int {
    (epoch_days * 86_400 + secs) * 1000 + nanos / 1_000_000
}

/// chrono: `NaiveDate::from_epoch_days`, `NaiveTime::from_num_seconds_from_midnight_opt`,
/// then `and_time(..).and_utc().timestamp_millis()`. Claimed: for a valid date
/// and time, the result is the day times 86,400,000 plus the second of the
/// day times 1000 plus the whole milliseconds of the nanoseconds.
#[verifier::external_body]
fn chrono_timestamp_millis(epoch_days: i32, secs: u32, nanos: u32) -> (r: i64)
    requires
        valid_date_time(epoch_days as int, secs as int, nanos as int),
    ensures
        r == utc_millis(epoch_days as int, secs as int, nanos as int),
{
    let date = chrono::NaiveDate::from_epoch_days(epoch_days).unwrap();
    let time = chrono::NaiveTime::from_num_seconds_from_midnight_opt(secs, nanos).unwrap();
    date.and_time(time).and_utc().timestamp_millis()
}

/// A date and time without time zone, read as UTC: days since 1970-01-01,
/// the second of that day and the nanoseconds of that second.
#[derive(Clone, Copy, Debug)]
pub struct BlockDateTime {
    epoch_days: i32,
    secs: u32,
    nanos: u32,
}

impl BlockDateTime {
    #[verifier::type_invariant]
    spec fn inv(self) -> bool {
        valid_date_time(self.epoch_days as int, self.secs as int, self.nanos as int)
    }

    pub closed spec fn epoch_days(self) -> int {
        self.epoch_days as int
    }

    pub closed spec fn secs(self) -> int {
        self.secs as int
    }

    pub closed spec fn nanos(self) -> int {
        self.nanos as int
    }

    pub open spec fn millis(self) -> int {
        utc_millis(self.epoch_days(), self.secs(), self.nanos())
    }

    /// The date and time, or `None` when chrono cannot hold it.
    pub fn new(epoch_days: i32, secs: u32, nanos: u32) -> (r: Option<BlockDateTime>)
        ensures
            r is Some <==> valid_date_time(epoch_days as int, secs as int, nanos as int),
            r matches Some(t) ==> t.epoch_days() == epoch_days && t.secs() == secs && t.nanos()
                == nanos,
    {
        if -96_465_292 <= epoch_days && epoch_days <= 95_026_236 && secs < 86_400 && nanos
            < 2_000_000_000 && (nanos < 1_000_000_000 || secs % 60 == 59) {
            Some(BlockDateTime { epoch_days, secs, nanos })
        } else {
            None
        }
    }

    pub fn epoch_days_value(&self) -> (r: i32)
        ensures
            r == self.epoch_days(),
    {
        self.epoch_days
    }

    pub fn secs_value(&self) -> (r: u32)
        ensures
            r == self.secs(),
    {
        self.secs
    }

    pub fn nanos_value(&self) -> (r: u32)
        ensures
            r == self.nanos(),
    {
        self.nanos
    }

    /// Milliseconds since 1970-01-01 00:00 UTC.
    pub fn timestamp_millis(&self) -> (r: i64)
        ensures
            r == self.millis(),
    {
        proof {
            use_type_invariant(self);
        }
        chrono_timestamp_millis(self.epoch_days, self.secs, self.nanos)
    }
}

/// The events that the node wrote for one block.
#[derive(Debug)]
pub struct Batch<E> {
    pub local_time: BlockDateTime,
    pub block_time: BlockDateTime,
    pub block_number: u64,
    pub events: Vec<E>,
}

impl<E> Batch<E> {
    /// The block's time in milliseconds since 1970-01-01 UTC.
    pub fn block_time(&self) -> (r: u64)
        requires
            self.block_time.millis() >= 0,
        ensures
            r == self.block_time.millis(),
    {
        let m = self.block_time.timestamp_millis();
        m as u64
    }

    /// The block's time, or `None` when it lies before 1970.
    pub fn try_block_time(&self) -> (r: Option<u64>)
        ensures
            r is Some <==> self.block_time.millis() >= 0,
            r matches Some(t) ==> t == self.block_time.millis(),
    {
        let m = self.block_time.timestamp_millis();
        if m < 0 {
            None
        } else {
            Some(self.block_time())
        }
    }

    pub fn block_number(&self) -> (r: u64)
        ensures
            r == self.block_number,
    {
        self.block_number
    }

    pub fn events(self) -> (r: Vec<E>)
        ensures
            r == self.events,
    {
        self.events
    }
}

} // verus!
