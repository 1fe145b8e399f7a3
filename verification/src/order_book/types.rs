//! Basic values of the book: sides, prices, sizes, order ids and coins.

use vstd::prelude::*;
use crate::error::ServerError;
use crate::order_book::fixed::{format_decimal, format_fixed, parse_decimal_u64, parse_fixed};

verus! {

/// Side of an order: asks sell, bids buy.
#[derive(Clone, Copy, Debug, PartialEq, Eq, Structural, Hash)]
pub enum Side {
    Ask,
    Bid,
}

/// A price, in units of 1e-8.
#[derive(Clone, Copy, Debug, PartialEq, Eq, Structural)]
pub struct Px(pub u64);

/// A size, in units of 1e-8.
#[derive(Clone, Copy, Debug, PartialEq, Eq, Structural)]
pub struct Sz(pub u64);

/// An order id.
#[derive(Clone, Copy, Debug, PartialEq, Eq, Structural)]
pub struct Oid(pub u64);

impl Px {
    pub fn new(value: u64) -> (r: Px)
        ensures
            r.0 == value,
    {
        Px(value)
    }

    pub fn value(&self) -> (r: u64)
        ensures
            r == self.0,
    {
        self.0
    }

    /// Reads a price from its decimal text form.
    pub fn parse_from_str(s: &str) -> (r: Result<Px, ServerError>)
        ensures
            r == (match parse_decimal_u64(s@) {
                Some(v) => Ok(Px(v)),
                None => Err(ServerError::InvalidNumber),
            }),
    {
        match parse_fixed(s) {
            Some(v) => Ok(Px(v)),
            None => Err(ServerError::InvalidNumber),
        }
    }

    /// The decimal text form of the price.
    pub fn to_str(&self) -> (r: String)
        ensures
            r@ == format_decimal(self.0 as nat),
    {
        format_fixed(self.0)
    }
}

impl Sz {
    pub fn new(value: u64) -> (r: Sz)
        ensures
            r.0 == value,
    {
        Sz(value)
    }

    pub fn value(&self) -> (r: u64)
        ensures
            r == self.0,
    {
        self.0
    }

    /// Reads a size from its decimal text form.
    pub fn parse_from_str(s: &str) -> (r: Result<Sz, ServerError>)
        ensures
            r == (match parse_decimal_u64(s@) {
                Some(v) => Ok(Sz(v)),
                None => Err(ServerError::InvalidNumber),
            }),
    {
        match parse_fixed(s) {
            Some(v) => Ok(Sz(v)),
            None => Err(ServerError::InvalidNumber),
        }
    }

    /// The decimal text form of the size.
    pub fn to_str(&self) -> (r: String)
        ensures
            r@ == format_decimal(self.0 as nat),
    {
        format_fixed(self.0)
    }

    /// Lowers the size by `dec`.
    pub fn decrement_sz(&mut self, dec: u64)
        requires
            old(self).0 >= dec,
        ensures
            final(self).0 == old(self).0 - dec,
    {
        self.0 = self.0 - dec;
    }
}

impl Oid {
    pub fn new(value: u64) -> (r: Oid)
        ensures
            r.0 == value,
    {
        Oid(value)
    }
}

/// A coin (market) name. Perpetual markets carry a plain name such as
/// "BTC"; spot markets are named "@<index>" or "<BASE>/<QUOTE>".
#[derive(Debug)]
pub struct Coin(String);

impl View for Coin {
    type V = Seq<char>;

    closed spec fn view(&self) -> Seq<char> {
        self.0@
    }
}

/// Whether a coin name denotes a spot market.
pub open spec fn spec_is_spot(name: Seq<char>) -> bool {
    (name.len() > 0 && name[0] == '@') || (exists|i: int| 0 <= i < name.len() && name[i] == '/')
}

impl Clone for Coin {
    fn clone(&self) -> (r: Self)
        ensures
            r@ == self@,
    {
        Coin(self.0.clone())
    }
}

impl Coin {
    pub fn new(name: &str) -> (r: Coin)
        ensures
            r@ == name@,
    {
        Coin(name.to_owned())
    }

    pub fn from_string(name: String) -> (r: Coin)
        ensures
            r@ == name@,
    {
        Coin(name)
    }

    /// The coin's name.
    pub fn value(&self) -> (r: String)
        ensures
            r@ == self@,
    {
        self.0.clone()
    }

    /// Whether two coins have the same name.
    pub fn same(&self, other: &Coin) -> (r: bool)
        ensures
            r == (self@ == other@),
    {
        self.0 == other.0
    }

    /// Whether the coin is a spot market (see `spec_is_spot`).
    pub fn is_spot(&self) -> (r: bool)
        ensures
            r == spec_is_spot(self@),
    {
        let s = self.0.as_str();
        let n = s.unicode_len();
        if n > 0 && s.get_char(0) == '@' {
            return true;
        }
        let mut i: usize = 0;
        while i < n
            invariant
                i <= n == self@.len(),
                s@ == self@,
                !(n > 0 && self@[0] == '@'),
                forall|j: int| 0 <= j < i ==> self@[j] != '/',
            decreases n - i,
        {
            if s.get_char(i) == '/' {
                return true;
            }
            i = i + 1;
        }
        false
    }
}

} // verus!
