//! Fixed-point decimal numbers with eight fractional digits, as used for
//! prices and sizes, and their text form.

use vstd::prelude::*;

verus! {

/// Number of units in one whole price or size unit (eight decimals).
pub const SCALE: u64 = 100_000_000;

/// Largest whole part that still fits into a `u64` after scaling.
pub const MAX_WHOLE: u64 = 184_467_440_737;

pub open spec fn is_digit(c: char) -> bool {
    '0' <= c && c <= '9'
}

pub open spec fn digit_value(c: char) -> nat {
    (c as int - '0' as int) as nat
}

pub open spec fn digit_char(d: nat) -> char {
    (d + 48) as char
}

pub open spec fn all_digits(s: Seq<char>) -> bool {
    forall|i: int| 0 <= i < s.len() ==> #[trigger] is_digit(s[i])
}

/// Value of a string of decimal digits, most significant first.
pub open spec fn digits_value(s: Seq<char>) -> nat
    decreases s.len(),
{
    if s.len() == 0 {
        0
    } else {
        digits_value(s.drop_last()) * 10 + digit_value(s.last())
    }
}

pub open spec fn pow10(k: nat) -> nat
    decreases k,
{
    if k == 0 {
        1
    } else {
        10 * pow10((k - 1) as nat)
    }
}

/// Index of the last '.' in `s`, or -1 when there is none.
pub open spec fn dot_pos(s: Seq<char>) -> int
    decreases s.len(),
{
    if s.len() == 0 {
        -1
    } else if s.last() == '.' {
        s.len() - 1
    } else {
        dot_pos(s.drop_last())
    }
}

/// The value, in units of 1e-8, of a text of the form `D+` or `D+.D{1,8}`;
/// `None` for any other text.
pub open spec fn parse_decimal(s: Seq<char>) -> Option<nat> {
    let p = dot_pos(s);
    if p < 0 {
        if s.len() > 0 && all_digits(s) {
            Some(digits_value(s) * (SCALE as nat))
        } else {
            None
        }
    } else {
        let ip = s.take(p);
        let fp = s.skip(p + 1);
        if ip.len() > 0 && all_digits(ip) && fp.len() > 0 && fp.len() <= 8 && all_digits(fp) {
            Some(digits_value(ip) * (SCALE as nat) + digits_value(fp) * pow10((8 - fp.len()) as nat))
        } else {
            None
        }
    }
}

/// Decimal digits of `n`, without leading zeros ("0" for zero).
pub open spec fn decimal_digits(n: nat) -> Seq<char>
    decreases n,
{
    if n < 10 {
        seq![digit_char(n)]
    } else {
        decimal_digits(n / 10).push(digit_char(n % 10))
    }
}

/// The last `k` decimal digits of `f`, padded with leading zeros.
pub open spec fn padded_digits(f: nat, k: nat) -> Seq<char>
    decreases k,
{
    if k == 0 {
        Seq::empty()
    } else {
        padded_digits(f / 10, (k - 1) as nat).push(digit_char(f % 10))
    }
}

pub open spec fn strip_trailing_zeros(s: Seq<char>) -> Seq<char>
    decreases s.len(),
{
    if s.len() > 0 && s.last() == '0' {
        strip_trailing_zeros(s.drop_last())
    } else {
        s
    }
}

/// Text form of a value in units of 1e-8: the whole part, then, when the
/// fraction is not zero, a '.' and the fraction without trailing zeros.
pub open spec fn format_decimal(v: nat) -> Seq<char> {
    let whole = v / (SCALE as nat);
    let frac = v % (SCALE as nat);
    if frac == 0 {
        decimal_digits(whole)
    } else {
        decimal_digits(whole) + seq!['.'] + strip_trailing_zeros(padded_digits(frac, 8))
    }
}


/// The value that `parse_decimal` gives, when it fits into a `u64`.
pub open spec fn parse_decimal_u64(s: Seq<char>) -> Option<u64> {
    match parse_decimal(s) {
        Some(w) => if w <= u64::MAX { Some(w as u64) } else { None },
        None => None,
    }
}

pub proof fn lemma_digits_value_prefix(s: Seq<char>, k: int)
    requires
        all_digits(s),
        0 <= k <= s.len(),
    ensures
        digits_value(s.take(k)) <= digits_value(s),
    decreases s.len(),
{
    if k < s.len() {
        assert(s.drop_last().take(k) =~= s.take(k));
        lemma_digits_value_prefix(s.drop_last(), k);
    } else {
        assert(s.take(k) =~= s);
    }
}

pub proof fn lemma_pow10_positive(k: nat)
    ensures
        pow10(k) >= 1,
    decreases k,
{
    if k > 0 {
        lemma_pow10_positive((k - 1) as nat);
    }
}

pub proof fn lemma_pow10_add(a: nat, b: nat)
    ensures
        pow10(a + b) == pow10(a) * pow10(b),
    decreases a,
{
    if a > 0 {
        let a1 = (a - 1) as nat;
        lemma_pow10_add(a1, b);
        assert(pow10(a) == 10 * pow10(a1));
        assert(pow10(a + b) == 10 * pow10(a1 + b));
        let x = pow10(a1);
        let y = pow10(b);
        assert(10 * (x * y) == (10 * x) * y) by (nonlinear_arith);
        assert(pow10(a + b) == 10 * (x * y));
        assert(pow10(a) * pow10(b) == (10 * x) * y);
    } else {
        assert(pow10(a) == 1);
        assert(a + b == b);
    }
}

pub proof fn lemma_digits_value_bound(s: Seq<char>)
    requires
        all_digits(s),
    ensures
        digits_value(s) < pow10(s.len()),
    decreases s.len(),
{
    if s.len() > 0 {
        let t = s.drop_last();
        lemma_digits_value_bound(t);
        assert(is_digit(s[s.len() - 1]));
        let a = digits_value(t);
        let b = pow10(t.len());
        assert(a + 1 <= b);
        assert(a * 10 + 10 <= b * 10) by (nonlinear_arith)
            requires
                a + 1 <= b,
        ;
    }
}

proof fn lemma_digits_value_step(s: Seq<char>, lo: int, i: int)
    requires
        0 <= lo <= i < s.len(),
    ensures
        digits_value(s.subrange(lo, i + 1)) == digits_value(s.subrange(lo, i)) * 10 + digit_value(
            s[i],
        ),
{
    assert(s.subrange(lo, i + 1).drop_last() =~= s.subrange(lo, i));
}

fn digit_of(c: char) -> (r: Option<u64>)
    ensures
        is_digit(c) ==> r == Some(digit_value(c) as u64),
        !is_digit(c) ==> r is None,
{
    if '0' <= c && c <= '9' {
        Some((c as u32 - '0' as u32) as u64)
    } else {
        None
    }
}

/// The value of the digits `s[lo..hi)`, or `None` when one of them is not a
/// digit or their value exceeds `limit`.
fn digits_in_range(s: &str, lo: usize, hi: usize, limit: u64) -> (r: Option<u64>)
    requires
        lo <= hi <= s@.len(),
    ensures
        ({
            let sub = s@.subrange(lo as int, hi as int);
            match r {
                Some(v) => all_digits(sub) && v == digits_value(sub) && v <= limit,
                None => !all_digits(sub) || digits_value(sub) > limit,
            }
        }),
{
    let ghost sub = s@.subrange(lo as int, hi as int);
    let mut acc: u64 = 0;
    let mut i: usize = lo;
    assert(s@.subrange(lo as int, lo as int) =~= Seq::<char>::empty());
    while i < hi
        invariant
            lo <= i <= hi <= s@.len(),
            sub == s@.subrange(lo as int, hi as int),
            all_digits(s@.subrange(lo as int, i as int)),
            acc == digits_value(s@.subrange(lo as int, i as int)),
            acc <= limit,
        decreases hi - i,
    {
        let c = s.get_char(i);
        match digit_of(c) {
            None => {
                assert(sub[i - lo] == c);
                return None;
            },
            Some(d) => {
                proof {
                    lemma_digits_value_step(s@, lo as int, i as int);
                }
                let next: u128 = (acc as u128) * 10 + (d as u128);
                assert(all_digits(s@.subrange(lo as int, i + 1))) by {
                    assert forall|j: int| 0 <= j < i + 1 - lo implies #[trigger] is_digit(
                        s@.subrange(lo as int, i + 1)[j],
                    ) by {
                        if j < i - lo {
                            assert(s@.subrange(lo as int, i + 1)[j] == s@.subrange(
                                lo as int,
                                i as int,
                            )[j]);
                        }
                    }
                }
                if next > limit as u128 {
                    proof {
                        if all_digits(sub) {
                            assert(sub.take(i + 1 - lo) =~= s@.subrange(lo as int, i + 1));
                            lemma_digits_value_prefix(sub, i + 1 - lo);
                        }
                    }
                    return None;
                }
                acc = next as u64;
                i = i + 1;
            },
        }
    }
    assert(s@.subrange(lo as int, i as int) == sub);
    Some(acc)
}

fn pow10_exec(k: usize) -> (r: u64)
    requires
        k <= 8,
    ensures
        r == pow10(k as nat),
        r <= SCALE,
{
    let mut r: u64 = 1;
    let mut i: usize = 0;
    proof {
        reveal_with_fuel(pow10, 9);
    }
    while i < k
        invariant
            i <= k <= 8,
            r == pow10(i as nat),
            r * pow10((8 - i) as nat) == SCALE,
        decreases k - i,
    {
        proof {
            lemma_pow10_add(1, (8 - i - 1) as nat);
            assert(pow10((8 - i) as nat) == 10 * pow10((8 - i - 1) as nat));
            assert(r * (10 * pow10((8 - i - 1) as nat)) == (r * 10) * pow10((8 - i - 1) as nat))
                by (nonlinear_arith);
            lemma_pow10_positive((8 - i - 1) as nat);
            assert(r * 10 <= (r * 10) * pow10((8 - i - 1) as nat)) by (nonlinear_arith)
                requires
                    pow10((8 - i - 1) as nat) >= 1,
            ;
        }
        r = r * 10;
        i = i + 1;
    }
    proof {
        lemma_pow10_positive((8 - i) as nat);
        assert(r <= r * pow10((8 - i) as nat)) by (nonlinear_arith)
            requires
                pow10((8 - i) as nat) >= 1,
        ;
    }
    r
}

/// Parses the text form of a fixed-point decimal (see `parse_decimal`).
pub fn parse_fixed(s: &str) -> (r: Option<u64>)
    ensures
        r == parse_decimal_u64(s@),
{
    let n = s.unicode_len();
    let mut i: usize = n;
    proof {
        assert(s@.take(n as int) =~= s@);
    }
    while i > 0 && s.get_char(i - 1) != '.'
        invariant
            i <= n == s@.len(),
            dot_pos(s@.take(i as int)) == dot_pos(s@),
        decreases i,
    {
        proof {
            assert(s@.take(i as int).drop_last() =~= s@.take(i - 1));
        }
        i = i - 1;
    }
    if i == 0 {
        // no '.' in the text
        proof {
            assert(s@.take(0) =~= Seq::<char>::empty());
            assert(s@.subrange(0, n as int) =~= s@);
        }
        if n == 0 {
            return None;
        }
        match digits_in_range(s, 0, n, MAX_WHOLE) {
            None => {
                proof {
                    if all_digits(s@) {
                        let v = digits_value(s@);
                        assert(v * (SCALE as nat) > u64::MAX) by (nonlinear_arith)
                            requires
                                v > MAX_WHOLE,
                        ;
                    }
                }
                None
            },
            Some(v) => {
                assert(v * SCALE <= u64::MAX) by (nonlinear_arith)
                    requires
                        v <= MAX_WHOLE,
                ;
                Some(v * SCALE)
            },
        }
    } else {
        let p = i - 1;
        proof {
            assert(s@.take(i as int).last() == '.');
            assert(dot_pos(s@) == p);
            assert(s@.take(p as int) =~= s@.subrange(0, p as int));
            assert(s@.skip(p + 1) =~= s@.subrange(p + 1, n as int));
        }
        let flen = n - i;
        if p == 0 || flen == 0 || flen > 8 {
            return None;
        }
        let whole = digits_in_range(s, 0, p, MAX_WHOLE);
        let frac = digits_in_range(s, i, n, u64::MAX);
        match (whole, frac) {
            (Some(w), Some(f)) => {
                let ghost fp = s@.subrange(i as int, n as int);
                let k = pow10_exec(8 - flen);
                proof {
                    lemma_pow10_positive((8 - flen) as nat);
                    reveal_with_fuel(pow10, 9);
                    lemma_digits_value_bound(fp);
                    lemma_pow10_add(flen as nat, (8 - flen) as nat);
                    assert(f * k < pow10(flen as nat) * k) by (nonlinear_arith)
                        requires
                            f < pow10(flen as nat),
                            k >= 1,
                    ;
                    assert(w * SCALE <= MAX_WHOLE * SCALE) by (nonlinear_arith)
                        requires
                            w <= MAX_WHOLE,
                    ;
                }
                let ws: u64 = w * SCALE;
                let fs: u64 = f * k;
                let total: u128 = ws as u128 + fs as u128;
                if total > u64::MAX as u128 {
                    None
                } else {
                    Some(total as u64)
                }
            },
            _ => {
                proof {
                    let ip = s@.subrange(0, p as int);
                    if all_digits(ip) && whole is None {
                        let v = digits_value(ip);
                        assert(v * (SCALE as nat) > u64::MAX) by (nonlinear_arith)
                            requires
                                v > MAX_WHOLE,
                        ;
                        assert(v * (SCALE as nat) + digits_value(s@.subrange(i as int, n as int))
                            * pow10((8 - flen) as nat) >= v * (SCALE as nat)) by (nonlinear_arith);
                    }
                    if whole is Some && all_digits(s@.subrange(i as int, n as int)) {
                        lemma_digits_value_bound(s@.subrange(i as int, n as int));
                        lemma_pow10_add(flen as nat, (8 - flen) as nat);
                        lemma_pow10_positive((8 - flen) as nat);
                        assert(pow10(flen as nat) <= pow10(8)) by (nonlinear_arith)
                            requires
                                pow10(8) == pow10(flen as nat) * pow10((8 - flen) as nat),
                                pow10((8 - flen) as nat) >= 1,
                        ;
                        reveal_with_fuel(pow10, 9);
                    }
                }
                None
            },
        }
    }
}


fn push_digit(out: &mut String, d: u64)
    requires
        d < 10,
    ensures
        final(out)@ == old(out)@.push(digit_char(d as nat)),
{
    match d {
        0 => {
            proof {
                reveal_strlit("0");
            }
            out.append("0");
        },
        1 => {
            proof {
                reveal_strlit("1");
            }
            out.append("1");
        },
        2 => {
            proof {
                reveal_strlit("2");
            }
            out.append("2");
        },
        3 => {
            proof {
                reveal_strlit("3");
            }
            out.append("3");
        },
        4 => {
            proof {
                reveal_strlit("4");
            }
            out.append("4");
        },
        5 => {
            proof {
                reveal_strlit("5");
            }
            out.append("5");
        },
        6 => {
            proof {
                reveal_strlit("6");
            }
            out.append("6");
        },
        7 => {
            proof {
                reveal_strlit("7");
            }
            out.append("7");
        },
        8 => {
            proof {
                reveal_strlit("8");
            }
            out.append("8");
        },
        _ => {
            proof {
                reveal_strlit("9");
            }
            out.append("9");
        },
    }
}

fn push_decimal(out: &mut String, n: u64)
    ensures
        final(out)@ == old(out)@ + decimal_digits(n as nat),
    decreases n,
{
    if n >= 10 {
        push_decimal(out, n / 10);
    }
    push_digit(out, n % 10);
    proof {
        if n < 10 {
            assert(n % 10 == n);
        }
        assert(old(out)@ + decimal_digits(n as nat) =~= if n >= 10 {
            (old(out)@ + decimal_digits((n / 10) as nat)).push(digit_char((n % 10) as nat))
        } else {
            old(out)@.push(digit_char((n % 10) as nat))
        });
    }
}

fn push_padded(out: &mut String, f: u64, k: u64)
    ensures
        final(out)@ == old(out)@ + padded_digits(f as nat, k as nat),
    decreases k,
{
    if k > 0 {
        push_padded(out, f / 10, k - 1);
        push_digit(out, f % 10);
        assert(old(out)@ + padded_digits(f as nat, k as nat) =~= (old(out)@ + padded_digits(
            (f / 10) as nat,
            (k - 1) as nat,
        )).push(digit_char((f % 10) as nat)));
    } else {
        assert(old(out)@ + padded_digits(f as nat, k as nat) =~= old(out)@);
    }
}

proof fn lemma_strip_padded(f: nat, k: nat)
    requires
        k > 0,
        f % 10 == 0,
    ensures
        strip_trailing_zeros(padded_digits(f, k)) == strip_trailing_zeros(
            padded_digits(f / 10, (k - 1) as nat),
        ),
{
    let s = padded_digits(f, k);
    assert(digit_char(0) == '0');
    assert(s.drop_last() =~= padded_digits(f / 10, (k - 1) as nat));
    assert(s.last() == '0');
}

proof fn lemma_strip_padded_done(f: nat, k: nat)
    requires
        f % 10 != 0,
    ensures
        strip_trailing_zeros(padded_digits(f, k)) == padded_digits(f, k),
{
    if k > 0 {
        assert(digit_char(f % 10) != '0');
    }
}

/// The text form of a fixed-point value (see `format_decimal`).
pub fn format_fixed(v: u64) -> (r: String)
    ensures
        r@ == format_decimal(v as nat),
{
    let mut out = String::new();
    let whole = v / SCALE;
    let frac = v % SCALE;
    push_decimal(&mut out, whole);
    if frac != 0 {
        proof {
            reveal_strlit(".");
        }
        out.append(".");
        let mut f = frac;
        let mut k: u64 = 8;
        proof {
            reveal_with_fuel(pow10, 9);
        }
        while f % 10 == 0
            invariant
                f != 0,
                0 <= k <= 8,
                f < pow10(k as nat),
                strip_trailing_zeros(padded_digits(f as nat, k as nat)) == strip_trailing_zeros(
                    padded_digits(frac as nat, 8),
                ),
            decreases k,
        {
            proof {
                if k == 0 {
                    assert(pow10(0) == 1);
                }
                assert(pow10(k as nat) == 10 * pow10((k - 1) as nat));
                lemma_strip_padded(f as nat, k as nat);
            }
            f = f / 10;
            k = k - 1;
        }
        proof {
            lemma_strip_padded_done(f as nat, k as nat);
        }
        push_padded(&mut out, f, k);
    }
    out
}


proof fn lemma_digit_char(d: nat)
    requires
        d < 10,
    ensures
        is_digit(digit_char(d)),
        digit_value(digit_char(d)) == d,
        digit_char(d) != '.',
{
}

proof fn lemma_decimal_digits(n: nat)
    ensures
        decimal_digits(n).len() >= 1,
        all_digits(decimal_digits(n)),
        digits_value(decimal_digits(n)) == n,
    decreases n,
{
    lemma_digit_char(n % 10);
    if n >= 10 {
        lemma_decimal_digits(n / 10);
        let s = decimal_digits(n);
        assert(s.drop_last() =~= decimal_digits(n / 10));
        assert(s.last() == digit_char(n % 10));
        assert(digits_value(s) == digits_value(decimal_digits(n / 10)) * 10 + digit_value(
            digit_char(n % 10),
        ));
        assert(n == (n / 10) * 10 + n % 10);
        assert forall|i: int| 0 <= i < s.len() implies #[trigger] is_digit(s[i]) by {
            if i < s.len() - 1 {
                assert(s[i] == decimal_digits(n / 10)[i]);
            }
        }
    } else {
        lemma_digit_char(n);
        let s = decimal_digits(n);
        assert(s.drop_last() =~= Seq::<char>::empty());
        assert(digits_value(s) == digits_value(Seq::<char>::empty()) * 10 + digit_value(
            digit_char(n),
        ));
    }
}

proof fn lemma_padded_digits(f: nat, k: nat)
    ensures
        padded_digits(f, k).len() == k,
        all_digits(padded_digits(f, k)),
        digits_value(padded_digits(f, k)) == f % pow10(k),
    decreases k,
{
    lemma_pow10_positive(k);
    if k > 0 {
        let k1 = (k - 1) as nat;
        lemma_padded_digits(f / 10, k1);
        lemma_digit_char(f % 10);
        let s = padded_digits(f, k);
        assert(s.drop_last() =~= padded_digits(f / 10, k1));
        assert forall|i: int| 0 <= i < s.len() implies #[trigger] is_digit(s[i]) by {
            if i < s.len() - 1 {
                assert(s[i] == padded_digits(f / 10, k1)[i]);
            }
        }
        let p = pow10(k1);
        lemma_pow10_positive(k1);
        assert(pow10(k) == 10 * p);
        assert(((f / 10) % p) * 10 + f % 10 == f % (10 * p)) by (nonlinear_arith)
            requires
                p >= 1,
        {
            vstd::arithmetic::div_mod::lemma_breakdown(f as int, 10, p as int);
        }
    }
}

/// Stripping the trailing zeros of `padded_digits(f, k)` leaves the padded
/// digits of `f` divided by the removed power of ten.
proof fn lemma_strip_form(f: nat, k: nat) -> (r: (nat, nat))
    requires
        f != 0,
        f < pow10(k),
    ensures
        strip_trailing_zeros(padded_digits(f, k)) == padded_digits(r.0, r.1),
        1 <= r.1 <= k,
        r.0 * pow10((k - r.1) as nat) == f,
        r.0 < pow10(r.1),
    decreases k,
{
    if k == 0 {
        assert(pow10(0) == 1);
    }
    if f % 10 == 0 {
        let k1 = (k - 1) as nat;
        assert(pow10(k) == 10 * pow10(k1));
        lemma_strip_padded(f, k);
        let r1 = lemma_strip_form(f / 10, k1);
        assert((k - r1.1) as nat == ((k1 - r1.1) as nat) + 1);
        lemma_pow10_add(((k1 - r1.1) as nat), 1);
        assert(pow10(1) == 10) by {
            reveal_with_fuel(pow10, 2);
        }
        let q = pow10((k1 - r1.1) as nat);
        assert(r1.0 * (q * 10) == (r1.0 * q) * 10) by (nonlinear_arith);
        assert(pow10((k - r1.1) as nat) == q * 10);
        assert(f == (f / 10) * 10);
        assert(r1.0 * pow10((k - r1.1) as nat) == f);
        r1
    } else {
        lemma_strip_padded_done(f, k);
        assert(pow10(0) == 1);
        assert(pow10((k - k) as nat) == 1);
        assert(f * pow10((k - k) as nat) == f);
        (f, k)
    }
}

proof fn lemma_dot_pos_digits(s: Seq<char>)
    requires
        all_digits(s),
    ensures
        dot_pos(s) == -1,
    decreases s.len(),
{
    if s.len() > 0 {
        assert(is_digit(s[s.len() - 1]));
        assert forall|i: int| 0 <= i < s.drop_last().len() implies #[trigger] is_digit(
            s.drop_last()[i],
        ) by {
            assert(s.drop_last()[i] == s[i]);
        }
        lemma_dot_pos_digits(s.drop_last());
    }
}

proof fn lemma_dot_pos_split(a: Seq<char>, b: Seq<char>)
    requires
        all_digits(b),
    ensures
        dot_pos(a + seq!['.'] + b) == a.len(),
    decreases b.len(),
{
    let s = a + seq!['.'] + b;
    if b.len() == 0 {
        assert(s.last() == '.');
    } else {
        assert(is_digit(b[b.len() - 1]));
        assert(s.drop_last() =~= a + seq!['.'] + b.drop_last());
        assert forall|i: int| 0 <= i < b.drop_last().len() implies #[trigger] is_digit(
            b.drop_last()[i],
        ) by {
            assert(b.drop_last()[i] == b[i]);
        }
        lemma_dot_pos_split(a, b.drop_last());
    }
}

/// Reading back the text form of a value gives the value again.
pub proof fn lemma_parse_format_roundtrip(v: nat)
    ensures
        parse_decimal(format_decimal(v)) == Some(v),
{
    let whole = v / (SCALE as nat);
    let frac = v % (SCALE as nat);
    let ws = decimal_digits(whole);
    lemma_decimal_digits(whole);
    assert(v == whole * (SCALE as nat) + frac);
    if frac == 0 {
        lemma_dot_pos_digits(ws);
    } else {
        reveal_with_fuel(pow10, 9);
        let r = lemma_strip_form(frac, 8);
        let fs = padded_digits(r.0, r.1);
        lemma_padded_digits(r.0, r.1);
        lemma_pow10_positive(r.1);
        vstd::arithmetic::div_mod::lemma_small_mod(r.0, pow10(r.1));
        lemma_dot_pos_split(ws, fs);
        let s = ws + seq!['.'] + fs;
        assert(format_decimal(v) == s);
        assert(s.take(ws.len() as int) =~= ws);
        assert(s.skip(ws.len() as int + 1) =~= fs);
    }
}


/// Reading back the text form of a price or size gives it again.
pub proof fn lemma_parse_format_u64(v: u64)
    ensures
        parse_decimal_u64(format_decimal(v as nat)) == Some(v),
{
    lemma_parse_format_roundtrip(v as nat);
}

} // verus!
