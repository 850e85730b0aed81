//! Price-feed message decoding.  The exchange session itself (the
//! websocket, the subscribe handshake, the read loop) lives outside the
//! library; what stands here is everything that decides: the subscribe
//! request text, the frame classification by its `type` tag, and the
//! parsers for the `BASE-QUOTE` product id and the decimal price text.
//!
//! A frame with an unknown `type` is ignored; a `ticker` frame whose
//! product id names an unrecognized currency, or whose price does not
//! parse, is malformed and dropped — neither ever reaches the engine.

use vstd::prelude::*;

use vstd::arithmetic::mul::{lemma_mul_inequality, lemma_mul_strict_inequality};
use vstd::string::StrSliceExecFns;

use crate::events::Ticker;
use crate::liquidator::{lemma_pow10_mono, pow10};
use crate::types::{CurrencyCode, Exchange, Pair, PRICE_SCALE};

verus! {

/// The one message sent after connecting: subscribes the heartbeat and
/// ticker channels for the products the engine watches.
pub open spec fn spec_subscribe_request_text() -> Seq<char> {
    "{\"type\":\"subscribe\",\"channels\":[{\"name\":\"heartbeat\",\"product_ids\":[\"ETH-USD\",\"DAI-USD\"]},{\"name\":\"ticker\",\"product_ids\":[\"ETH-USD\",\"DAI-USD\"]}]}"@
}

/// The subscribe handshake message, ready to send.
pub fn subscribe_request_text() -> (r: &'static str)
    ensures
        r@ == spec_subscribe_request_text(),
{
    "{\"type\":\"subscribe\",\"channels\":[{\"name\":\"heartbeat\",\"product_ids\":[\"ETH-USD\",\"DAI-USD\"]},{\"name\":\"ticker\",\"product_ids\":[\"ETH-USD\",\"DAI-USD\"]}]}"
}

/// The decoder's verdict on one inbound frame.
#[derive(Clone, Copy, Debug, PartialEq, Eq, Structural)]
pub enum FrameOutcome {
    /// A `ticker` frame that decoded: the canonical price tick to forward.
    Tick(Ticker),
    /// A `heartbeat` frame: diagnostic only, nothing forwarded.
    Heartbeat,
    /// A frame of some other `type`: not for us, dropped.
    Ignored,
    /// An untagged frame, or a `ticker` frame whose product id or price
    /// does not parse: dropped, never forwarded.
    Malformed,
}

/// A decimal digit.
pub open spec fn is_digit(c: char) -> bool {
    48 <= (c as u32) && (c as u32) <= 57
}

/// The value of a decimal digit.
pub open spec fn digit_val(c: char) -> int {
    (c as u32) - 48
}

/// Every character of the string is a decimal digit.
pub open spec fn all_digits(s: Seq<char>) -> bool {
    forall|j: int| 0 <= j < s.len() ==> is_digit(#[trigger] s[j])
}

/// The value of a decimal digit string.
pub open spec fn digits_value(s: Seq<char>) -> int
    decreases s.len(),
{
    if s.len() == 0 {
        0
    } else {
        digits_value(s.drop_last()) * 10 + digit_val(s.last())
    }
}

/// A digit string's value is bounded by ten to its length.
proof fn lemma_digits_bound(s: Seq<char>)
    requires
        all_digits(s),
    ensures
        0 <= digits_value(s) < pow10(s.len()),
    decreases s.len(),
{
    if s.len() > 0 {
        assert(all_digits(s.drop_last())) by {
            assert(forall|j: int| 0 <= j < s.len() - 1 ==> is_digit(#[trigger] s[j]));
        }
        lemma_digits_bound(s.drop_last());
        assert(is_digit(s.last()));
    }
}

/// A digit string's value does not decrease as the string grows.
proof fn lemma_digits_take_mono(s: Seq<char>, a: int, b: int)
    requires
        all_digits(s),
        0 <= a <= b <= s.len(),
    ensures
        digits_value(s.take(a)) <= digits_value(s.take(b)),
    decreases b - a,
{
    if a < b {
        lemma_digits_take_mono(s, a, b - 1);
        assert(s.take(b).drop_last() =~= s.take(b - 1));
        assert(all_digits(s.take(b - 1))) by {
            assert(forall|j: int| 0 <= j < b - 1 ==> is_digit(#[trigger] s[j]));
        }
        lemma_digits_bound(s.take(b - 1));
        assert(is_digit(s.take(b).last()));
    }
}

/// `pow10` turns addition of exponents into multiplication.
proof fn lemma_pow10_add(a: nat, b: nat)
    ensures
        pow10(a + b) == pow10(a) * pow10(b),
    decreases b,
{
    if b == 0 {
    } else {
        lemma_pow10_add(a, (b - 1) as nat);
        assert(pow10(a + b) == 10 * pow10((a + b - 1) as nat));
        assert(10 * (pow10(a) * pow10((b - 1) as nat)) == pow10(a) * (10 * pow10(
            (b - 1) as nat,
        ))) by (nonlinear_arith);
    }
}

/// `pow10(8)` is the fixed-point price scale.
proof fn lemma_pow10_consts()
    ensures
        pow10(8) == PRICE_SCALE,
        pow10(0) == 1,
{
    reveal_with_fuel(pow10, 9);
}

/// The fractional digits of a price, scaled to eight fixed-point places:
/// digits beyond the eighth are truncated, fewer are padded with zeros.
pub open spec fn frac_value(frac: Seq<char>) -> int {
    if frac.len() >= 8 {
        digits_value(frac.take(8))
    } else {
        digits_value(frac) * pow10((8 - frac.len()) as nat)
    }
}

/// The fractional part always scales to less than one whole unit.
proof fn lemma_frac_value_bounds(frac: Seq<char>)
    requires
        all_digits(frac),
    ensures
        0 <= frac_value(frac) < PRICE_SCALE,
{
    lemma_pow10_consts();
    if frac.len() >= 8 {
        assert(all_digits(frac.take(8))) by {
            assert(forall|j: int| 0 <= j < 8 ==> is_digit(#[trigger] frac[j]));
        }
        lemma_digits_bound(frac.take(8));
    } else {
        lemma_digits_bound(frac);
        let e = (8 - frac.len()) as nat;
        lemma_pow10_mono(0, e);
        lemma_mul_inequality(0, digits_value(frac), pow10(e));
        lemma_mul_strict_inequality(digits_value(frac), pow10(frac.len() as nat), pow10(e));
        lemma_pow10_add(frac.len() as nat, e);
    }
}

/// The price of a whole part and a fractional part, as a fixed-point
/// value scaled by [`PRICE_SCALE`], if it fits 128 bits.
pub open spec fn price_from_parts(whole: Seq<char>, frac: Seq<char>) -> Option<u128> {
    let scaled = digits_value(whole) * PRICE_SCALE + frac_value(frac);
    if scaled > u128::MAX {
        None
    } else {
        Some(scaled as u128)
    }
}

/// `i` splits the string into a nonempty digit run, one dot, and another
/// nonempty digit run.
pub open spec fn valid_price_split(s: Seq<char>, i: int) -> bool {
    &&& 0 <= i < s.len()
    &&& s[i] == '.'
    &&& s.take(i).len() > 0
    &&& all_digits(s.take(i))
    &&& s.skip(i + 1).len() > 0
    &&& all_digits(s.skip(i + 1))
}

/// What [`parse_price`] accepts: decimal digit text, with at most one
/// dot separating a nonempty whole part from a nonempty fractional part.
/// The value is fixed-point, scaled by [`PRICE_SCALE`]; fractional digits
/// beyond the eighth are truncated.  Signs, exponents, and anything else
/// is rejected.
pub open spec fn spec_parse_price(s: Seq<char>) -> Option<u128> {
    if s.len() > 0 && all_digits(s) {
        price_from_parts(s, Seq::empty())
    } else if exists|i: int| valid_price_split(s, i) {
        let i = choose|i: int| valid_price_split(s, i);
        price_from_parts(s.take(i), s.skip(i + 1))
    } else {
        None
    }
}

/// Multiplying a nonnegative value by a factor of at least one does not
/// shrink it.
proof fn lemma_mul_grows(x: int, f: int)
    requires
        0 <= x,
        1 <= f,
    ensures
        x <= x * f,
{
    lemma_mul_inequality(1, f, x);
    assert(1 * x == x) by (nonlinear_arith);
    assert(f * x == x * f) by (nonlinear_arith);
}

/// When the whole part alone exceeds 128 bits, so does the whole price.
proof fn lemma_scaled_overflow(whole: Seq<char>, frac: Seq<char>)
    requires
        all_digits(whole),
        all_digits(frac),
        digits_value(whole) > u128::MAX,
    ensures
        digits_value(whole) * PRICE_SCALE + frac_value(frac) > u128::MAX,
{
    lemma_frac_value_bounds(frac);
    lemma_mul_grows(digits_value(whole), PRICE_SCALE as int);
}

/// When the first dot's own split is broken, nothing parses.
proof fn lemma_no_valid_split(s: Seq<char>, d: int)
    requires
        0 <= d < s.len(),
        s[d] == '.',
        forall|j: int| 0 <= j < d ==> s[j] != '.',
        d == 0 || d + 1 >= s.len() || !(forall|j: int| 0 <= j < d ==> is_digit(#[trigger] s[j]))
            || !(forall|j: int| d + 1 <= j < s.len() ==> is_digit(#[trigger] s[j])),
    ensures
        spec_parse_price(s) is None,
{
    assert(!is_digit(s[d]));
    assert(!(s.len() > 0 && all_digits(s)));
    assert forall|i: int| !valid_price_split(s, i) by {
        if valid_price_split(s, i) {
            if i < d {
                assert(s[i] == '.');
                assert(false);
            } else if i > d {
                assert(s.take(i)[d] == s[d]);
                assert(is_digit(s.take(i)[d]));
                assert(false);
            } else {
                assert(s.take(d).len() > 0);
                assert(s.skip(d + 1).len() > 0);
                assert forall|j: int| 0 <= j < d implies is_digit(#[trigger] s[j]) by {
                    assert(s.take(d)[j] == s[j]);
                    assert(is_digit(s.take(d)[j]));
                }
                assert forall|j: int| d + 1 <= j < s.len() implies is_digit(#[trigger] s[j]) by {
                    assert(s.skip(d + 1)[j - (d + 1)] == s[j]);
                    assert(is_digit(s.skip(d + 1)[j - (d + 1)]));
                }
                assert(false);
            }
        }
    }
}

/// Ten to a small power.
fn pow10_small(e: u32) -> (r: u128)
    requires
        e <= 8,
    ensures
        r == pow10(e as nat),
{
    proof {
        lemma_pow10_consts();
    }
    let mut acc: u128 = 1;
    let mut i: u32 = 0;
    while i < e
        invariant
            i <= e,
            e <= 8,
            acc == pow10(i as nat),
        decreases e - i,
    {
        proof {
            lemma_pow10_mono((i + 1) as nat, 8);
            lemma_pow10_consts();
        }
        acc = acc * 10;
        i = i + 1;
    }
    acc
}

/// Reads the value of the digit run `s[from .. to]`, `None` when it
/// exceeds 128 bits.
#[verifier::loop_isolation(false)]
fn digits_to_value(s: &str, from: usize, to: usize) -> (r: Option<u128>)
    requires
        from <= to <= s@.len(),
        forall|j: int| from <= j < to ==> is_digit(#[trigger] s@[j]),
    ensures
        r matches Some(v) ==> v == digits_value(s@.subrange(from as int, to as int)),
        r is None ==> digits_value(s@.subrange(from as int, to as int)) > u128::MAX,
{
    let ghost t = s@.subrange(from as int, to as int);
    proof {
        assert(all_digits(t));
        assert(t.take(0) =~= Seq::<char>::empty());
    }
    let mut acc: u128 = 0;
    let mut i = from;
    while i < to
        invariant
            from <= i <= to,
            acc == digits_value(t.take(i - from)),
        decreases to - i,
    {
        let c = s.get_char(i);
        proof {
            assert(c == t[i - from]);
            assert(is_digit(c));
            assert(t.take(i - from + 1).drop_last() =~= t.take(i - from));
            assert(t.take(i - from + 1).last() == c);
        }
        let d = (c as u32) - 48;
        let acc10 = match acc.checked_mul(10) {
            Some(x) => x,
            None => {
                proof {
                    lemma_digits_take_mono(t, i - from + 1, t.len() as int);
                    assert(t.take(t.len() as int) =~= t);
                }
                return None;
            },
        };
        acc = match acc10.checked_add(d as u128) {
            Some(x) => x,
            None => {
                proof {
                    lemma_digits_take_mono(t, i - from + 1, t.len() as int);
                    assert(t.take(t.len() as int) =~= t);
                }
                return None;
            },
        };
        i = i + 1;
    }
    proof {
        assert(t.take(t.len() as int) =~= t);
    }
    Some(acc)
}

/// Finds the first index at which the character stands.
#[verifier::loop_isolation(false)]
fn find_first(s: &str, c: char) -> (r: Option<usize>)
    ensures
        r matches Some(i) ==> i < s@.len() && s@[i as int] == c && forall|j: int|
            0 <= j < i ==> s@[j] != c,
        r is None ==> forall|j: int| 0 <= j < s@.len() ==> s@[j] != c,
{
    let n = s.unicode_len();
    let mut i: usize = 0;
    while i < n
        invariant
            i <= n,
            forall|j: int| 0 <= j < i ==> s@[j] != c,
        decreases n - i,
    {
        if s.get_char(i) == c {
            return Some(i);
        }
        i = i + 1;
    }
    None
}

/// Whether every character of `s[from .. to]` is a decimal digit.
#[verifier::loop_isolation(false)]
fn all_digits_range(s: &str, from: usize, to: usize) -> (r: bool)
    requires
        from <= to <= s@.len(),
    ensures
        r == forall|j: int| from <= j < to ==> is_digit(#[trigger] s@[j]),
{
    let mut i = from;
    while i < to
        invariant
            from <= i <= to,
            forall|j: int| from <= j < i ==> is_digit(#[trigger] s@[j]),
        decreases to - i,
    {
        let c = s.get_char(i);
        let u = c as u32;
        if u < 48 || u > 57 {
            return false;
        }
        i = i + 1;
    }
    true
}

/// Parses the price text of a ticker frame into a fixed-point value
/// scaled by [`PRICE_SCALE`].
#[verifier::loop_isolation(false)]
pub fn parse_price(s: &str) -> (r: Option<u128>)
    ensures
        r == spec_parse_price(s@),
{
    let n = s.unicode_len();
    let dot = find_first(s, '.');
    match dot {
        None => {
            if n == 0 {
                return None;
            }
            if !all_digits_range(s, 0, n) {
                proof {
                    assert forall|i: int| !valid_price_split(s@, i) by {
                        if valid_price_split(s@, i) {
                            assert(s@[i] == '.');
                        }
                    }
                }
                return None;
            }
            proof {
                assert(s@.subrange(0, n as int) =~= s@);
            }
            let wv = match digits_to_value(s, 0, n) {
                Some(x) => x,
                None => {
                    proof {
                        lemma_scaled_overflow(s@, Seq::empty());
                    }
                    return None;
                },
            };
            proof {
                lemma_pow10_consts();
            }
            match wv.checked_mul(PRICE_SCALE) {
                Some(x) => Some(x),
                None => None,
            }
        },
        Some(d) => {
            if d == 0 || d + 1 >= n {
                proof {
                    lemma_no_valid_split(s@, d as int);
                }
                return None;
            }
            if !all_digits_range(s, 0, d) {
                proof {
                    lemma_no_valid_split(s@, d as int);
                }
                return None;
            }
            if !all_digits_range(s, d + 1, n) {
                proof {
                    lemma_no_valid_split(s@, d as int);
                }
                return None;
            }
            let ghost whole = s@.take(d as int);
            let ghost frac = s@.skip(d + 1);
            proof {
                assert(whole =~= s@.subrange(0, d as int));
                assert(frac =~= s@.subrange(d + 1, n as int));
                assert(valid_price_split(s@, d as int));
                let ci = choose|i: int| valid_price_split(s@, i);
                assert(valid_price_split(s@, ci));
                if ci < d {
                    assert(s@[ci] == '.');
                    assert(false);
                } else if ci > d {
                    assert(s@.skip(ci + 1).len() > 0);
                    assert(s@.take(ci)[d as int] == s@[d as int]);
                    assert(is_digit(s@.take(ci)[d as int]));
                    assert(false);
                }
                assert(ci == d);
                assert(!is_digit(s@[d as int]));
                assert(!(s@.len() > 0 && all_digits(s@)));
            }
            let wv = match digits_to_value(s, 0, d) {
                Some(x) => x,
                None => {
                    proof {
                        lemma_scaled_overflow(whole, frac);
                    }
                    return None;
                },
            };
            let flen = n - (d + 1);
            let taken = if flen < 8 {
                flen
            } else {
                8
            };
            let fv = match digits_to_value(s, d + 1, d + 1 + taken) {
                Some(x) => x,
                None => {
                    proof {
                        let part = s@.subrange(d + 1, d + 1 + taken);
                        assert(all_digits(part));
                        lemma_digits_bound(part);
                        lemma_pow10_mono(part.len() as nat, 8);
                        lemma_pow10_consts();
                    }
                    return None;
                },
            };
            let mult = pow10_small(8 - (taken as u32));
            proof {
                let part = s@.subrange(d + 1, d + 1 + taken);
                assert(all_digits(part));
                lemma_digits_bound(part);
                lemma_pow10_consts();
                lemma_frac_value_bounds(frac);
                if flen >= 8 {
                    assert(taken == 8);
                    assert(part =~= frac.take(8));
                    assert(fv == digits_value(frac.take(8)));
                    assert(mult == 1);
                    assert(fv * 1 == fv) by (nonlinear_arith);
                    assert(fv * mult == frac_value(frac));
                } else {
                    assert(taken == flen);
                    assert(part =~= frac);
                    assert(fv * mult == frac_value(frac));
                }
            }
            let frac_scaled = fv * mult;
            let whole_scaled = match wv.checked_mul(PRICE_SCALE) {
                Some(x) => x,
                None => {
                    return None;
                },
            };
            match whole_scaled.checked_add(frac_scaled) {
                Some(x) => Some(x),
                None => None,
            }
        },
    }
}

/// `i` splits the string into the base and quote currency codes around
/// exactly one hyphen.
pub open spec fn valid_pair_split(s: Seq<char>, i: int) -> bool {
    &&& 0 <= i < s.len()
    &&& s[i] == '-'
    &&& forall|j: int| 0 <= j < s.len() && j != i ==> s[j] != '-'
}

/// What [`parse_product_id`] accepts: `BASE-QUOTE` with exactly one
/// hyphen and both codes recognized.
pub open spec fn spec_parse_product_id(s: Seq<char>) -> Option<Pair> {
    if exists|i: int| valid_pair_split(s, i) {
        let i = choose|i: int| valid_pair_split(s, i);
        match (CurrencyCode::spec_from_str(s.take(i)), CurrencyCode::spec_from_str(s.skip(i + 1))) {
            (Ok(base), Ok(quote)) => Some(Pair(base, quote)),
            _ => None,
        }
    } else {
        None
    }
}

/// Parses an exchange product id of the form `BASE-QUOTE` into a pair of
/// currency codes; an unrecognized code, or any other shape, yields
/// `None` and the message is dropped.
#[verifier::loop_isolation(false)]
pub fn parse_product_id(product_id: &str) -> (r: Option<Pair>)
    ensures
        r == spec_parse_product_id(product_id@),
{
    let n = product_id.unicode_len();
    let h = match find_first(product_id, '-') {
        Some(h) => h,
        None => {
            proof {
                assert forall|i: int| !valid_pair_split(product_id@, i) by {
                    if valid_pair_split(product_id@, i) {
                        assert(product_id@[i] == '-');
                    }
                }
            }
            return None;
        },
    };
    // any second hyphen makes every split invalid
    let mut i = h + 1;
    while i < n
        invariant
            h < i <= n,
            forall|j: int| h < j < i ==> product_id@[j] != '-',
        decreases n - i,
    {
        if product_id.get_char(i) == '-' {
            proof {
                let s = product_id@;
                assert forall|k: int| !valid_pair_split(s, k) by {
                    if valid_pair_split(s, k) {
                        if k != h as int {
                            assert(s[h as int] != '-');
                            assert(false);
                        } else {
                            assert(s[i as int] != '-');
                            assert(false);
                        }
                    }
                }
            }
            return None;
        }
        i = i + 1;
    }
    proof {
        assert(valid_pair_split(product_id@, h as int));
        let ci = choose|k: int| valid_pair_split(product_id@, k);
        assert(valid_pair_split(product_id@, ci));
        if ci != h {
            assert(product_id@[h as int] != '-');
            assert(false);
        }
    }
    let base_str = product_id.substring_char(0, h);
    let quote_str = product_id.substring_char(h + 1, n);
    proof {
        assert(base_str@ == product_id@.take(h as int));
        assert(quote_str@ == product_id@.skip(h + 1));
    }
    let base = match CurrencyCode::from_str(base_str) {
        Ok(c) => c,
        Err(_) => {
            return None;
        },
    };
    let quote = match CurrencyCode::from_str(quote_str) {
        Ok(c) => c,
        Err(_) => {
            return None;
        },
    };
    Some(Pair(base, quote))
}

/// The view of an optional string.
pub open spec fn opt_view(o: Option<String>) -> Option<Seq<char>> {
    match o {
        Some(s) => Some(s@),
        None => None,
    }
}

/// What classification does with the three extracted fields: an absent
/// `type` is malformed; `heartbeat` frames are diagnostic; `ticker`
/// frames must carry a parsable product id and price; any other type is
/// someone else's frame and is ignored.
pub open spec fn spec_frame_from_fields(
    msg_type: Option<Seq<char>>,
    product_id: Option<Seq<char>>,
    price: Option<Seq<char>>,
) -> FrameOutcome {
    match msg_type {
        None => FrameOutcome::Malformed,
        Some(ty) => {
            if ty == seq!['h', 'e', 'a', 'r', 't', 'b', 'e', 'a', 't'] {
                FrameOutcome::Heartbeat
            } else if ty == seq!['t', 'i', 'c', 'k', 'e', 'r'] {
                match (product_id, price) {
                    (Some(pid), Some(pr)) => match (spec_parse_product_id(pid), spec_parse_price(
                        pr,
                    )) {
                        (Some(pair), Some(p)) => FrameOutcome::Tick(
                            Ticker { exchange: Exchange::Coinbase, pair, price: p },
                        ),
                        _ => FrameOutcome::Malformed,
                    },
                    _ => FrameOutcome::Malformed,
                }
            } else {
                FrameOutcome::Ignored
            }
        },
    }
}

/// Whether the string is exactly `heartbeat`.
fn is_heartbeat(s: &str) -> (r: bool)
    ensures
        r == (s@ == seq!['h', 'e', 'a', 'r', 't', 'b', 'e', 'a', 't']),
{
    let n = s.unicode_len();
    if n != 9 {
        return false;
    }
    let r = s.get_char(0) == 'h' && s.get_char(1) == 'e' && s.get_char(2) == 'a' && s.get_char(3)
        == 'r' && s.get_char(4) == 't' && s.get_char(5) == 'b' && s.get_char(6) == 'e'
        && s.get_char(7) == 'a' && s.get_char(8) == 't';
    proof {
        if r {
            assert(s@ =~= seq!['h', 'e', 'a', 'r', 't', 'b', 'e', 'a', 't']);
        }
    }
    r
}

/// Whether the string is exactly `ticker`.
fn is_ticker(s: &str) -> (r: bool)
    ensures
        r == (s@ == seq!['t', 'i', 'c', 'k', 'e', 'r']),
{
    let n = s.unicode_len();
    if n != 6 {
        return false;
    }
    let r = s.get_char(0) == 't' && s.get_char(1) == 'i' && s.get_char(2) == 'c' && s.get_char(3)
        == 'k' && s.get_char(4) == 'e' && s.get_char(5) == 'r';
    proof {
        if r {
            assert(s@ =~= seq!['t', 'i', 'c', 'k', 'e', 'r']);
        }
    }
    r
}

/// Classifies one frame from its extracted `type`, `product_id` and
/// `price` fields.
pub fn frame_from_fields(
    msg_type: &Option<String>,
    product_id: &Option<String>,
    price: &Option<String>,
) -> (r: FrameOutcome)
    ensures
        r == spec_frame_from_fields(opt_view(*msg_type), opt_view(*product_id), opt_view(*price)),
{
    let ty = match msg_type {
        Some(t) => t,
        None => {
            return FrameOutcome::Malformed;
        },
    };
    if is_heartbeat(ty.as_str()) {
        return FrameOutcome::Heartbeat;
    }
    if !is_ticker(ty.as_str()) {
        return FrameOutcome::Ignored;
    }
    let pid = match product_id {
        Some(p) => p,
        None => {
            return FrameOutcome::Malformed;
        },
    };
    let pr = match price {
        Some(p) => p,
        None => {
            return FrameOutcome::Malformed;
        },
    };
    let pair = match parse_product_id(pid.as_str()) {
        Some(pair) => pair,
        None => {
            return FrameOutcome::Malformed;
        },
    };
    let value = match parse_price(pr.as_str()) {
        Some(v) => v,
        None => {
            return FrameOutcome::Malformed;
        },
    };
    FrameOutcome::Tick(Ticker { exchange: Exchange::Coinbase, pair, price: value })
}

/// The `type`, `product_id` and `price` string fields of a feed frame,
/// as the exchange's JSON encoding determines them from the payload text
/// alone.
pub uninterp spec fn json_frame_fields(payload: Seq<char>) -> (
    Option<Seq<char>>,
    Option<Seq<char>>,
    Option<Seq<char>>,
);

/// Relies on `serde_json::from_str::<Value>`, `Value::get` and
/// `Value::as_str`: parsing the payload and reading its `type`,
/// `product_id` and `price` string fields is a deterministic function of
/// the payload text; a payload that is not a JSON object, or a field
/// that is absent or not a string, reads as `None`.
#[verifier::external_body]
fn extract_frame_fields(payload: &str) -> (r: (Option<String>, Option<String>, Option<String>))
    ensures
        opt_view(r.0) == json_frame_fields(payload@).0,
        opt_view(r.1) == json_frame_fields(payload@).1,
        opt_view(r.2) == json_frame_fields(payload@).2,
{
    match serde_json::from_str::<serde_json::Value>(payload) {
        Ok(v) => (
            v.get("type").and_then(|f| f.as_str()).map(|f| f.to_string()),
            v.get("product_id").and_then(|f| f.as_str()).map(|f| f.to_string()),
            v.get("price").and_then(|f| f.as_str()).map(|f| f.to_string()),
        ),
        Err(_) => (None, None, None),
    }
}

/// What decoding one frame yields, over the extracted fields.
pub open spec fn spec_decode_frame(payload: Seq<char>) -> FrameOutcome {
    spec_frame_from_fields(
        json_frame_fields(payload).0,
        json_frame_fields(payload).1,
        json_frame_fields(payload).2,
    )
}

/// Decodes one inbound frame of the price feed.  Whatever the fields
/// read from the payload, the verdict is exactly what
/// [`frame_from_fields`] decides on them: a bad frame is dropped as
/// [`FrameOutcome::Malformed`] or [`FrameOutcome::Ignored`], never
/// forwarded, and never stops the feed.
pub fn decode_frame(payload: &str) -> (r: FrameOutcome)
    ensures
        r == spec_decode_frame(payload@),
{
    let (msg_type, product_id, price) = extract_frame_fields(payload);
    frame_from_fields(&msg_type, &product_id, &price)
}

} // verus!
