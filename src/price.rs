//! The price reader: a cache of the last observed sample, a timestamp-keyed
//! history, and the percentage-drop predicate.

use std::collections::HashMap;
use vstd::prelude::*;

verus! {

broadcast use vstd::std_specs::hash::group_hash_axioms;

/// Width of one price-history slot, in ledger time units.
pub const HISTORY_STEP: u64 = 300;

/// A price observation: `price` in micro units, zero meaning "no data".
#[derive(Clone, Copy, Debug, PartialEq, Eq, Structural)]
pub struct PriceData {
    pub price: i128,
    pub timestamp: u64,
}

/// Absolute value over the integers.
pub open spec fn abs(a: int) -> int {
    if a < 0 { -a } else { a }
}

/// Division that rounds toward zero, as integer division does on `i128`.
pub open spec fn trunc_div(a: int, b: int) -> int
    recommends
        b != 0,
{
    let q = abs(a) / abs(b);
    if (a < 0) == (b < 0) { q } else { -q }
}

/// The drop from `previous` to `current` in whole percent, rounded toward
/// zero, when `previous` is not zero and the result fits an `i128`.
pub open spec fn drop_percent_spec(previous: int, current: int) -> Option<int> {
    let d = trunc_div((previous - current) * 100, previous);
    if previous == 0 || d < i128::MIN || d > i128::MAX {
        None
    } else {
        Some(d)
    }
}

/// Whether a drop from `previous` to `current` reaches `threshold` percent.
/// A zero sample on either side is "no data" and never triggers.
pub open spec fn drop_triggered(previous: Option<PriceData>, current: PriceData, threshold: int) -> bool {
    match previous {
        None => false,
        Some(prev) => current.price != 0 && prev.price != 0 && match drop_percent_spec(
            prev.price as int,
            current.price as int,
        ) {
            Some(d) => d >= threshold,
            None => false,
        },
    }
}

/// The sample handed back for a feed answer: the answer itself, or the zero
/// sentinel stamped with `now`.
pub open spec fn sample_or_sentinel(fetched: Option<PriceData>, now: u64) -> PriceData {
    match fetched {
        Some(p) => p,
        None => PriceData { price: 0, timestamp: now },
    }
}

/// The recorded slots `from`, `from + 300`, ... up to `to`, in order.
pub open spec fn history_slots(h: Map<u64, i128>, from: int, to: int) -> Seq<(u64, i128)>
    decreases to + 300 - from,
{
    if from > to || from < 0 || from > u64::MAX {
        Seq::empty()
    } else {
        let rest = history_slots(h, from + 300, to);
        if h.contains_key(from as u64) {
            seq![(from as u64, h[from as u64])] + rest
        } else {
            rest
        }
    }
}

/// Computes the truncated percentage drop, `None` on a zero `previous` or
/// a result outside `i128`. No intermediate value can overflow.
pub fn drop_percent(previous: i128, current: i128) -> (r: Option<i128>)
    ensures
        r.is_some() == drop_percent_spec(previous as int, current as int).is_some(),
        r.is_some() ==> r.unwrap() as int == drop_percent_spec(previous as int, current as int).unwrap(),
{
    if previous == 0 {
        return None;
    }
    let falling = previous >= current;
    let a: u128 = if falling {
        gap(previous, current)
    } else {
        gap(current, previous)
    };
    let b = magnitude(previous);
    assert(a as int == abs(previous - current));
    assert(abs((previous - current) * 100) == 100 * a);
    let whole = a / b;
    let part = hundredths(a % b, b);
    proof {
        lemma_hundredfold_div(a as int, b as int);
    }
    let ghost q0: int = (100 * a) / (b as int);
    assert(q0 == 100 * whole + part);
    assert(q0 >= 0) by (nonlinear_arith)
        requires q0 == (100 * a) / (b as int), a >= 0, b > 0,
    ;
    let q: u128 = match whole.checked_mul(100) {
        None => return None,
        Some(w) => match w.checked_add(part) {
            None => return None,
            Some(q) => q,
        },
    };
    if (!falling) == (previous < 0) {
        if q > i128::MAX as u128 {
            None
        } else {
            Some(q as i128)
        }
    } else if q > 0x8000_0000_0000_0000_0000_0000_0000_0000u128 {
        None
    } else if q == 0x8000_0000_0000_0000_0000_0000_0000_0000u128 {
        Some(i128::MIN)
    } else {
        Some(-(q as i128))
    }
}

/// `x - y` for `x >= y`, which always fits a `u128`.
fn gap(x: i128, y: i128) -> (r: u128)
    requires
        x >= y,
    ensures
        r as int == x - y,
{
    if y >= 0 || x < 0 {
        (x - y) as u128
    } else {
        x as u128 + magnitude(y)
    }
}

/// Splitting off whole multiples: `100a / b` is a hundred times `a / b`
/// plus the hundredfold remainder divided by `b`.
proof fn lemma_hundredfold_div(a: int, b: int)
    requires
        a >= 0,
        b > 0,
    ensures
        (100 * a) / b == 100 * (a / b) + (100 * (a % b)) / b,
{
    let w = a / b;
    let r = a % b;
    let p = (100 * r) / b;
    let s = (100 * r) % b;
    vstd::arithmetic::div_mod::lemma_fundamental_div_mod(a, b);
    vstd::arithmetic::div_mod::lemma_fundamental_div_mod(100 * r, b);
    assert(0 <= s < b);
    assert(100 * a == (100 * w + p) * b + s) by (nonlinear_arith)
        requires a == b * w + r, 100 * r == b * p + s,
    ;
    vstd::arithmetic::div_mod::lemma_fundamental_div_mod_converse(100 * a, b, 100 * w + p, s);
}

/// `(100 * r) / b` for a remainder `r < b`, by a hundred additions that
/// never leave `u128`.
fn hundredths(r: u128, b: u128) -> (q: u128)
    requires
        r < b,
        b <= 0x8000_0000_0000_0000_0000_0000_0000_0000u128,
    ensures
        q as int == (100 * r) / (b as int),
{
    let mut q: u128 = 0;
    let mut acc: u128 = 0;
    let mut i: u128 = 0;
    while i < 100
        invariant
            r < b,
            b <= 0x8000_0000_0000_0000_0000_0000_0000_0000u128,
            i <= 100,
            q <= i,
            acc < b,
            i * r == q * b + acc,
        decreases 100 - i,
    {
        acc = acc + r;
        if acc >= b {
            acc = acc - b;
            q = q + 1;
        }
        proof {
            assert((i + 1) * r == i * r + r) by (nonlinear_arith);
            assert((q as int) * b == (q as int - 1) * b + b) by (nonlinear_arith);
        }
        i = i + 1;
    }
    proof {
        vstd::arithmetic::div_mod::lemma_fundamental_div_mod_converse(100 * r, b as int, q as int, acc as int);
    }
    q
}

/// The absolute value of `x`, which always fits a `u128`.
fn magnitude(x: i128) -> (r: u128)
    ensures
        r as int == abs(x as int),
{
    if x >= 0 {
        x as u128
    } else {
        ((-(x + 1)) as u128) + 1
    }
}

/// Reads prices from a feed, keeping the last observed sample and a
/// history keyed by sample timestamp.
pub struct ReflectorReader {
    pub last: Option<PriceData>,
    pub history: HashMap<u64, i128>,
}

impl ReflectorReader {
    /// A reader that has observed nothing yet.
    pub fn new() -> (r: ReflectorReader)
        ensures
            r.last.is_none(),
            r.history@ == Map::<u64, i128>::empty(),
    {
        ReflectorReader { last: None, history: HashMap::new() }
    }

    /// The reader after it has taken in the feed answer `fetched`: a real
    /// sample replaces the cache and lands in the history; no answer leaves
    /// everything as it was.
    pub open spec fn observed(self, fetched: Option<PriceData>) -> (Option<PriceData>, Map<u64, i128>) {
        match fetched {
            Some(p) => (Some(p), self.history@.insert(p.timestamp, p.price)),
            None => (self.last, self.history@),
        }
    }

    /// Takes in the feed's answer for an asset and returns the sample, or the
    /// zero sentinel stamped `now` when the feed had none.
    pub fn get_price(&mut self, fetched: Option<PriceData>, now: u64) -> (r: PriceData)
        ensures
            r == sample_or_sentinel(fetched, now),
            (final(self).last, final(self).history@) == old(self).observed(fetched),
    {
        match fetched {
            Some(p) => {
                self.last = Some(p);
                self.history.insert(p.timestamp, p.price);
                p
            },
            None => PriceData { price: 0, timestamp: now },
        }
    }

    /// Takes in the feed's answer and tells whether the price fell by at
    /// least `threshold_percent` since the sample cached before this call.
    pub fn check_price_drop_threshold(
        &mut self,
        fetched: Option<PriceData>,
        now: u64,
        threshold_percent: u32,
    ) -> (r: bool)
        ensures
            r == drop_triggered(old(self).last, sample_or_sentinel(fetched, now), threshold_percent as int),
            (final(self).last, final(self).history@) == old(self).observed(fetched),
    {
        let previous = self.last;
        let current = self.get_price(fetched, now);
        drop_exceeds(previous, current, threshold_percent)
    }

    /// The recorded prices at `from`, `from + 300`, ... up to `to`.
    pub fn get_price_history(&self, from_timestamp: u64, to_timestamp: u64) -> (r: Vec<(u64, i128)>)
        ensures
            r@ == history_slots(self.history@, from_timestamp as int, to_timestamp as int),
    {
        let mut out: Vec<(u64, i128)> = Vec::new();
        let mut t: u64 = from_timestamp;
        loop
            invariant
                from_timestamp <= t,
                history_slots(self.history@, from_timestamp as int, to_timestamp as int) == out@
                    + history_slots(self.history@, t as int, to_timestamp as int),
            decreases u64::MAX - t,
        {
            if t > to_timestamp {
                return out;
            }
            match self.history.get(&t) {
                Some(p) => {
                    out.push((t, *p));
                },
                None => {},
            }
            match t.checked_add(HISTORY_STEP) {
                Some(next) => {
                    t = next;
                },
                None => {
                    assert(history_slots(self.history@, t + 300, to_timestamp as int) =~= Seq::empty());
                    assert(out@ + Seq::<(u64, i128)>::empty() =~= out@);
                    return out;
                },
            }
        }
    }
}

/// Evaluates the drop predicate on an earlier and a current sample.
pub fn drop_exceeds(previous: Option<PriceData>, current: PriceData, threshold_percent: u32) -> (r: bool)
    ensures
        r == drop_triggered(previous, current, threshold_percent as int),
{
    if current.price == 0 {
        return false;
    }
    match previous {
        None => false,
        Some(prev) => {
            if prev.price == 0 {
                return false;
            }
            match drop_percent(prev.price, current.price) {
                Some(d) => d >= threshold_percent as i128,
                None => false,
            }
        },
    }
}

/// The sample for a base/quote pair: the feed's answer, or the zero sentinel
/// stamped `now`. Neither the cache nor the history is touched.
pub fn get_cross_price(fetched: Option<PriceData>, now: u64) -> (r: PriceData)
    ensures
        r == sample_or_sentinel(fetched, now),
{
    match fetched {
        Some(p) => p,
        None => PriceData { price: 0, timestamp: now },
    }
}

/// A price lowered by `drop_percentage` percent, rounded toward zero, when
/// every intermediate value fits an `i128`.
pub open spec fn price_after_drop_spec(price: int, drop_percentage: int) -> Option<int> {
    let scaled = price * (100 - drop_percentage);
    if scaled < i128::MIN || scaled > i128::MAX {
        None
    } else {
        Some(trunc_div(scaled, 100))
    }
}

/// Lowers `price` by `drop_percentage` percent, as a test feed does when it
/// simulates a fall; `None` where the product leaves `i128`.
pub fn price_after_drop(price: i128, drop_percentage: u32) -> (r: Option<i128>)
    ensures
        r.is_some() == price_after_drop_spec(price as int, drop_percentage as int).is_some(),
        r.is_some() ==> r.unwrap() as int == price_after_drop_spec(price as int, drop_percentage as int).unwrap(),
{
    let factor: i128 = 100 - drop_percentage as i128;
    let scaled = match price.checked_mul(factor) {
        None => return None,
        Some(s) => s,
    };
    let m = magnitude(scaled);
    let q: u128 = m / 100;
    assert(q as int == abs(scaled as int) / abs(100));
    assert(q < 0x8000_0000_0000_0000_0000_0000_0000_0000u128) by (nonlinear_arith)
        requires q == m / 100, m <= 0x8000_0000_0000_0000_0000_0000_0000_0000u128,
    ;
    if scaled < 0 {
        Some(-(q as i128))
    } else {
        Some(q as i128)
    }
}

/// The predicate never fires without data: a zero current sample, no
/// earlier sample, or a zero earlier sample all give false.
pub proof fn lemma_no_trigger_without_data(previous: Option<PriceData>, current: PriceData, threshold: int)
    ensures
        current.price == 0 ==> !drop_triggered(previous, current, threshold),
        previous.is_none() ==> !drop_triggered(previous, current, threshold),
        previous.is_some() && previous.unwrap().price == 0 ==> !drop_triggered(previous, current, threshold),
{
}

/// A flat or rising price from a positive earlier sample never reaches a
/// threshold of one percent or more.
pub proof fn lemma_no_trigger_on_rise(previous: PriceData, current: PriceData, threshold: int)
    requires
        threshold >= 1,
        previous.price > 0,
        current.price >= previous.price,
    ensures
        !drop_triggered(Some(previous), current, threshold),
{
    let scaled = (previous.price - current.price) * 100;
    let q = abs(scaled) / abs(previous.price as int);
    assert(q >= 0) by (nonlinear_arith)
        requires q == abs(scaled) / abs(previous.price as int), abs(scaled) >= 0, abs(previous.price as int) > 0,
    ;
    assert(scaled <= 0) by (nonlinear_arith)
        requires scaled == (previous.price - current.price) * 100, current.price >= previous.price,
    ;
}

/// Rounding toward zero keeps the order of numerators over a positive
/// divisor.
proof fn lemma_trunc_div_ordered(x: int, y: int, p: int)
    requires
        x <= y,
        p > 0,
    ensures
        trunc_div(x, p) <= trunc_div(y, p),
{
    if x >= 0 {
        vstd::arithmetic::div_mod::lemma_div_is_ordered(x, y, p);
    } else if y < 0 {
        vstd::arithmetic::div_mod::lemma_div_is_ordered(-y, -x, p);
    } else {
        vstd::arithmetic::div_mod::lemma_div_pos_is_pos(-x, p);
        vstd::arithmetic::div_mod::lemma_div_pos_is_pos(y, p);
    }
}

/// Between positive prices, a lower current price drops at least as far:
/// where one current price reaches the threshold, every lower positive one
/// does too.
pub proof fn lemma_lower_price_drops_further(previous: PriceData, higher: PriceData, lower: PriceData, threshold: int)
    requires
        previous.price > 0,
        0 < lower.price <= higher.price,
        drop_triggered(Some(previous), higher, threshold),
    ensures
        drop_triggered(Some(previous), lower, threshold),
{
    let p = previous.price as int;
    let x1 = (p - higher.price) * 100;
    let x2 = (p - lower.price) * 100;
    lemma_trunc_div_ordered(x1, x2, p);
    lemma_trunc_div_ordered(x2, 100 * p, p);
    vstd::arithmetic::div_mod::lemma_div_multiples_vanish(100, p);
    assert((100 * p) / p == 100) by {
        vstd::arithmetic::mul::lemma_mul_is_commutative(100, p);
    }
}

} // verus!
