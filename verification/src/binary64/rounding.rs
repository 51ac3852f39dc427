//! Rounding to the nearest binary64 magnitude, ties to even.

use vstd::prelude::*;

use crate::binary64::powers::{
    lemma_two_to_adds, lemma_two_to_increases, lemma_two_to_positive, lemma_two_to_step,
    lemma_two_to_values, two_to,
};
use crate::binary64::rank::{
    lemma_magnitude_increases, lemma_magnitude_step, lemma_rank_bounds, lemma_rank_parts, magnitude,
    BLOCK, INFINITE,
};

verus! {

/// An exact non-negative magnitude, before it is rounded.
pub enum Quantity {
    /// The quotient of two integers.
    Ratio { num: int, den: int },
    /// The square root of an integer.
    Root { square: int },
}

impl Quantity {
    /// The numbers that stand for a magnitude.
    pub open spec fn valid(self) -> bool {
        match self {
            Quantity::Ratio { num, den } => num >= 0 && den > 0,
            Quantity::Root { square } => square >= 0,
        }
    }

    /// Twice the quantity is greater than `x`.
    pub open spec fn above(self, x: int) -> bool {
        match self {
            Quantity::Ratio { num, den } => x * den < 2 * num,
            Quantity::Root { square } => x < 0 || x * x < 4 * square,
        }
    }

    /// Twice the quantity is `x`.
    pub open spec fn meets(self, x: int) -> bool {
        match self {
            Quantity::Ratio { num, den } => x * den == 2 * num,
            Quantity::Root { square } => x >= 0 && x * x == 4 * square,
        }
    }
}

/// Twice the midpoint between the magnitudes at ranks `r` and `r + 1`.
pub open spec fn midpoint(r: int) -> int {
    magnitude(r) + magnitude(r + 1)
}

/// Rounding `v` goes to a rank greater than `r`: `v` lies beyond the midpoint after `r`, or
/// on it while `r` is odd.
pub open spec fn passes(v: Quantity, r: int) -> bool {
    v.above(midpoint(r)) || (v.meets(midpoint(r)) && r % 2 != 0)
}

/// `r` is the rank of the number nearest to `v`. Of two numbers at the same distance the
/// one with the even rank is taken, and what lies past the largest finite number by half a
/// unit or more is infinite.
pub open spec fn is_nearest(v: Quantity, r: int) -> bool {
    &&& 0 <= r <= INFINITE
    &&& r > 0 ==> passes(v, r - 1)
    &&& r < INFINITE ==> !passes(v, r)
}

/// The rank of the number nearest to `v`.
pub open spec fn nearest(v: Quantity) -> int {
    choose|r: int| is_nearest(v, r)
}

/// What lies below a point that the quantity reaches lies strictly below the quantity.
pub proof fn lemma_quantity_order(v: Quantity, x: int, y: int)
    requires
        v.valid(),
        v.above(x) || v.meets(x),
        y < x,
    ensures
        v.above(y),
{
    match v {
        Quantity::Ratio { num, den } => {
            assert(y * den < x * den) by (nonlinear_arith)
                requires
                    y < x,
                    den > 0,
            ;
        },
        Quantity::Root { square } => {
            if y >= 0 {
                assert(y * y < x * x) by (nonlinear_arith)
                    requires
                        0 <= y < x,
                ;
            }
        },
    }
}

/// Midpoints increase strictly with rank.
pub proof fn lemma_midpoint_increases(a: int, b: int)
    requires
        0 <= a < b,
    ensures
        midpoint(a) < midpoint(b),
{
    lemma_magnitude_increases(a, b);
    lemma_magnitude_increases(a + 1, b + 1);
}

/// A quantity that passes a rank passes every smaller one.
pub proof fn lemma_passes_smaller(v: Quantity, a: int, b: int)
    requires
        v.valid(),
        0 <= a <= b,
        passes(v, b),
    ensures
        passes(v, a),
{
    if a < b {
        lemma_midpoint_increases(a, b);
        lemma_quantity_order(v, midpoint(b), midpoint(a));
    }
}

proof fn lemma_nearest_search(v: Quantity, h: int) -> (r: int)
    requires
        0 <= h <= INFINITE,
        h < INFINITE ==> !passes(v, h),
    ensures
        is_nearest(v, r),
    decreases h,
{
    if h == 0 || passes(v, h - 1) {
        h
    } else {
        lemma_nearest_search(v, h - 1)
    }
}

/// Every quantity has a nearest number.
pub proof fn lemma_nearest_exists(v: Quantity)
    ensures
        is_nearest(v, nearest(v)),
{
    let r = lemma_nearest_search(v, INFINITE as int);
}

/// A quantity has only one nearest number.
pub proof fn lemma_nearest_unique(v: Quantity, r: int)
    requires
        v.valid(),
        is_nearest(v, r),
    ensures
        nearest(v) == r,
{
    lemma_nearest_exists(v);
    let n = nearest(v);
    if n < r {
        lemma_passes_smaller(v, n, r - 1);
    }
    if r < n {
        lemma_passes_smaller(v, r, n - 1);
    }
}

/// `v` is `m` scaled by two to the power of `e`, or, with `rest`, lies strictly between that
/// and the next multiple.
pub open spec fn scaled(v: Quantity, m: int, e: int, rest: bool) -> bool {
    let up = two_to(e);
    let down = two_to(-e);
    if rest {
        forall|x: int|
            #![trigger v.above(x)]
            #![trigger v.meets(x)]
            {
                &&& x * down <= 2 * m * up ==> v.above(x)
                &&& x * down >= 2 * (m + 1) * up ==> !v.above(x) && !v.meets(x)
            }
    } else {
        forall|x: int|
            #![trigger v.above(x)]
            #![trigger v.meets(x)]
            {
                &&& v.above(x) <==> x * down < 2 * m * up
                &&& v.meets(x) <==> x * down == 2 * m * up
            }
    }
}

/// A magnitude cut off at rank `t * BLOCK + q` rounds to that rank or to the next one.
proof fn lemma_cut(v: Quantity, m: int, e: int, rest: bool, s: int, q: int, rem: int, up: bool)
    requires
        v.valid(),
        scaled(v, m, e, rest),
        s >= 0,
        e + s >= 0,
        rest ==> s > 0,
        m == q * two_to(s) + rem,
        0 <= rem < two_to(s),
        0 <= q < 2 * BLOCK,
        e + s > 0 ==> q >= BLOCK,
        up ==> 2 * rem > two_to(s) || (2 * rem == two_to(s) && (rest || q % 2 != 0)),
        !up ==> 2 * rem < two_to(s) || (2 * rem == two_to(s) && !rest && q % 2 == 0),
    ensures
        ({
            let r = (e + s) * BLOCK + q + (if up { 1int } else { 0int });
            nearest(v) == (if r < INFINITE { r } else { INFINITE as int })
        }),
{
    let t = e + s;
    let r = t * BLOCK + q;
    lemma_rank_parts(t, q);
    lemma_magnitude_step(r);
    lemma_two_to_positive(s);
    lemma_two_to_positive(t);
    let p = two_to(e);
    let z = two_to(-e);
    let unit = two_to(s);
    assert(two_to(t) * z == unit * p) by {
        if e >= 0 {
            lemma_two_to_adds(e, s);
            lemma_two_to_step(-e);
            assert(p * unit == unit * p && two_to(t) * 1 == two_to(t)) by (nonlinear_arith);
        } else {
            lemma_two_to_adds(t, -e);
            lemma_two_to_step(e);
            assert(unit * 1 == unit) by (nonlinear_arith);
        }
    }
    lemma_two_to_positive(e);
    lemma_two_to_positive(-e);
    let w = unit * p;
    assert(w >= 1) by (nonlinear_arith)
        requires
            unit >= 1,
            p >= 1,
            w == unit * p,
    ;
    // Every multiple of the unit in the last place, brought to the scale of `m`.
    assert forall|k: int| #[trigger] (k * two_to(t)) * z == k * w by {
        assert((k * two_to(t)) * z == k * (two_to(t) * z)) by (nonlinear_arith);
    }
    assert(2 * m * p == 2 * q * w + 2 * rem * p) by (nonlinear_arith)
        requires
            m == q * unit + rem,
            w == unit * p,
    ;
    assert(2 * (m + 1) * p == 2 * q * w + 2 * rem * p + 2 * p) by (nonlinear_arith)
        requires
            2 * m * p == 2 * q * w + 2 * rem * p,
    ;
    let mid = midpoint(r);
    assert(mid == (2 * q + 1) * two_to(t)) by (nonlinear_arith)
        requires
            mid == q * two_to(t) + (q * two_to(t) + two_to(t)),
    ;
    assert(mid * z == (2 * q + 1) * w);
    assert((2 * q + 1) * w == 2 * q * w + w) by (nonlinear_arith);
    assert(r % 2 == q % 2) by {
        assert(t * BLOCK == 2 * (t * 0x8_0000_0000_0000));
    }
    // The cut-off bits against half a unit decide whether `v` passes `r`.
    assert(passes(v, r) == up) by {
        assert(2 * rem < unit ==> 2 * rem * p + p <= w) by (nonlinear_arith)
            requires
                w == unit * p,
                p >= 1,
        ;
        assert(2 * rem > unit ==> 2 * rem * p >= w + p) by (nonlinear_arith)
            requires
                w == unit * p,
                p >= 1,
        ;
        assert(2 * rem == unit ==> 2 * rem * p == w) by (nonlinear_arith)
            requires
                w == unit * p,
        ;
        if rest && 2 * rem < unit {
            // The unit is even here, so a whole step of `m` still fits below the midpoint.
            lemma_two_to_step(s);
            let h = two_to(s - 1);
            assert(2 * rem + 2 <= unit);
            assert(2 * rem * p + 2 * p <= w) by (nonlinear_arith)
                requires
                    2 * rem + 2 <= unit,
                    w == unit * p,
                    p >= 1,
            ;
        }
        let b1 = v.above(mid);
        let b2 = v.meets(mid);
    }
    // `v` is not below the magnitude at `r` ...
    assert(r > 0 ==> passes(v, r - 1)) by {
        if r > 0 {
            lemma_magnitude_step(r - 1);
            let low = midpoint(r - 1);
            assert(2 * magnitude(r) == 2 * q * two_to(t)) by (nonlinear_arith)
                requires
                    magnitude(r) == q * two_to(t),
            ;
            assert(low * z < 2 * q * w) by (nonlinear_arith)
                requires
                    low < 2 * q * two_to(t),
                    (2 * q * two_to(t)) * z == 2 * q * w,
                    z >= 1,
            ;
            assert(2 * rem * p >= 0) by (nonlinear_arith)
                requires
                    rem >= 0,
                    p >= 1,
            ;
            assert(v.above(low));
        }
    }
    // ... and below the magnitude at `r + 1`.
    assert(!passes(v, r + 1)) by {
        lemma_magnitude_step(r + 1);
        let high = midpoint(r + 1);
        assert((2 * (q + 1)) * w == 2 * q * w + 2 * w) by (nonlinear_arith);
        assert(2 * magnitude(r + 1) == (2 * (q + 1)) * two_to(t)) by (nonlinear_arith)
            requires
                magnitude(r + 1) == q * two_to(t) + two_to(t),
        ;
        assert(high * z > (2 * (q + 1)) * w) by (nonlinear_arith)
            requires
                high > (2 * (q + 1)) * two_to(t),
                ((2 * (q + 1)) * two_to(t)) * z == (2 * (q + 1)) * w,
                z >= 1,
        ;
        assert(2 * rem * p + 2 * p <= 2 * w) by (nonlinear_arith)
            requires
                rem < unit,
                w == unit * p,
                p >= 1,
        ;
        let b1 = v.above(high);
        let b2 = v.meets(high);
    }
    let n = r + (if up { 1int } else { 0int });
    if n <= INFINITE {
        lemma_nearest_unique(v, n);
    } else {
        lemma_passes_smaller(v, INFINITE - 1, n - 1);
        lemma_nearest_unique(v, INFINITE as int);
    }
}

/// Moving a factor of two from the power into the significand changes nothing.
proof fn lemma_scaled_doubles(v: Quantity, m: int, e: int)
    requires
        scaled(v, m, e, false),
        e > 0,
    ensures
        scaled(v, 2 * m, e - 1, false),
{
    lemma_two_to_step(e);
    lemma_two_to_step(-e);
    lemma_two_to_step(1 - e);
    let p = two_to(e - 1);
    assert(2 * m * (2 * p) == 2 * (2 * m) * p) by (nonlinear_arith);
    assert forall|x: int|
        #![trigger v.above(x)]
        #![trigger v.meets(x)]
        {
            &&& v.above(x) <==> x * two_to(1 - e) < 2 * (2 * m) * p
            &&& v.meets(x) <==> x * two_to(1 - e) == 2 * (2 * m) * p
        } by {
        let b1 = v.above(x);
        let b2 = v.meets(x);
    }
}

/// A quantity below half of the smallest positive number rounds to zero.
proof fn lemma_tiny(v: Quantity, m: int, e: int, rest: bool)
    requires
        v.valid(),
        scaled(v, m, e, rest),
        e < 0,
        2 * (m + 1) <= two_to(-e),
        m >= 0,
    ensures
        nearest(v) == 0,
{
    lemma_two_to_values();
    lemma_rank_bounds(0);
    lemma_rank_bounds(1);
    lemma_two_to_step(e);
    assert(midpoint(0) == 1);
    assert(1 * two_to(-e) == two_to(-e));
    let b1 = v.above(1);
    let b2 = v.meets(1);
    lemma_nearest_unique(v, 0);
}

/// The rank of the number nearest to `m` scaled by two to the power of `e`. With `rest`, the
/// quantity to round lies strictly between that and the next multiple.
pub(crate) fn round_scaled(m: u128, e: i32, rest: bool, Ghost(v): Ghost<Quantity>) -> (r: u64)
    requires
        v.valid(),
        scaled(v, m as int, e as int, rest),
        m < 0x4000_0000_0000_0000_0000_0000_0000_0000,
        -8000 <= e <= 8000,
        rest ==> m >= 2 * BLOCK,
    ensures
        r == nearest(v),
        r <= INFINITE,
{
    let mut m: u128 = m;
    let mut e: i32 = e;
    if !rest {
        while m < BLOCK as u128 && e > 0
            invariant
                scaled(v, m as int, e as int, false),
                m < 0x4000_0000_0000_0000_0000_0000_0000_0000,
                -8000 <= e <= 8000,
            decreases e,
        {
            proof {
                lemma_scaled_doubles(v, m as int, e as int);
            }
            m = m * 2;
            e = e - 1;
        }
    }
    let low: u32 = if e < 0 {
        (-e) as u32
    } else {
        0
    };
    if low >= 127 {
        proof {
            lemma_two_to_values();
            if low > 127 {
                lemma_two_to_increases(127, low as int);
            }
            lemma_tiny(v, m as int, e as int, rest);
        }
        return 0;
    }
    let mut unit: u128 = 1;
    let mut s: u32 = 0;
    proof {
        lemma_two_to_values();
    }
    while s < low
        invariant
            s <= low,
            low < 127,
            unit == two_to(s as int),
        decreases low - s,
    {
        proof {
            lemma_two_to_values();
            lemma_two_to_step(s + 1);
            lemma_two_to_increases(s as int, 127);
        }
        unit = unit * 2;
        s = s + 1;
    }
    proof {
        lemma_two_to_positive(s as int);
    }
    let top: u128 = m / (2 * BLOCK as u128);
    while top >= unit
        invariant
            low <= s < 200,
            unit == two_to(s as int),
            unit >= 1,
            top == m as int / (2 * BLOCK),
            m < 0x4000_0000_0000_0000_0000_0000_0000_0000,
            s > low ==> m >= BLOCK * unit,
        decreases 200 - s,
    {
        proof {
            lemma_two_to_step(s + 1);
            lemma_two_to_values();
            if s >= 127 {
                if s > 127 {
                    lemma_two_to_increases(127, s as int);
                }
                assert(false);
            }
            assert(m >= BLOCK * (2 * unit)) by (nonlinear_arith)
                requires
                    top == m as int / (2 * BLOCK),
                    BLOCK > 0,
                    top >= unit,
            ;
        }
        unit = unit * 2;
        s = s + 1;
    }
    let q: u128 = m / unit;
    let rem: u128 = m % unit;
    proof {
        assert(m == q * unit + rem) by (nonlinear_arith)
            requires
                unit > 0,
                q == m / unit,
                rem == m % unit,
        ;
        assert(q < 2 * BLOCK) by (nonlinear_arith)
            requires
                m < 2 * BLOCK * unit,
                m == q * unit + rem,
                rem >= 0,
                unit > 0,
        ;
        assert(m >= BLOCK * unit ==> q >= BLOCK) by (nonlinear_arith)
            requires
                m == q * unit + rem,
                rem < unit,
                unit > 0,
        ;
        assert(BLOCK * 1 == BLOCK);
    }
    let up: bool = rem > unit - rem || (rem == unit - rem && (rest || q % 2 != 0));
    let t: i32 = e + s as i32;
    proof {
        lemma_cut(v, m as int, e as int, rest, s as int, q as int, rem as int, up);
    }
    if t >= 2046 {
        INFINITE
    } else {
        let carry: u64 = if up {
            1
        } else {
            0
        };
        t as u64 * BLOCK + q as u64 + carry
    }
}

} // verus!
