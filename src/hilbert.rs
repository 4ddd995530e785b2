use vstd::prelude::*;

verus! {

/// Side of the grid on which the Hilbert curve is walked.
pub const HILBERT_SIDE: u32 = 65536;

/// Distance along the Hilbert curve of the cell `(x, y)` in a square of side
/// `2 * s` (`s` a power of two): the quadrant's rank in curve order times the
/// quadrant's area, plus the distance inside the quadrant, reflected so that
/// each quadrant's curve enters and leaves where its neighbours meet it.
pub open spec fn hilbert_rec(x: int, y: int, s: nat) -> int
    decreases s,
{
    if s == 0 {
        0
    } else {
        let rx = x >= s;
        let ry = y >= s;
        let xl = if rx {
            x - s
        } else {
            x
        };
        let yl = if ry {
            y - s
        } else {
            y
        };
        let q: int = if !rx && !ry {
            0
        } else if !rx && ry {
            1
        } else if rx && ry {
            2
        } else {
            3
        };
        let xn = if ry {
            xl
        } else if rx {
            s - 1 - yl
        } else {
            yl
        };
        let yn = if ry {
            yl
        } else if rx {
            s - 1 - xl
        } else {
            xl
        };
        q * s * s + hilbert_rec(xn, yn, s / 2)
    }
}

/// Distance along the Hilbert curve of the cell `(x, y)` of the 65536 x 65536 grid.
pub open spec fn hilbert_spec(x: int, y: int) -> int {
    hilbert_rec(x, y, 32768)
}

/// Whether `s` is a power of two.
pub open spec fn is_pow2(s: nat) -> bool
    decreases s,
{
    if s == 1 {
        true
    } else if s >= 2 && s % 2 == 0 {
        is_pow2(s / 2)
    } else {
        false
    }
}

proof fn lemma_hilbert_range(x: int, y: int, s: nat)
    requires
        s == 0 || is_pow2(s),
        0 <= x < 2 * s || (s == 0 && x == 0),
        0 <= y < 2 * s || (s == 0 && y == 0),
    ensures
        0 <= hilbert_rec(x, y, s),
        s == 0 ==> hilbert_rec(x, y, s) == 0,
        s > 0 ==> hilbert_rec(x, y, s) < 4 * s * s,
    decreases s,
{
    if s > 0 {
        let h = s / 2;
        let rx = x >= s;
        let ry = y >= s;
        let xl = if rx { x - s } else { x };
        let yl = if ry { y - s } else { y };
        let xn = if ry { xl } else if rx { s - 1 - yl } else { yl };
        let yn = if ry { yl } else if rx { s - 1 - xl } else { xl };
        lemma_hilbert_range(xn, yn, h);
        let sub = hilbert_rec(xn, yn, h);
        assert(sub < s * s) by (nonlinear_arith)
            requires
                h == 0 ==> sub == 0,
                h > 0 ==> sub < 4 * h * h,
                h == 0 ==> s == 1,
                h > 0 ==> s == 2 * h,
        ;
        let q: int = if !rx && !ry { 0 } else if !rx && ry { 1 } else if rx && ry { 2 } else { 3 };
        assert(0 <= q * s * s + sub < 4 * s * s) by (nonlinear_arith)
            requires
                0 <= q <= 3,
                0 <= sub < s * s,
                s >= 1,
        ;
    }
}

/// The distance along the Hilbert curve of the cell `(x, y)` of the 65536 x 65536 grid.
pub fn hilbert(x: u32, y: u32) -> (r: u32)
    requires
        x < HILBERT_SIDE,
        y < HILBERT_SIDE,
    ensures
        r as int == hilbert_spec(x as int, y as int),
{
    let ghost x0 = x as int;
    let ghost y0 = y as int;
    let mut s: u64 = 32768;
    let mut x: u64 = x as u64;
    let mut y: u64 = y as u64;
    let mut d: u64 = 0;
    proof {
        reveal_with_fuel(is_pow2, 17);
        assert(is_pow2(32768));
        lemma_hilbert_range(x0, y0, 32768);
    }
    while s > 0
        invariant
            s == 0 || is_pow2(s as nat),
            s <= 32768,
            x < 2 * s || (s == 0 && x == 0),
            y < 2 * s || (s == 0 && y == 0),
            d + hilbert_rec(x as int, y as int, s as nat) == hilbert_spec(x0, y0),
            d + 4 * s * s <= 4294967296,
            hilbert_spec(x0, y0) < 4294967296,
        decreases s,
    {
        let rx = x >= s;
        let ry = y >= s;
        let xl = if rx { x - s } else { x };
        let yl = if ry { y - s } else { y };
        let q: u64 = if !rx && !ry {
            0
        } else if !rx && ry {
            1
        } else if rx && ry {
            2
        } else {
            3
        };
        let xn = if ry { xl } else if rx { s - 1 - yl } else { yl };
        let yn = if ry { yl } else if rx { s - 1 - xl } else { xl };
        assert(q * s * s <= 3 * s * s) by (nonlinear_arith)
            requires
                q <= 3,
        ;
        assert(q * s * s + 4 * (s / 2) * (s / 2) <= 4 * s * s) by (nonlinear_arith)
            requires
                q <= 3,
                s == 1 || s % 2 == 0,
        ;
        d = d + q * s * s;
        s = s / 2;
        x = xn;
        y = yn;
    }
    d as u32
}

} // verus!
