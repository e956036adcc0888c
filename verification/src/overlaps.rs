//! Laws of common boundaries: the length that two segments on one line have in common.
use vstd::prelude::*;

use crate::boundary::{along_line, off_line, overlap};
use crate::double::Double;
use crate::frames::point_within;
use crate::geom::Pt;
use crate::near::{
    abs, eps, huge, lemma_assoc, lemma_eps, lemma_le, lemma_minus_val, lemma_near_add, lemma_near_div, lemma_near_mul,
    lemma_near_sub, lemma_negated_val, lemma_one, lemma_ratio_val, lemma_val_order, lemma_zero, near, val,
};
use crate::tools::Hypot;

verus! {

/// The smaller of two numbers.
pub open spec fn least(a: real, b: real) -> real {
    if a <= b {
        a
    } else {
        b
    }
}

/// The greater of two numbers.
pub open spec fn greatest(a: real, b: real) -> real {
    if a <= b {
        b
    } else {
        a
    }
}

/// How far along the segment from `a` to `b`, of length `l`, the point `p` lies.
pub open spec fn along(p: Pt, a: Pt, b: Pt, l: real) -> real {
    (val(p.x) - val(a.x)) * ((val(b.x) - val(a.x)) / l) + (val(p.y) - val(a.y)) * ((val(b.y) - val(a.y)) / l)
}

/// How far to the left of the segment from `a` to `b`, of length `l`, the point `p` lies.
pub open spec fn aside(p: Pt, a: Pt, b: Pt, l: real) -> real {
    (val(p.y) - val(a.y)) * ((val(b.x) - val(a.x)) / l) - (val(p.x) - val(a.x)) * ((val(b.y) - val(a.y)) / l)
}

proof fn lemma_scale(m: real)
    requires
        1real <= m,
    ensures
        0real < eps() * m,
        eps() <= eps() * m,
        eps() * m * 0x20000000000000real == m,
        eps() * (2real * m) == 2real * (eps() * m),
        eps() * (8real * m) == 8real * (eps() * m),
        eps() * (16real * m) == 16real * (eps() * m),
{
    lemma_eps();
    lemma_le(1real, m, eps());
    lemma_assoc(0x20000000000000real, eps(), m);
    assert(1real * m == m);
    lemma_assoc(eps(), 2real, m);
    lemma_assoc(eps(), 8real, m);
    lemma_assoc(eps(), 16real, m);
}

/// A leg over the hypotenuse.
proof fn lemma_leg(p: Double, q: Double, l: Double)
    requires
        p.finite(),
        q.finite(),
        l.finite(),
        1real <= val(l),
        abs(val(p) - val(q)) <= val(l) <= huge(),
    ensures
        near(p.minus(q).over(l), (val(p) - val(q)) / val(l), 8real * eps()),
        abs((val(p) - val(q)) / val(l)) <= 1real,
{
    lemma_eps();
    lemma_one();
    lemma_minus_val(p, q);
    let r = val(p) - val(q);
    let y = val(l);
    let e = eps();
    let er = e * abs(r);
    lemma_le(e, 1real, abs(r));
    lemma_le(0real, e, abs(r));
    assert(0real * abs(r) == 0real && 1real * abs(r) == abs(r));
    let x = abs(r) + er;
    let q0 = x / y;
    assert(q0 <= 2real) by (nonlinear_arith)
        requires
            q0 == x / y,
            x <= 2real * y,
            y >= 1real,
    ;
    lemma_near_div(p.minus(q), r, er, l, 2real);
    let q1 = er / y;
    assert(er <= e * y) by {
        lemma_le(abs(r), y, e);
    }
    assert(q1 <= e) by (nonlinear_arith)
        requires
            q1 == er / y,
            er <= e * y,
            y >= 1real,
    ;
    let q2 = r / y;
    assert(q2 * y == r) by (nonlinear_arith)
        requires
            q2 == r / y,
            y >= 1real,
    ;
    assert(-1real <= q2 && q2 <= 1real) by (nonlinear_arith)
        requires
            q2 * y == r,
            -y <= r <= y,
            y >= 1real,
    ;
}

/// The product of a difference of coordinates and a leg.
proof fn lemma_part(p: Double, a: Double, u: Double, w: real, m: real)
    requires
        p.finite(),
        a.finite(),
        abs(val(p)) <= m,
        abs(val(a)) <= m,
        near(u, w, 8real * eps()),
        abs(w) <= 1real,
        1real <= m,
        64real * m <= huge(),
    ensures
        near(p.minus(a).times(u), (val(p) - val(a)) * w, 36real * (eps() * m)),
        abs((val(p) - val(a)) * w) <= 2real * m,
{
    lemma_scale(m);
    lemma_eps();
    let em = eps() * m;
    let r = val(p) - val(a);
    lemma_near_sub(p, val(p), 0real, a, val(a), 0real, 2real * m);
    assert((2real * m + 2real * em) * 2real <= 8real * m);
    lemma_near_mul(p.minus(a), r, 2real * em, u, w, 8real * eps(), 2real * m, 2real, 8real * m);
    lemma_assoc(2real * m, 8real, eps());
    assert(2real * m * (8real * eps()) == 16real * em) by {
        lemma_assoc(8real, 2real * m, eps());
        lemma_assoc(2real, m, eps());
    }
    crate::near::lemma_abs_mul(r, w);
    lemma_le(abs(w), 1real, abs(r));
}

proof fn lemma_along_off(p: Pt, a: Pt, b: Pt, l: Double, u: Pt, m: real)
    requires
        point_within(p, m),
        point_within(a, m),
        point_within(b, m),
        l.finite(),
        1real <= val(l) <= huge(),
        abs(val(b.x) - val(a.x)) <= val(l),
        abs(val(b.y) - val(a.y)) <= val(l),
        u == (Pt { x: b.x.minus(a.x).over(l), y: b.y.minus(a.y).over(l) }),
        1real <= m,
        64real * m <= huge(),
    ensures
        near(along_line(p, a, u), along(p, a, b, val(l)), 96real * (eps() * m)),
        near(off_line(p, a, u), abs(aside(p, a, b, val(l))), 96real * (eps() * m)),
        abs(along(p, a, b, val(l))) <= 4real * m,
{
    lemma_scale(m);
    lemma_eps();
    let em = eps() * m;
    let (wx, wy) = ((val(b.x) - val(a.x)) / val(l), (val(b.y) - val(a.y)) / val(l));
    lemma_leg(b.x, a.x, l);
    lemma_leg(b.y, a.y, l);
    lemma_part(p.x, a.x, u.x, wx, m);
    lemma_part(p.y, a.y, u.y, wy, m);
    let (rx, ry) = (val(p.x) - val(a.x), val(p.y) - val(a.y));
    lemma_near_add(
        p.x.minus(a.x).times(u.x),
        rx * wx,
        36real * em,
        p.y.minus(a.y).times(u.y),
        ry * wy,
        36real * em,
        16real * m,
    );
    lemma_negated_val(u.y);
    lemma_part(p.x, a.x, u.y.negated(), -wy, m);
    lemma_part(p.y, a.y, u.x, wx, m);
    assert(rx * (-wy) == -(rx * wy)) by (nonlinear_arith);
    let o = p.x.minus(a.x).times(u.y.negated()).plus(p.y.minus(a.y).times(u.x));
    lemma_near_add(
        p.x.minus(a.x).times(u.y.negated()),
        -(rx * wy),
        36real * em,
        p.y.minus(a.y).times(u.x),
        ry * wx,
        36real * em,
        16real * m,
    );
    lemma_abs_val(o);
}

/// The absolute value of a double.
proof fn lemma_abs_val(x: Double)
    requires
        x.finite(),
    ensures
        x.abs().finite(),
        val(x.abs()) == abs(val(x)),
{
    lemma_negated_val(x);
    lemma_zero();
    lemma_val_order(x, Double::zero());
    assert(x.abs() == x || x.abs() == x.negated());
    assert(!x.abs().neg());
    crate::near::lemma_val(x.abs());
    lemma_one();
}

/// The smaller and the greater of two numbers that are off.
proof fn lemma_ends(a: Double, ra: real, b: Double, rb: real, e: real)
    requires
        near(a, ra, e),
        near(b, rb, e),
    ensures
        near(a.min(b), least(ra, rb), e),
        near(a.max(b), greatest(ra, rb), e),
{
    lemma_val_order(a, b);
    lemma_val_order(b, a);
}

/// What two segments have in common: nothing if an end of the second is farther than a millionth of a foot off the
/// line of the first. Else it is the length of what lies between the ends of both, measured along the first, but
/// for rounding. The first is at least a foot long.
pub proof fn law_overlap(h: Hypot, a: (Pt, Pt), b: (Pt, Pt), m: real)
    requires
        point_within(a.0, m),
        point_within(a.1, m),
        point_within(b.0, m),
        point_within(b.1, m),
        ({
            let l = h(a.1.x.minus(a.0.x), a.1.y.minus(a.0.y));
            &&& l.finite()
            &&& 1real <= val(l) <= 4real * m
            &&& abs(val(a.1.x) - val(a.0.x)) <= val(l)
            &&& abs(val(a.1.y) - val(a.0.y)) <= val(l)
        }),
        1real <= m,
        64real * m <= huge(),
    ensures
        ({
            let l = val(h(a.1.x.minus(a.0.x), a.1.y.minus(a.0.y)));
            let (s, t) = (along(b.0, a.0, a.1, l), along(b.1, a.0, a.1, l));
            let (u, v) = (abs(aside(b.0, a.0, a.1, l)), abs(aside(b.1, a.0, a.1, l)));
            let both = greatest(0real, least(l, greatest(s, t)) - greatest(0real, least(s, t)));
            let e = 512real * (eps() * m);
            let far = 1real / 1000000real;
            &&& u > far + e || v > far + e ==> overlap(h, a, b) == Double::zero()
            &&& u < far - e && v < far - e ==> near(overlap(h, a, b), both, e)
        }),
{
    lemma_scale(m);
    lemma_eps();
    lemma_one();
    lemma_zero();
    let em = eps() * m;
    let la = h(a.1.x.minus(a.0.x), a.1.y.minus(a.0.y));
    let l = val(la);
    let u = Pt { x: a.1.x.minus(a.0.x).over(la), y: a.1.y.minus(a.0.y).over(la) };
    lemma_along_off(b.0, a.0, a.1, la, u, m);
    lemma_along_off(b.1, a.0, a.1, la, u, m);
    let far = Double::ratio(1, 1_000_000);
    let fr = (1u64 as real) / (1_000_000u64 as real);
    lemma_ratio_val(1, 1_000_000);
    lemma_le(fr, 1real, eps());
    assert(near(far, fr, 2real * em));
    let small = Double::ratio(1, 1_000_000_000);
    lemma_ratio_val(1, 1_000_000_000);
    let gr = (1u64 as real) / (1_000_000_000u64 as real);
    lemma_le(gr, 1real, eps());
    assert(val(small) < 1real);
    lemma_val_order(la, small);
    lemma_val_order(la, Double::zero());
    let (o0, o1) = (off_line(b.0, a.0, u), off_line(b.1, a.0, u));
    lemma_val_order(far, o0);
    lemma_val_order(far, o1);
    let (s, t) = (along_line(b.0, a.0, u), along_line(b.1, a.0, u));
    let (sr, tr) = (along(b.0, a.0, a.1, l), along(b.1, a.0, a.1, l));
    let e0 = 96real * em;
    lemma_val_order(t, s);
    let (b0, b1) = if t.lt(s) {
        (t, s)
    } else {
        (s, t)
    };
    lemma_ends(s, sr, t, tr, e0);
    assert(near(b0, least(sr, tr), e0) && near(b1, greatest(sr, tr), e0));
    lemma_ends(la, l, b1, greatest(sr, tr), e0);
    lemma_ends(Double::zero(), 0real, b0, least(sr, tr), e0);
    let (x, y) = (la.min(b1), Double::zero().max(b0));
    let (xr, yr) = (least(l, greatest(sr, tr)), greatest(0real, least(sr, tr)));
    lemma_near_sub(x, xr, e0, y, yr, e0, 16real * m);
    lemma_ends(x.minus(y), xr - yr, Double::zero(), 0real, 208real * em);
    assert(greatest(xr - yr, 0real) == greatest(0real, xr - yr));
}

} // verus!
