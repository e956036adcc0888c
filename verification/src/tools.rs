//! The functions that planning is handed from outside.
//!
//! Sines and cosines, hypotenuses, unions and clippings of polygons are computed
//! elsewhere. A planning function takes them as arguments. Its contract says:
//! whatever function an argument computes, the result is the one that follows
//! from that function.
use vstd::prelude::*;

use crate::double::Double;
use crate::geom::{polygon_views, Polygon, PolygonView};

verus! {

/// What a sine-and-cosine function computes.
pub type Trig = spec_fn(Double) -> (Double, Double);

/// What a hypotenuse function computes.
pub type Hypot = spec_fn(Double, Double) -> Double;

/// What a union function computes.
pub type Union = spec_fn(Seq<PolygonView>) -> Seq<PolygonView>;

/// What a clipping function computes.
pub type Clip = spec_fn(PolygonView, PolygonView) -> Seq<PolygonView>;

/// `f` takes every angle.
pub open spec fn trig_total<T: Fn(Double) -> (Double, Double)>(f: T) -> bool {
    forall|x: Double| #[trigger] f.requires((x,))
}

/// `f` computes `t`.
pub open spec fn trig_is<T: Fn(Double) -> (Double, Double)>(f: T, t: Trig) -> bool {
    forall|x: Double, y: (Double, Double)| #[trigger] f.ensures((x,), y) ==> y == t(x)
}

/// `f` takes every pair of legs.
pub open spec fn hypot_total<H: Fn(Double, Double) -> Double>(f: H) -> bool {
    forall|x: Double, y: Double| #[trigger] f.requires((x, y))
}

/// `f` computes `h`.
pub open spec fn hypot_is<H: Fn(Double, Double) -> Double>(f: H, h: Hypot) -> bool {
    forall|x: Double, y: Double, z: Double| #[trigger] f.ensures((x, y), z) ==> z == h(x, y)
}

/// `f` takes every list of polygons.
pub open spec fn union_total<U: Fn(&Vec<Polygon>) -> Vec<Polygon>>(f: U) -> bool {
    forall|x: &Vec<Polygon>| #[trigger] f.requires((x,))
}

/// `f` computes `u`.
pub open spec fn union_is<U: Fn(&Vec<Polygon>) -> Vec<Polygon>>(f: U, u: Union) -> bool {
    forall|x: &Vec<Polygon>, y: Vec<Polygon>|
        #[trigger] f.ensures((x,), y) ==> polygon_views(y@) == u(polygon_views(x@))
}

/// `f` takes every two polygons.
pub open spec fn clip_total<C: Fn(&Polygon, &Polygon) -> Vec<Polygon>>(f: C) -> bool {
    forall|x: &Polygon, y: &Polygon| #[trigger] f.requires((x, y))
}

/// `f` computes `c`.
pub open spec fn clip_is<C: Fn(&Polygon, &Polygon) -> Vec<Polygon>>(f: C, c: Clip) -> bool {
    forall|x: &Polygon, y: &Polygon, z: Vec<Polygon>|
        #[trigger] f.ensures((x, y), z) ==> polygon_views(z@) == c(x@, y@)
}

/// All that planning a field is handed.
pub struct Tools<T, H, U, C> {
    /// The sine and the cosine of an angle in radians.
    pub sin_cos: T,
    /// The hypotenuse over two legs.
    pub hypot: H,
    /// The union of polygons whose rings are closed, as polygons whose rings
    /// are closed.
    pub union: U,
    /// What two polygons have in common, in the same form.
    pub clip: C,
}

/// What the functions of a [`Tools`] compute.
pub struct Meaning {
    pub sin_cos: Trig,
    pub hypot: Hypot,
    pub union: Union,
    pub clip: Clip,
}

impl<
    T: Fn(Double) -> (Double, Double),
    H: Fn(Double, Double) -> Double,
    U: Fn(&Vec<Polygon>) -> Vec<Polygon>,
    C: Fn(&Polygon, &Polygon) -> Vec<Polygon>,
> Tools<T, H, U, C> {
    /// The functions take all arguments.
    pub open spec fn total(self) -> bool {
        &&& trig_total(self.sin_cos)
        &&& hypot_total(self.hypot)
        &&& union_total(self.union)
        &&& clip_total(self.clip)
    }

    /// The functions compute those of `m`.
    pub open spec fn computes(self, m: Meaning) -> bool {
        &&& trig_is(self.sin_cos, m.sin_cos)
        &&& hypot_is(self.hypot, m.hypot)
        &&& union_is(self.union, m.union)
        &&& clip_is(self.clip, m.clip)
    }
}

/// What a parser of numbers computes: the number that a text stands for, if any.
pub type Parse = spec_fn(Seq<u8>) -> Option<Double>;

/// `f` takes every text.
pub open spec fn parse_total<F: Fn(&[u8]) -> Option<Double>>(f: F) -> bool {
    forall|x: &[u8]| #[trigger] f.requires((x,))
}

/// `f` computes `q`.
pub open spec fn parse_is<F: Fn(&[u8]) -> Option<Double>>(f: F, q: Parse) -> bool {
    forall|x: &[u8], y: Option<Double>| #[trigger] f.ensures((x,), y) ==> y == q(x@)
}

/// What a function of four numbers to two computes.
pub type Geodesic = spec_fn(Double, Double, Double, Double) -> (Double, Double);

/// `f` takes every four numbers.
pub open spec fn geodesic_total<F: Fn(Double, Double, Double, Double) -> (Double, Double)>(
    f: F,
) -> bool {
    forall|a: Double, b: Double, c: Double, d: Double| #[trigger] f.requires((a, b, c, d))
}

/// `f` computes `g`.
pub open spec fn geodesic_is<F: Fn(Double, Double, Double, Double) -> (Double, Double)>(
    f: F,
    g: Geodesic,
) -> bool {
    forall|a: Double, b: Double, c: Double, d: Double, y: (Double, Double)| #[trigger]
        f.ensures((a, b, c, d), y) ==> y == g(a, b, c, d)
}

/// What an arctangent of a quotient computes.
pub type Arctan = spec_fn(Double, Double) -> Double;

/// `f` takes every two numbers.
pub open spec fn arctan_total<F: Fn(Double, Double) -> Double>(f: F) -> bool {
    forall|y: Double, x: Double| #[trigger] f.requires((y, x))
}

/// `f` computes `a`.
pub open spec fn arctan_is<F: Fn(Double, Double) -> Double>(f: F, a: Arctan) -> bool {
    forall|y: Double, x: Double, r: Double| #[trigger] f.ensures((y, x), r) ==> r == a(y, x)
}

/// What the way between places on the earth is computed with.
pub struct Globe<I, D, A> {
    /// From the latitude and longitude of one place and of another: how many
    /// metres apart they are, and in which direction in degrees clockwise from
    /// north the other lies.
    pub inverse: I,
    /// From the latitude and longitude of a place, a direction and a distance in
    /// metres: the latitude and longitude of the place there.
    pub direct: D,
    /// The angle in radians whose tangent is the quotient of two numbers, in the
    /// quadrant that their signs tell.
    pub atan2: A,
}

/// What the functions of a [`Globe`] compute.
pub struct GlobeMeaning {
    pub inverse: Geodesic,
    pub direct: Geodesic,
    pub atan2: Arctan,
}

impl<
    I: Fn(Double, Double, Double, Double) -> (Double, Double),
    D: Fn(Double, Double, Double, Double) -> (Double, Double),
    A: Fn(Double, Double) -> Double,
> Globe<I, D, A> {
    /// The functions take all arguments.
    pub open spec fn total(self) -> bool {
        &&& geodesic_total(self.inverse)
        &&& geodesic_total(self.direct)
        &&& arctan_total(self.atan2)
    }

    /// The functions compute those of `m`.
    pub open spec fn computes(self, m: GlobeMeaning) -> bool {
        &&& geodesic_is(self.inverse, m.inverse)
        &&& geodesic_is(self.direct, m.direct)
        &&& arctan_is(self.atan2, m.atan2)
    }
}

} // verus!
