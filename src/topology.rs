//! Lattice topologies: the directions in which a site infects, and their rates.
use vstd::prelude::*;
use crate::clock::{Rate, SimError};

verus! {

/// Model parameters are given in millionths: `1_000_000` stands for 1.
pub const PARAM_SCALE: i64 = 1_000_000;

/// The two topologies that take a split parameter `alpha`.
#[derive(Clone, Copy, Debug, PartialEq, Eq, Structural)]
pub enum SimAlphaType {
    TwoD,
    OneDB,
}

/// A lattice and its infection directions.
///
/// * `Line`: left and right, each at rate `lambda`.
/// * `LineExtended`: left and right at `lambda * alpha`, two to the left and
///   two to the right at `lambda * (1 - alpha)`.
/// * `Grid`: left and right at `lambda * alpha`, up and down at
///   `lambda * (1 - alpha)`.
#[derive(Clone, Copy, Debug, PartialEq, Eq, Structural)]
pub enum Topology {
    Line,
    LineExtended,
    Grid,
}

/// A lattice position; `y` stays 0 on the one-dimensional lattices.
#[derive(Clone, Copy, Debug, PartialEq, Eq, Structural)]
pub struct Coord {
    pub x: i64,
    pub y: i64,
}

/// The coordinate reached from `c` in direction `d`, when it lies in range.
pub open spec fn target_of(t: Topology, c: Coord, d: int) -> Option<Coord> {
    let (dx, dy) = offset(t, d);
    let x = c.x + dx;
    let y = c.y + dy;
    if i64::MIN <= x <= i64::MAX && i64::MIN <= y <= i64::MAX {
        Some(Coord { x: x as i64, y: y as i64 })
    } else {
        None
    }
}

pub open spec fn dir_count(t: Topology) -> nat {
    match t {
        Topology::Line => 2,
        _ => 4,
    }
}

/// The offset of direction `d`, in declaration order.
pub open spec fn offset(t: Topology, d: int) -> (int, int) {
    if d == 0 {
        (-1, 0)
    } else if d == 1 {
        (1, 0)
    } else {
        match t {
            Topology::Grid => if d == 2 { (0, 1) } else { (0, -1) },
            _ => if d == 2 { (-2, 0) } else { (2, 0) },
        }
    }
}

/// The numerators of the derived rates, in declaration order. Their
/// denominator is `PARAM_SCALE` on the line and `PARAM_SCALE²` otherwise.
pub open spec fn rate_nums(t: Topology, lambda: int, alpha: int) -> Seq<int> {
    match t {
        Topology::Line => seq![lambda, lambda],
        _ => seq![
            lambda * alpha,
            lambda * alpha,
            lambda * (PARAM_SCALE - alpha),
            lambda * (PARAM_SCALE - alpha),
        ],
    }
}

pub open spec fn rate_den(t: Topology) -> int {
    match t {
        Topology::Line => PARAM_SCALE as int,
        _ => PARAM_SCALE * PARAM_SCALE,
    }
}

/// Every derived rate is strictly positive.
pub open spec fn params_valid(t: Topology, lambda: int, alpha: int) -> bool {
    forall|i: int| 0 <= i < rate_nums(t, lambda, alpha).len() ==> rate_nums(t, lambda, alpha)[i] > 0
}

/// The rates derived from the parameters match the topology's directions.
pub open spec fn rates_match(t: Topology, lambda: int, alpha: int, rates: Seq<Rate>) -> bool {
    &&& rates.len() == dir_count(t)
    &&& forall|i: int|
        0 <= i < rates.len() ==> rates[i].num == rate_nums(t, lambda, alpha)[i] && rates[i].den
            == rate_den(t)
}

pub open spec fn sim_topology(t: SimAlphaType) -> Topology {
    match t {
        SimAlphaType::TwoD => Topology::Grid,
        SimAlphaType::OneDB => Topology::LineExtended,
    }
}

impl SimAlphaType {
    pub fn topology(self) -> (r: Topology)
        ensures
            r == sim_topology(self),
    {
        match self {
            SimAlphaType::TwoD => Topology::Grid,
            SimAlphaType::OneDB => Topology::LineExtended,
        }
    }
}

impl Topology {
    pub fn direction_count(self) -> (r: usize)
        ensures
            r == dir_count(self),
    {
        match self {
            Topology::Line => 2,
            _ => 4,
        }
    }

    /// The coordinate reached from `c` in direction `d`, or `None` where it
    /// lies outside the range of the coordinate type.
    pub fn neighbor(self, c: Coord, d: usize) -> (r: Option<Coord>)
        requires
            d < dir_count(self),
        ensures
            ({
                let (dx, dy) = offset(self, d as int);
                let x = c.x + dx;
                let y = c.y + dy;
                let in_range = i64::MIN <= x <= i64::MAX && i64::MIN <= y <= i64::MAX;
                &&& r is Some <==> in_range
                &&& r matches Some(n) ==> n.x == x && n.y == y
            }),
            r == target_of(self, c, d as int),
    {
        let (dx, dy): (i64, i64) = if d == 0 {
            (-1, 0)
        } else if d == 1 {
            (1, 0)
        } else {
            match self {
                Topology::Grid => if d == 2 { (0, 1) } else { (0, -1) },
                _ => if d == 2 { (-2, 0) } else { (2, 0) },
            }
        };
        match (c.x.checked_add(dx), c.y.checked_add(dy)) {
            (Some(x), Some(y)) => Some(Coord { x, y }),
            _ => None,
        }
    }

    /// Derives the rate of each direction from `lambda` and `alpha` (both in
    /// millionths). `alpha` plays no part on the `Line`.
    ///
    /// Fails with `InvalidParameter` exactly when some derived rate is not
    /// strictly positive.
    pub fn rates(self, lambda: i64, alpha: i64) -> (r: Result<Vec<Rate>, SimError>)
        ensures
            r is Err <==> !params_valid(self, lambda as int, alpha as int),
            r matches Err(e) ==> e == SimError::InvalidParameter,
            r matches Ok(v) ==> rates_match(self, lambda as int, alpha as int, v@),
            r matches Ok(v) ==> forall|i: int| 0 <= i < v@.len() ==> #[trigger] v@[i].valid(),
    {
        let ghost l = lambda as int;
        let ghost a = alpha as int;
        match self {
            Topology::Line => {
                if lambda <= 0 {
                    assert(rate_nums(self, l, a)[0] <= 0);
                    return Err(SimError::InvalidParameter);
                }
                let r = Rate { num: lambda as u128, den: PARAM_SCALE as u128 };
                let v = vec![r, r];
                assert(params_valid(self, l, a));
                Ok(v)
            },
            _ => {
                if lambda <= 0 || alpha <= 0 || alpha >= PARAM_SCALE {
                    proof {
                        if l <= 0 {
                            if a > 0 {
                                assert(l * a <= 0) by (nonlinear_arith)
                                    requires l <= 0, a > 0;
                                assert(rate_nums(self, l, a)[0] <= 0);
                            } else {
                                assert(l * (PARAM_SCALE - a) <= 0) by (nonlinear_arith)
                                    requires l <= 0, a <= 0;
                                assert(rate_nums(self, l, a)[2] <= 0);
                            }
                        } else if a <= 0 {
                            assert(l * a <= 0) by (nonlinear_arith)
                                requires l > 0, a <= 0;
                            assert(rate_nums(self, l, a)[0] <= 0);
                        } else {
                            assert(l * (PARAM_SCALE - a) <= 0) by (nonlinear_arith)
                                requires l > 0, a >= PARAM_SCALE;
                            assert(rate_nums(self, l, a)[2] <= 0);
                        }
                    }
                    return Err(SimError::InvalidParameter);
                }
                let lu = lambda as u128;
                let au = alpha as u128;
                let bu = (PARAM_SCALE - alpha) as u128;
                assert(lu * au <= u128::MAX && lu * bu <= u128::MAX
                    && lu * au > 0 && lu * bu > 0) by (nonlinear_arith)
                    requires
                        0 < lu < 0x8000_0000_0000_0000,
                        0 < au < 0x8000_0000_0000_0000,
                        0 < bu < 0x8000_0000_0000_0000;
                let den: u128 = (PARAM_SCALE as u128) * (PARAM_SCALE as u128);
                let primary = Rate { num: lu * au, den };
                let secondary = Rate { num: lu * bu, den };
                let v = vec![primary, primary, secondary, secondary];
                assert(params_valid(self, l, a));
                Ok(v)
            },
        }
    }
}

} // verus!
