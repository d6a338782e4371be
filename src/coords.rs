//! Fixed-point coordinates and the grid cells derived from them.
//!
//! A coordinate is stored as degrees times 100,000 in an `i32`. The lookup
//! grid quantizes such a value into cells of 10,000 units (0.1 degree); the
//! near-duplicate pass uses cells of 1,000 units (about 1 km).
use vstd::prelude::*;

verus! {

/// Fixed-point units per degree.
pub const SCALE: i32 = 100000;

/// Fixed-point units per lookup grid cell (0.1 degree).
pub const CELL: i32 = 10000;

/// Fixed-point units per near-duplicate cell (0.01 degree, about 1 km).
pub const FINE_CELL: i32 = 1000;

/// A latitude in fixed point lies within [-90, 90] degrees.
pub open spec fn valid_lat(x: int) -> bool {
    -9_000_000 <= x <= 9_000_000
}

/// A longitude in fixed point lies within [-180, 180] degrees.
pub open spec fn valid_lon(x: int) -> bool {
    -18_000_000 <= x <= 18_000_000
}

/// Both halves of a fixed-point position are in range.
pub open spec fn valid_point(lat: i32, lon: i32) -> bool {
    valid_lat(lat as int) && valid_lon(lon as int)
}

/// `floor(x / d)` for a positive divisor (spec division is Euclidean).
pub open spec fn floor_div(x: int, d: int) -> int {
    x / d
}

/// The lookup grid cell of a fixed-point position.
pub open spec fn cell_of(lat: int, lon: int) -> (i16, i16) {
    (floor_div(lat, CELL as int) as i16, floor_div(lon, CELL as int) as i16)
}

/// The near-duplicate cell of a fixed-point position.
pub open spec fn fine_cell_of(lat: int, lon: int) -> (i16, i16) {
    (floor_div(lat, FINE_CELL as int) as i16, floor_div(lon, FINE_CELL as int) as i16)
}

/// Rounds `x / d` towards negative infinity, for `x` in the coordinate range.
fn floor_div_exec(x: i32, d: i32) -> (q: i32)
    requires
        -18_000_000 <= x <= 18_000_000,
        1 <= d <= 100_000,
    ensures
        q == floor_div(x as int, d as int),
        -18_000_000 <= q <= 18_000_000,
{
    if x >= 0 {
        let q = x / d;
        assert(q == floor_div(x as int, d as int));
        assert(q <= x) by (nonlinear_arith)
            requires
                q == x / d,
                x >= 0,
                d >= 1,
        ;
        q
    } else {
        let y: i32 = -(x + 1);
        let r = y / d;
        let q = -r - 1;
        assert(q == floor_div(x as int, d as int)) by (nonlinear_arith)
            requires
                y == -(x + 1),
                y >= 0,
                d >= 1,
                r == y / d,
                q == -r - 1,
        {
            assert(y == d * r + y % d);
            assert(0 <= y % d < d);
            assert(x == d * q + (d - 1 - y % d));
        }
        assert(r <= y) by (nonlinear_arith)
            requires
                r == y / d,
                y >= 0,
                d >= 1,
        ;
        q
    }
}

/// The lookup grid cell that holds a fixed-point position:
/// `floor(lat / 10000), floor(lon / 10000)`.
pub fn cell_key(lat: i32, lon: i32) -> (key: (i16, i16))
    requires
        valid_point(lat, lon),
    ensures
        key == cell_of(lat as int, lon as int),
        -900 <= key.0 <= 900,
        -1800 <= key.1 <= 1800,
{
    let a = floor_div_exec(lat, CELL);
    let b = floor_div_exec(lon, CELL);
    assert(-900 <= a <= 900) by (nonlinear_arith)
        requires
            a == (lat as int) / 10000,
            -9_000_000 <= lat <= 9_000_000,
    ;
    assert(-1800 <= b <= 1800) by (nonlinear_arith)
        requires
            b == (lon as int) / 10000,
            -18_000_000 <= lon <= 18_000_000,
    ;
    (a as i16, b as i16)
}

/// The near-duplicate cell that holds a fixed-point position:
/// `floor(lat / 1000), floor(lon / 1000)`.
pub fn fine_key(lat: i32, lon: i32) -> (key: (i16, i16))
    requires
        valid_point(lat, lon),
    ensures
        key == fine_cell_of(lat as int, lon as int),
{
    let a = floor_div_exec(lat, FINE_CELL);
    let b = floor_div_exec(lon, FINE_CELL);
    assert(-9000 <= a <= 9000) by (nonlinear_arith)
        requires
            a == (lat as int) / 1000,
            -9_000_000 <= lat <= 9_000_000,
    ;
    assert(-18000 <= b <= 18000) by (nonlinear_arith)
        requires
            b == (lon as int) / 1000,
            -18_000_000 <= lon <= 18_000_000,
    ;
    (a as i16, b as i16)
}

} // verus!
