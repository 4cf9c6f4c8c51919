//! Grid cells: which cell a point falls in, and where that cell's centre is.
//!
//! All coordinates are fixed-point integers in units of `1 / SCALE` degree.
//! A cell along one axis is identified by `floor(coordinate / grid_size)`.
use vstd::prelude::*;
use vstd::string::StringSliceAdditionalSpecFns;
use crate::decimal::{fits_i64, is_decimal, parse_fixed, scaled_decimal};

verus! {

/// A grid size that cannot be used.
#[derive(Debug, Clone, Copy, PartialEq, Eq, Structural)]
pub enum ConfigurationError {
    /// The grid size is not a decimal number that fits the fixed-point range.
    InvalidGridSize,
    /// The grid size is zero or negative.
    NonPositiveGridSize,
}

/// Identity of a grid cell: its index along each axis. Distinct cells have
/// distinct keys, and keys order cells by longitude, then latitude.
#[derive(Debug, Clone, Copy, PartialEq, Eq, Structural, Hash, PartialOrd, Ord)]
pub struct CellKey {
    pub lon_index: i64,
    pub lat_index: i64,
}

/// The cell that holds the point `(longitude, latitude)`.
pub open spec fn key_of(longitude: int, latitude: int, grid_size: int) -> CellKey {
    CellKey {
        lon_index: (longitude / grid_size) as i64,
        lat_index: (latitude / grid_size) as i64,
    }
}

/// Strict order of keys: by longitude index, then latitude index.
pub open spec fn key_less(a: CellKey, b: CellKey) -> bool {
    a.lon_index < b.lon_index || (a.lon_index == b.lon_index && a.lat_index < b.lat_index)
}

/// Centre of cell `index` along one axis, in tenths of a degree, with halves
/// rounded up: `round(10 * grid_size * (index + 1/2) / SCALE)`.
pub open spec fn center_tenths(index: int, grid_size: int) -> int {
    (2 * (grid_size * index) + grid_size + 100_000_000) / 200_000_000
}

/// Cell centres never decrease as the cell index grows.
pub proof fn lemma_center_monotone(a: int, b: int, grid_size: int)
    requires
        a <= b,
        grid_size > 0,
    ensures
        center_tenths(a, grid_size) <= center_tenths(b, grid_size),
{
    assert(grid_size * a <= grid_size * b) by (nonlinear_arith)
        requires
            a <= b,
            grid_size > 0,
    ;
    vstd::arithmetic::div_mod::lemma_div_is_ordered(
        2 * (grid_size * a) + grid_size + 100_000_000,
        2 * (grid_size * b) + grid_size + 100_000_000,
        200_000_000,
    );
}

/// Reads a grid size, in degrees, as a fixed-point value.
pub fn parse_grid_size(text: &str) -> (r: Result<i64, ConfigurationError>)
    ensures
        match r {
            Ok(g) => is_decimal(text.spec_bytes()) && g == scaled_decimal(text.spec_bytes()) && g > 0,
            Err(ConfigurationError::NonPositiveGridSize) => is_decimal(text.spec_bytes())
                && fits_i64(scaled_decimal(text.spec_bytes())) && scaled_decimal(text.spec_bytes())
                <= 0,
            Err(ConfigurationError::InvalidGridSize) => !is_decimal(text.spec_bytes()) || !fits_i64(
                scaled_decimal(text.spec_bytes()),
            ),
        },
{
    match parse_fixed(text.as_bytes()) {
        Ok(g) => if g > 0 {
            Ok(g)
        } else {
            Err(ConfigurationError::NonPositiveGridSize)
        },
        Err(_) => Err(ConfigurationError::InvalidGridSize),
    }
}

/// Index of the cell that holds coordinate `x` along one axis.
fn axis_index(x: i64, grid_size: i64) -> (q: i64)
    requires
        grid_size > 0,
    ensures
        q == x as int / grid_size as int,
{
    proof {
        assert(i64::MIN <= x as int / grid_size as int <= i64::MAX) by (nonlinear_arith)
            requires
                grid_size > 0,
                i64::MIN <= x <= i64::MAX,
        ;
    }
    match x.checked_div_euclid(grid_size) {
        Some(q) => q,
        None => 0,
    }
}

/// The cell that holds the point `(longitude, latitude)`; a grid size of zero
/// or less is refused.
pub fn cell_key(longitude: i64, latitude: i64, grid_size: i64) -> (r: Result<
    CellKey,
    ConfigurationError,
>)
    ensures
        grid_size <= 0 ==> r == Err::<CellKey, ConfigurationError>(
            ConfigurationError::NonPositiveGridSize,
        ),
        grid_size > 0 ==> r == Ok::<CellKey, ConfigurationError>(
            key_of(longitude as int, latitude as int, grid_size as int),
        ),
{
    if grid_size <= 0 {
        return Err(ConfigurationError::NonPositiveGridSize);
    }
    Ok(
        CellKey {
            lon_index: axis_index(longitude, grid_size),
            lat_index: axis_index(latitude, grid_size),
        },
    )
}

/// Centre of cell `index` along one axis, in tenths of a degree.
pub fn cell_center_tenths(index: i64, grid_size: i64) -> (r: i128)
    requires
        grid_size > 0,
    ensures
        r == center_tenths(index as int, grid_size as int),
{
    let g = grid_size as i128;
    let i = index as i128;
    proof {
        assert(-0x3fff_ffff_ffff_ffff_8000_0000_0000_0000 <= g * i
            <= 0x3fff_ffff_ffff_ffff_8000_0000_0000_0000) by (nonlinear_arith)
            requires
                0 < g <= i64::MAX,
                i64::MIN <= i <= i64::MAX,
        ;
    }
    let numerator: i128 = 2 * (g * i) + g + 100_000_000;
    match numerator.checked_div_euclid(200_000_000) {
        Some(t) => t,
        None => 0,
    }
}

} // verus!
