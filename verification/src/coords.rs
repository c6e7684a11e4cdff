//! Grid coordinates, the viewer-position-to-tile mapping, and the nine-tile
//! desired neighborhood.

use vstd::prelude::*;

verus! {

/// A terrain tile's position in the uniform world grid. Equality is by value.
#[derive(Clone, Copy, PartialEq, Eq, Structural, Debug)]
pub struct GridCoord {
    pub x: i64,
    pub z: i64,
}

/// Division truncating toward zero. On `int`, `/` rounds toward negative
/// infinity, so the negative case goes through the magnitude instead.
pub open spec fn trunc_div(v: int, c: int) -> int
    recommends
        c > 0,
{
    if v >= 0 {
        v / c
    } else {
        -((-v) / c)
    }
}

/// The tile containing a viewer position: each axis divided by the cell size,
/// truncating toward zero. Truncation (rather than flooring) is deliberate:
/// positions within one cell of the origin on an axis all land in tile 0 on
/// that axis, so tile 0's catchment is two cells wide on each axis.
pub open spec fn tile_of(vx: int, vz: int, cs: int) -> GridCoord
    recommends
        cs > 0,
        i64::MIN < trunc_div(vx, cs) < i64::MAX,
        i64::MIN < trunc_div(vz, cs) < i64::MAX,
{
    GridCoord { x: trunc_div(vx, cs) as i64, z: trunc_div(vz, cs) as i64 }
}

/// Chebyshev distance at most one: `c` is `t` itself or one of its eight
/// grid-adjacent neighbors.
pub open spec fn adjacent(t: GridCoord, c: GridCoord) -> bool {
    &&& -1 <= c.x - t.x <= 1
    &&& -1 <= c.z - t.z <= 1
}

/// Every neighbor offset of `t` stays representable in the coordinate type.
pub open spec fn tile_interior(t: GridCoord) -> bool {
    &&& i64::MIN < t.x < i64::MAX
    &&& i64::MIN < t.z < i64::MAX
}

/// The nine desired coordinates around `t`, row-major from offset `(-1, -1)`
/// to `(1, 1)`.
pub open spec fn desired_seq(t: GridCoord) -> Seq<GridCoord>
    recommends
        tile_interior(t),
{
    seq![
        GridCoord { x: (t.x - 1) as i64, z: (t.z - 1) as i64 },
        GridCoord { x: (t.x - 1) as i64, z: t.z },
        GridCoord { x: (t.x - 1) as i64, z: (t.z + 1) as i64 },
        GridCoord { x: t.x, z: (t.z - 1) as i64 },
        GridCoord { x: t.x, z: t.z },
        GridCoord { x: t.x, z: (t.z + 1) as i64 },
        GridCoord { x: (t.x + 1) as i64, z: (t.z - 1) as i64 },
        GridCoord { x: (t.x + 1) as i64, z: t.z },
        GridCoord { x: (t.x + 1) as i64, z: (t.z + 1) as i64 },
    ]
}

/// The desired neighborhood as a set of coordinates.
pub open spec fn neighborhood(t: GridCoord) -> Set<GridCoord> {
    desired_seq(t).to_set()
}

/// For an interior tile the desired sequence lists exactly the adjacent
/// coordinates, with no repetitions.
pub proof fn lemma_desired_seq_adjacent(t: GridCoord)
    requires
        tile_interior(t),
    ensures
        forall|c: GridCoord| #[trigger] neighborhood(t).contains(c) <==> adjacent(t, c),
        desired_seq(t).no_duplicates(),
        neighborhood(t).finite(),
        neighborhood(t).len() == 9,
{
    let d = desired_seq(t);
    assert forall|c: GridCoord| #[trigger] neighborhood(t).contains(c) <==> adjacent(t, c) by {
        if adjacent(t, c) {
            if c.x == t.x - 1 {
                if c.z == t.z - 1 {
                    assert(d[0] == c);
                } else if c.z == t.z {
                    assert(d[1] == c);
                } else {
                    assert(d[2] == c);
                }
            } else if c.x == t.x {
                if c.z == t.z - 1 {
                    assert(d[3] == c);
                } else if c.z == t.z {
                    assert(d[4] == c);
                } else {
                    assert(d[5] == c);
                }
            } else {
                if c.z == t.z - 1 {
                    assert(d[6] == c);
                } else if c.z == t.z {
                    assert(d[7] == c);
                } else {
                    assert(d[8] == c);
                }
            }
            assert(d.contains(c));
        }
    }
    assert(d.no_duplicates());
    vstd::seq_lib::seq_to_set_is_finite::<GridCoord>(d);
    d.unique_seq_to_set();
}

/// The truncated quotient is no larger in magnitude than the dividend.
pub proof fn lemma_trunc_div_magnitude(v: int, c: int)
    requires
        c >= 1,
    ensures
        v >= 0 ==> 0 <= trunc_div(v, c) <= v,
        v < 0 ==> v <= trunc_div(v, c) <= 0,
{
    if v >= 0 {
        assert(0 <= v / c <= v) by (nonlinear_arith)
            requires
                v >= 0,
                c >= 1,
        ;
    } else {
        assert(0 <= (-v) / c <= -v) by (nonlinear_arith)
            requires
                -v > 0,
                c >= 1,
        ;
    }
}

/// The tile of a position away from the extremes of the coordinate type is an
/// interior tile.
pub proof fn lemma_tile_interior(vx: int, vz: int, cs: int)
    requires
        cs >= 1,
        i64::MIN < vx < i64::MAX,
        i64::MIN < vz < i64::MAX,
    ensures
        tile_interior(tile_of(vx, vz, cs)),
{
    lemma_trunc_div_magnitude(vx, cs);
    lemma_trunc_div_magnitude(vz, cs);
}

/// Division truncating toward zero on machine integers, for a positive
/// divisor; the magnitudes are divided as unsigned values.
pub fn trunc_div_i64(v: i64, c: i64) -> (r: i64)
    requires
        c >= 1,
        v > i64::MIN,
    ensures
        r as int == trunc_div(v as int, c as int),
{
    proof {
        lemma_trunc_div_magnitude(v as int, c as int);
    }
    if v >= 0 {
        let q: u64 = (v as u64) / (c as u64);
        q as i64
    } else {
        let m: i64 = -v;
        let q: u64 = (m as u64) / (c as u64);
        -(q as i64)
    }
}

/// The tile containing a viewer position, truncating toward zero on each axis.
pub fn tile_of_position(vx: i64, vz: i64, cs: i64) -> (t: GridCoord)
    requires
        cs >= 1,
        vx > i64::MIN,
        vz > i64::MIN,
    ensures
        t == tile_of(vx as int, vz as int, cs as int),
{
    GridCoord { x: trunc_div_i64(vx, cs), z: trunc_div_i64(vz, cs) }
}

} // verus!
