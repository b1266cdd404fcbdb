//! Surface area of a cloud of unit cubes.
//!
//! The scan is a set of cube positions on a grid.  A cube face is exposed
//! when no cube fills the neighbouring cell; the first count takes every
//! exposed face, pockets included.

use vstd::prelude::*;

verus! {

/// A cube position.
pub type Pos3 = (isize, isize, isize);

/// The scan: a list of distinct cube positions.
pub type Voxels = Vec<Pos3>;

/// Whether a cell holds a cube.
pub open spec fn has_cube(cubes: Seq<Pos3>, x: int, y: int, z: int) -> bool {
    exists|i: int|
        0 <= i < cubes.len() && (#[trigger] cubes[i]).0 == x && cubes[i].1 == y && cubes[i].2 == z
}

/// How many faces of one cube are exposed: its six neighbours, each empty
/// one counting one face.
pub open spec fn exposed_faces(cubes: Seq<Pos3>, x: int, y: int, z: int) -> int {
    (if has_cube(cubes, x - 1, y, z) {
        0int
    } else {
        1int
    }) + (if has_cube(cubes, x + 1, y, z) {
        0int
    } else {
        1int
    }) + (if has_cube(cubes, x, y - 1, z) {
        0int
    } else {
        1int
    }) + (if has_cube(cubes, x, y + 1, z) {
        0int
    } else {
        1int
    }) + (if has_cube(cubes, x, y, z - 1) {
        0int
    } else {
        1int
    }) + (if has_cube(cubes, x, y, z + 1) {
        0int
    } else {
        1int
    })
}

/// The exposed faces of the first `n` cubes, summed.
pub open spec fn total_exposed(cubes: Seq<Pos3>, n: int) -> int
    decreases n,
{
    if n <= 0 || n > cubes.len() {
        0
    } else {
        total_exposed(cubes, n - 1) + exposed_faces(
            cubes,
            cubes[n - 1].0 as int,
            cubes[n - 1].1 as int,
            cubes[n - 1].2 as int,
        )
    }
}

/// Whether the scan holds the cell, computed.
fn contains_cube(cubes: &Voxels, x: isize, y: isize, z: isize) -> (r: bool)
    ensures
        r == has_cube(cubes@, x as int, y as int, z as int),
{
    let mut i: usize = 0;
    while i < cubes.len()
        invariant
            i <= cubes@.len(),
            forall|k: int|
                0 <= k < i ==> !((#[trigger] cubes@[k]).0 == x && cubes@[k].1 == y && cubes@[k].2
                    == z),
        decreases cubes@.len() - i,
    {
        let (cx, cy, cz) = cubes[i];
        if cx == x && cy == y && cz == z {
            proof {
                assert(cubes@[i as int].0 == x && cubes@[i as int].1 == y && cubes@[i as int].2
                    == z);
            }
            return true;
        }
        i += 1;
    }
    false
}

/// The scan's coordinates stay off the machine edges, so each neighbour
/// cell exists.
pub open spec fn coords_fit(cubes: Seq<Pos3>) -> bool {
    forall|i: int|
        0 <= i < cubes.len() ==> isize::MIN < (#[trigger] cubes[i]).0 < isize::MAX && isize::MIN
            < cubes[i].1 < isize::MAX && isize::MIN < cubes[i].2 < isize::MAX
}

/// The total exposed surface of the scan, pockets included.
pub fn part1(cubes: &Voxels) -> (r: usize)
    requires
        coords_fit(cubes@),
        6 * cubes@.len() <= usize::MAX,
    ensures
        r == total_exposed(cubes@, cubes@.len() as int),
{
    let mut count: usize = 0;
    let mut i: usize = 0;
    proof {
        lemma_total_exposed_bound(cubes@, 0);
    }
    while i < cubes.len()
        invariant
            i <= cubes@.len(),
            coords_fit(cubes@),
            6 * cubes@.len() <= usize::MAX,
            count == total_exposed(cubes@, i as int),
            count <= 6 * i,
        decreases cubes@.len() - i,
    {
        let (x, y, z) = cubes[i];
        let mut faces: usize = 0;
        if !contains_cube(cubes, x - 1, y, z) {
            faces += 1;
        }
        if !contains_cube(cubes, x + 1, y, z) {
            faces += 1;
        }
        if !contains_cube(cubes, x, y - 1, z) {
            faces += 1;
        }
        if !contains_cube(cubes, x, y + 1, z) {
            faces += 1;
        }
        if !contains_cube(cubes, x, y, z - 1) {
            faces += 1;
        }
        if !contains_cube(cubes, x, y, z + 1) {
            faces += 1;
        }
        proof {
            assert(faces == exposed_faces(
                cubes@,
                cubes@[i as int].0 as int,
                cubes@[i as int].1 as int,
                cubes@[i as int].2 as int,
            ));
        }
        count = count + faces;
        i += 1;
    }
    count
}

/// No run of cubes exposes more than six faces each.
proof fn lemma_total_exposed_bound(cubes: Seq<Pos3>, n: int)
    ensures
        0 <= total_exposed(cubes, n),
        0 <= n <= cubes.len() ==> total_exposed(cubes, n) <= 6 * n,
    decreases n,
{
    if !(n <= 0 || n > cubes.len()) {
        lemma_total_exposed_bound(cubes, n - 1);
        let x = cubes[n - 1].0 as int;
        let y = cubes[n - 1].1 as int;
        let z = cubes[n - 1].2 as int;
        assert(total_exposed(cubes, n) == total_exposed(cubes, n - 1) + exposed_faces(
            cubes,
            x,
            y,
            z,
        ));
        assert(0 <= exposed_faces(cubes, x, y, z) <= 6);
    }
}

/// The coordinate of a cell along one axis.
pub open spec fn ccoord(p: Pos3, w: int) -> int {
    if w == 0 {
        p.0 as int
    } else if w == 1 {
        p.1 as int
    } else {
        p.2 as int
    }
}

/// The smallest coordinate along an axis among the first `n` cubes.
pub open spec fn lo_upto(cubes: Seq<Pos3>, n: int, w: int) -> int
    decreases n,
{
    if cubes.len() == 0 {
        0
    } else if n <= 1 {
        ccoord(cubes[0], w)
    } else if n > cubes.len() {
        lo_upto(cubes, cubes.len() as int, w)
    } else if ccoord(cubes[n - 1], w) < lo_upto(cubes, n - 1, w) {
        ccoord(cubes[n - 1], w)
    } else {
        lo_upto(cubes, n - 1, w)
    }
}

/// The largest coordinate along an axis among the first `n` cubes.
pub open spec fn hi_upto(cubes: Seq<Pos3>, n: int, w: int) -> int
    decreases n,
{
    if cubes.len() == 0 {
        0
    } else if n <= 1 {
        ccoord(cubes[0], w)
    } else if n > cubes.len() {
        hi_upto(cubes, cubes.len() as int, w)
    } else if ccoord(cubes[n - 1], w) > hi_upto(cubes, n - 1, w) {
        ccoord(cubes[n - 1], w)
    } else {
        hi_upto(cubes, n - 1, w)
    }
}

/// The smallest coordinate along an axis.
pub open spec fn lo_c(cubes: Seq<Pos3>, w: int) -> int {
    lo_upto(cubes, cubes.len() as int, w)
}

/// The largest coordinate along an axis.
pub open spec fn hi_c(cubes: Seq<Pos3>, w: int) -> int {
    hi_upto(cubes, cubes.len() as int, w)
}

/// The axis minimum is a lower bound on every seen cube.
proof fn lemma_lo_le(cubes: Seq<Pos3>, n: int, i: int, w: int)
    requires
        0 <= i < n <= cubes.len(),
    ensures
        lo_upto(cubes, n, w) <= ccoord(cubes[i], w),
    decreases n,
{
    if n > 1 && i < n - 1 {
        lemma_lo_le(cubes, n - 1, i, w);
    }
}

/// The axis maximum is an upper bound on every seen cube.
proof fn lemma_hi_ge(cubes: Seq<Pos3>, n: int, i: int, w: int)
    requires
        0 <= i < n <= cubes.len(),
    ensures
        hi_upto(cubes, n, w) >= ccoord(cubes[i], w),
    decreases n,
{
    if n > 1 && i < n - 1 {
        lemma_hi_ge(cubes, n - 1, i, w);
    }
}

/// Within one cell of the cubes' bounding box.
pub open spec fn in_box(cubes: Seq<Pos3>, x: int, y: int, z: int) -> bool {
    &&& lo_c(cubes, 0) - 1 <= x <= hi_c(cubes, 0) + 1
    &&& lo_c(cubes, 1) - 1 <= y <= hi_c(cubes, 1) + 1
    &&& lo_c(cubes, 2) - 1 <= z <= hi_c(cubes, 2) + 1
}

/// A cell steam can occupy: near the cubes but not inside one.
pub open spec fn free_cell(cubes: Seq<Pos3>, x: int, y: int, z: int) -> bool {
    in_box(cubes, x, y, z) && !has_cube(cubes, x, y, z)
}

/// The cell a flood of the exterior starts from: one step below the box's
/// low corner on every axis.
pub open spec fn is_corner(cubes: Seq<Pos3>, x: int, y: int, z: int) -> bool {
    x == lo_c(cubes, 0) - 1 && y == lo_c(cubes, 1) - 1 && z == lo_c(cubes, 2) - 1
}

/// The cell is reachable from the corner in at most `n` steps through free
/// cells.
pub open spec fn reach(cubes: Seq<Pos3>, x: int, y: int, z: int, n: nat) -> bool
    decreases n,
{
    if n == 0 {
        is_corner(cubes, x, y, z)
    } else {
        reach(cubes, x, y, z, (n - 1) as nat) || (free_cell(cubes, x, y, z) && (reach(
            cubes,
            x - 1,
            y,
            z,
            (n - 1) as nat,
        ) || reach(cubes, x + 1, y, z, (n - 1) as nat) || reach(cubes, x, y - 1, z, (n - 1) as nat)
            || reach(cubes, x, y + 1, z, (n - 1) as nat) || reach(cubes, x, y, z - 1, (n - 1) as nat)
            || reach(cubes, x, y, z + 1, (n - 1) as nat)))
    }
}

/// The cell belongs to the exterior: the corner's flood reaches it.
pub open spec fn outside_cell(cubes: Seq<Pos3>, x: int, y: int, z: int) -> bool {
    exists|n: nat| reach(cubes, x, y, z, n)
}

/// The two cells share a face.
pub open spec fn face_adjacent(x: int, y: int, z: int, nx: int, ny: int, nz: int) -> bool {
    ||| (nx == x + 1 && ny == y && nz == z)
    ||| (nx == x - 1 && ny == y && nz == z)
    ||| (nx == x && ny == y + 1 && nz == z)
    ||| (nx == x && ny == y - 1 && nz == z)
    ||| (nx == x && ny == y && nz == z + 1)
    ||| (nx == x && ny == y && nz == z - 1)
}

/// The corner cell is free: every cube sits at least one step above it on
/// each axis.
proof fn lemma_corner_free(cubes: Seq<Pos3>)
    requires
        cubes.len() > 0,
    ensures
        free_cell(cubes, lo_c(cubes, 0) - 1, lo_c(cubes, 1) - 1, lo_c(cubes, 2) - 1),
{
    lemma_lo_le(cubes, cubes.len() as int, 0, 0);
    lemma_hi_ge(cubes, cubes.len() as int, 0, 0);
    lemma_lo_le(cubes, cubes.len() as int, 0, 1);
    lemma_hi_ge(cubes, cubes.len() as int, 0, 1);
    lemma_lo_le(cubes, cubes.len() as int, 0, 2);
    lemma_hi_ge(cubes, cubes.len() as int, 0, 2);
    if has_cube(cubes, lo_c(cubes, 0) - 1, lo_c(cubes, 1) - 1, lo_c(cubes, 2) - 1) {
        let i = choose|i: int|
            0 <= i < cubes.len() && (#[trigger] cubes[i]).0 == lo_c(cubes, 0) - 1 && cubes[i].1
                == lo_c(cubes, 1) - 1 && cubes[i].2 == lo_c(cubes, 2) - 1;
        lemma_lo_le(cubes, cubes.len() as int, i, 0);
    }
}

/// A free neighbour of an exterior cell is exterior.
proof fn lemma_outside_step(
    cubes: Seq<Pos3>,
    x: int,
    y: int,
    z: int,
    nx: int,
    ny: int,
    nz: int,
)
    requires
        outside_cell(cubes, x, y, z),
        free_cell(cubes, nx, ny, nz),
        face_adjacent(x, y, z, nx, ny, nz),
    ensures
        outside_cell(cubes, nx, ny, nz),
{
    let n = choose|n: nat| reach(cubes, x, y, z, n);
    assert(reach(cubes, nx, ny, nz, n + 1)) by {
        if nx == x + 1 && ny == y && nz == z {
            assert(reach(cubes, nx - 1, ny, nz, n));
        } else if nx == x - 1 && ny == y && nz == z {
            assert(reach(cubes, nx + 1, ny, nz, n));
        } else if nx == x && ny == y + 1 && nz == z {
            assert(reach(cubes, nx, ny - 1, nz, n));
        } else if nx == x && ny == y - 1 && nz == z {
            assert(reach(cubes, nx, ny + 1, nz, n));
        } else if nx == x && ny == y && nz == z + 1 {
            assert(reach(cubes, nx, ny, nz - 1, n));
        } else {
            assert(reach(cubes, nx, ny, nz + 1, n));
        }
    }
}

/// Every free neighbour of the cell stands among the listed cells.
pub open spec fn nbs_in(cubes: Seq<Pos3>, vs: Seq<Pos3>, x: int, y: int, z: int) -> bool {
    &&& (free_cell(cubes, x + 1, y, z) ==> has_cube(vs, x + 1, y, z))
    &&& (free_cell(cubes, x - 1, y, z) ==> has_cube(vs, x - 1, y, z))
    &&& (free_cell(cubes, x, y + 1, z) ==> has_cube(vs, x, y + 1, z))
    &&& (free_cell(cubes, x, y - 1, z) ==> has_cube(vs, x, y - 1, z))
    &&& (free_cell(cubes, x, y, z + 1) ==> has_cube(vs, x, y, z + 1))
    &&& (free_cell(cubes, x, y, z - 1) ==> has_cube(vs, x, y, z - 1))
}

/// The listed cells are closed under stepping to free neighbours.
pub open spec fn flood_closed(cubes: Seq<Pos3>, vs: Seq<Pos3>) -> bool {
    forall|x: int, y: int, z: int|
        #[trigger] has_cube(vs, x, y, z) ==> nbs_in(cubes, vs, x, y, z)
}

/// A closed list holding the corner holds every cell the flood reaches.
proof fn lemma_reach_in(cubes: Seq<Pos3>, vs: Seq<Pos3>, x: int, y: int, z: int, n: nat)
    requires
        has_cube(vs, lo_c(cubes, 0) - 1, lo_c(cubes, 1) - 1, lo_c(cubes, 2) - 1),
        flood_closed(cubes, vs),
        reach(cubes, x, y, z, n),
    ensures
        has_cube(vs, x, y, z),
    decreases n,
{
    if n == 0 {
    } else if reach(cubes, x, y, z, (n - 1) as nat) {
        lemma_reach_in(cubes, vs, x, y, z, (n - 1) as nat);
    } else {
        if reach(cubes, x - 1, y, z, (n - 1) as nat) {
            lemma_reach_in(cubes, vs, x - 1, y, z, (n - 1) as nat);
        } else if reach(cubes, x + 1, y, z, (n - 1) as nat) {
            lemma_reach_in(cubes, vs, x + 1, y, z, (n - 1) as nat);
        } else if reach(cubes, x, y - 1, z, (n - 1) as nat) {
            lemma_reach_in(cubes, vs, x, y - 1, z, (n - 1) as nat);
        } else if reach(cubes, x, y + 1, z, (n - 1) as nat) {
            lemma_reach_in(cubes, vs, x, y + 1, z, (n - 1) as nat);
        } else if reach(cubes, x, y, z - 1, (n - 1) as nat) {
            lemma_reach_in(cubes, vs, x, y, z - 1, (n - 1) as nat);
        } else {
            lemma_reach_in(cubes, vs, x, y, z + 1, (n - 1) as nat);
        }
    }
}

/// Distinct cells within the box cannot number more than its volume.
proof fn lemma_box_volume(
    vs: Seq<Pos3>,
    lo0: int,
    hi0: int,
    lo1: int,
    hi1: int,
    lo2: int,
    hi2: int,
)
    requires
        lo0 <= hi0,
        lo1 <= hi1,
        lo2 <= hi2,
        forall|i: int, j: int|
            #![trigger vs[i], vs[j]]
            0 <= i < j < vs.len() ==> vs[i] != vs[j],
        forall|i: int|
            0 <= i < vs.len() ==> lo0 - 1 <= (#[trigger] vs[i]).0 <= hi0 + 1 && lo1 - 1 <= vs[i].1
                <= hi1 + 1 && lo2 - 1 <= vs[i].2 <= hi2 + 1,
    ensures
        vs.len() <= (hi0 - lo0 + 3) * (hi1 - lo1 + 3) * (hi2 - lo2 + 3),
{
    let ww = hi0 - lo0 + 3;
    let hh = hi1 - lo1 + 3;
    let dd = hi2 - lo2 + 3;
    let idx = vs.map_values(
        |p: Pos3| ((p.0 as int) - (lo0 - 1)) * (hh * dd) + ((p.1 as int) - (lo1 - 1)) * dd + ((
        p.2 as int) - (lo2 - 1)),
    );
    assert forall|i: int| 0 <= i < idx.len() implies 0 <= (#[trigger] idx[i]) < ww * (hh * dd) by {
        let a = (vs[i].0 as int) - (lo0 - 1);
        let b = (vs[i].1 as int) - (lo1 - 1);
        let c = (vs[i].2 as int) - (lo2 - 1);
        assert(0 <= a * (hh * dd) + b * dd + c < ww * (hh * dd)) by (nonlinear_arith)
            requires
                0 <= a < ww,
                0 <= b < hh,
                0 <= c < dd,
                hh >= 3,
                dd >= 3,
                ww >= 3,
        ;
    }
    assert forall|i: int, j: int|
        #![trigger idx[i], idx[j]]
        0 <= i < j < idx.len() implies idx[i] != idx[j] by {
        let a1 = (vs[i].0 as int) - (lo0 - 1);
        let b1 = (vs[i].1 as int) - (lo1 - 1);
        let c1 = (vs[i].2 as int) - (lo2 - 1);
        let a2 = (vs[j].0 as int) - (lo0 - 1);
        let b2 = (vs[j].1 as int) - (lo1 - 1);
        let c2 = (vs[j].2 as int) - (lo2 - 1);
        if idx[i] == idx[j] {
            assert(a1 == a2 && b1 == b2 && c1 == c2) by (nonlinear_arith)
                requires
                    a1 * (hh * dd) + b1 * dd + c1 == a2 * (hh * dd) + b2 * dd + c2,
                    0 <= b1 < hh,
                    0 <= b2 < hh,
                    0 <= c1 < dd,
                    0 <= c2 < dd,
                    hh >= 3,
                    dd >= 3,
            ;
            assert(vs[i] == vs[j]);
            assert(false);
        }
    }
    assert((ww * (hh * dd)) == ww * hh * dd) by (nonlinear_arith);
    crate::mixing::lemma_distinct_bounded_len(idx, ww * (hh * dd));
}

/// No cell is listed twice.
pub open spec fn cells_distinct(vs: Seq<Pos3>) -> bool {
    forall|i: int, j: int| #![trigger vs[i], vs[j]] 0 <= i < j < vs.len() ==> vs[i] != vs[j]
}

/// Every listed cell is an exterior cell inside the box.
pub open spec fn flood_inv(cubes: Seq<Pos3>, vs: Seq<Pos3>) -> bool {
    forall|i: int|
        0 <= i < vs.len() ==> outside_cell(
            cubes,
            (#[trigger] vs[i]).0 as int,
            vs[i].1 as int,
            vs[i].2 as int,
        ) && in_box(cubes, vs[i].0 as int, vs[i].1 as int, vs[i].2 as int)
}

/// Every queued cell is already listed.
pub open spec fn queue_sub(vs: Seq<Pos3>, q: Seq<Pos3>) -> bool {
    forall|i: int|
        0 <= i < q.len() ==> has_cube(vs, (#[trigger] q[i]).0 as int, q[i].1 as int, q[i].2 as int)
}

/// Every listed cell still waits in the queue, or already has all its free
/// neighbours listed.
pub open spec fn flood_settled(cubes: Seq<Pos3>, vs: Seq<Pos3>, q: Seq<Pos3>) -> bool {
    forall|i: int|
        0 <= i < vs.len() ==> has_cube(
            q,
            (#[trigger] vs[i]).0 as int,
            vs[i].1 as int,
            vs[i].2 as int,
        ) || nbs_in(cubes, vs, vs[i].0 as int, vs[i].1 as int, vs[i].2 as int)
}

/// The scan's coordinates stay well off the machine edges, so the box and
/// each probe around it exist.
pub open spec fn coords_deep(cubes: Seq<Pos3>) -> bool {
    forall|i: int|
        0 <= i < cubes.len() ==> isize::MIN + 2 < (#[trigger] cubes[i]).0 < isize::MAX - 2
            && isize::MIN + 2 < cubes[i].1 < isize::MAX - 2 && isize::MIN + 2 < cubes[i].2
            < isize::MAX - 2
}

/// The axis minimum is some cube's coordinate.
proof fn lemma_lo_achieved(cubes: Seq<Pos3>, n: int, w: int)
    requires
        0 < n <= cubes.len(),
    ensures
        exists|i: int| 0 <= i < n && ccoord(#[trigger] cubes[i], w) == lo_upto(cubes, n, w),
    decreases n,
{
    if n == 1 {
        assert(ccoord(cubes[0], w) == lo_upto(cubes, 1, w));
    } else {
        lemma_lo_achieved(cubes, n - 1, w);
        if ccoord(cubes[n - 1], w) < lo_upto(cubes, n - 1, w) {
            assert(ccoord(cubes[n - 1], w) == lo_upto(cubes, n, w));
        } else {
            let i = choose|i: int|
                0 <= i < n - 1 && ccoord(#[trigger] cubes[i], w) == lo_upto(cubes, n - 1, w);
            assert(ccoord(cubes[i], w) == lo_upto(cubes, n, w));
        }
    }
}

/// The axis maximum is some cube's coordinate.
proof fn lemma_hi_achieved(cubes: Seq<Pos3>, n: int, w: int)
    requires
        0 < n <= cubes.len(),
    ensures
        exists|i: int| 0 <= i < n && ccoord(#[trigger] cubes[i], w) == hi_upto(cubes, n, w),
    decreases n,
{
    if n == 1 {
        assert(ccoord(cubes[0], w) == hi_upto(cubes, 1, w));
    } else {
        lemma_hi_achieved(cubes, n - 1, w);
        if ccoord(cubes[n - 1], w) > hi_upto(cubes, n - 1, w) {
            assert(ccoord(cubes[n - 1], w) == hi_upto(cubes, n, w));
        } else {
            let i = choose|i: int|
                0 <= i < n - 1 && ccoord(#[trigger] cubes[i], w) == hi_upto(cubes, n - 1, w);
            assert(ccoord(cubes[i], w) == hi_upto(cubes, n, w));
        }
    }
}

/// The smallest coordinate along an axis, computed.
fn axis_lo(cubes: &Voxels, w: usize) -> (r: isize)
    requires
        cubes@.len() > 0,
        w < 3,
    ensures
        r as int == lo_c(cubes@, w as int),
{
    let (a, b, c) = cubes[0];
    let mut cur = if w == 0 {
        a
    } else if w == 1 {
        b
    } else {
        c
    };
    let mut i: usize = 1;
    while i < cubes.len()
        invariant
            1 <= i <= cubes@.len(),
            w < 3,
            cur as int == lo_upto(cubes@, i as int, w as int),
        decreases cubes@.len() - i,
    {
        let (a2, b2, c2) = cubes[i];
        let v = if w == 0 {
            a2
        } else if w == 1 {
            b2
        } else {
            c2
        };
        proof {
            assert(v as int == ccoord(cubes@[i as int], w as int));
        }
        if v < cur {
            cur = v;
        }
        i += 1;
    }
    cur
}

/// The largest coordinate along an axis, computed.
fn axis_hi(cubes: &Voxels, w: usize) -> (r: isize)
    requires
        cubes@.len() > 0,
        w < 3,
    ensures
        r as int == hi_c(cubes@, w as int),
{
    let (a, b, c) = cubes[0];
    let mut cur = if w == 0 {
        a
    } else if w == 1 {
        b
    } else {
        c
    };
    let mut i: usize = 1;
    while i < cubes.len()
        invariant
            1 <= i <= cubes@.len(),
            w < 3,
            cur as int == hi_upto(cubes@, i as int, w as int),
        decreases cubes@.len() - i,
    {
        let (a2, b2, c2) = cubes[i];
        let v = if w == 0 {
            a2
        } else if w == 1 {
            b2
        } else {
            c2
        };
        proof {
            assert(v as int == ccoord(cubes@[i as int], w as int));
        }
        if v > cur {
            cur = v;
        }
        i += 1;
    }
    cur
}

/// A listed cell stays listed when another is appended, and the appended
/// cell is listed.
proof fn lemma_has_cube_push(vs: Seq<Pos3>, p: Pos3)
    ensures
        forall|x: int, y: int, z: int|
            #[trigger] has_cube(vs, x, y, z) ==> has_cube(vs.push(p), x, y, z),
        has_cube(vs.push(p), p.0 as int, p.1 as int, p.2 as int),
{
    assert forall|x: int, y: int, z: int| #[trigger]
        has_cube(vs, x, y, z) implies has_cube(vs.push(p), x, y, z) by {
        let w = choose|w: int|
            0 <= w < vs.len() && (#[trigger] vs[w]).0 == x && vs[w].1 == y && vs[w].2 == z;
        assert(vs.push(p)[w] == vs[w]);
    }
    assert(vs.push(p)[vs.len() as int] == p);
}

/// A listed cell stays listed in a list that keeps the old places.
proof fn lemma_has_cube_prefix(qa: Seq<Pos3>, qb: Seq<Pos3>)
    requires
        qb.len() >= qa.len(),
        forall|i: int| 0 <= i < qa.len() ==> qb[i] == qa[i],
    ensures
        forall|x: int, y: int, z: int|
            #[trigger] has_cube(qa, x, y, z) ==> has_cube(qb, x, y, z),
{
    assert forall|x: int, y: int, z: int| #[trigger]
        has_cube(qa, x, y, z) implies has_cube(qb, x, y, z) by {
        let k = choose|k: int|
            0 <= k < qa.len() && (#[trigger] qa[k]).0 == x && qa[k].1 == y && qa[k].2 == z;
        assert(qb[k] == qa[k]);
    }
}

/// Take one neighbour of a just-popped exterior cell: when it is a free
/// cell not yet listed, list it and queue it; otherwise change nothing.
fn try_visit(
    cubes: &Voxels,
    visited: &mut Vec<Pos3>,
    queue: &mut Vec<Pos3>,
    nx: isize,
    ny: isize,
    nz: isize,
    lo0: isize,
    lo1: isize,
    lo2: isize,
    hi0: isize,
    hi1: isize,
    hi2: isize,
    from: Ghost<(int, int, int)>,
)
    requires
        cubes@.len() > 0,
        lo0 as int == lo_c(cubes@, 0),
        lo1 as int == lo_c(cubes@, 1),
        lo2 as int == lo_c(cubes@, 2),
        hi0 as int == hi_c(cubes@, 0),
        hi1 as int == hi_c(cubes@, 1),
        hi2 as int == hi_c(cubes@, 2),
        lo0 - 1 > isize::MIN,
        lo1 - 1 > isize::MIN,
        lo2 - 1 > isize::MIN,
        hi0 + 1 < isize::MAX,
        hi1 + 1 < isize::MAX,
        hi2 + 1 < isize::MAX,
        outside_cell(cubes@, from@.0, from@.1, from@.2),
        face_adjacent(from@.0, from@.1, from@.2, nx as int, ny as int, nz as int),
        cells_distinct(old(visited)@),
        flood_inv(cubes@, old(visited)@),
        cells_distinct(old(queue)@),
        queue_sub(old(visited)@, old(queue)@),
    ensures
        cells_distinct(final(visited)@),
        flood_inv(cubes@, final(visited)@),
        cells_distinct(final(queue)@),
        queue_sub(final(visited)@, final(queue)@),
        free_cell(cubes@, nx as int, ny as int, nz as int) ==> has_cube(
            final(visited)@,
            nx as int,
            ny as int,
            nz as int,
        ),
        forall|x: int, y: int, z: int|
            #[trigger] has_cube(old(visited)@, x, y, z) ==> has_cube(final(visited)@, x, y, z),
        forall|i: int| 0 <= i < old(queue)@.len() ==> final(queue)@[i] == old(queue)@[i],
        final(queue)@.len() >= old(queue)@.len(),
        final(visited)@.len() >= old(visited)@.len(),
        final(visited)@.len() == old(visited)@.len() ==> final(visited)@ == old(visited)@
            && final(queue)@ == old(queue)@,
        final(visited)@.len() > old(visited)@.len() ==> final(visited)@.len() == old(
            visited,
        )@.len() + 1,
        forall|i: int|
            old(visited)@.len() <= i < final(visited)@.len() ==> has_cube(
                final(queue)@,
                (#[trigger] final(visited)@[i]).0 as int,
                final(visited)@[i].1 as int,
                final(visited)@[i].2 as int,
            ),
        forall|i: int| 0 <= i < old(visited)@.len() ==> final(visited)@[i] == old(visited)@[i],
{
    let inb = nx >= lo0 - 1 && nx <= hi0 + 1 && ny >= lo1 - 1 && ny <= hi1 + 1 && nz >= lo2 - 1
        && nz <= hi2 + 1;
    proof {
        assert(inb == in_box(cubes@, nx as int, ny as int, nz as int));
    }
    if inb && !contains_cube(cubes, nx, ny, nz) && !contains_cube(visited, nx, ny, nz) {
        let ghost v0 = visited@;
        let ghost q0 = queue@;
        proof {
            lemma_outside_step(
                cubes@,
                from@.0,
                from@.1,
                from@.2,
                nx as int,
                ny as int,
                nz as int,
            );
        }
        visited.push((nx, ny, nz));
        queue.push((nx, ny, nz));
        proof {
            lemma_has_cube_push(v0, (nx, ny, nz));
            lemma_has_cube_push(q0, (nx, ny, nz));
            assert(visited@ == v0.push((nx, ny, nz)));
            assert(queue@ == q0.push((nx, ny, nz)));
            assert(has_cube(visited@, nx as int, ny as int, nz as int));
            assert(has_cube(queue@, nx as int, ny as int, nz as int));
            assert forall|i: int|
                v0.len() <= i < visited@.len() implies has_cube(
                queue@,
                (#[trigger] visited@[i]).0 as int,
                visited@[i].1 as int,
                visited@[i].2 as int,
            ) by {
                assert(visited@[i] == ((nx, ny, nz)));
            }
            assert(flood_inv(cubes@, visited@)) by {
                assert forall|i: int|
                    0 <= i < visited@.len() implies outside_cell(
                    cubes@,
                    (#[trigger] visited@[i]).0 as int,
                    visited@[i].1 as int,
                    visited@[i].2 as int,
                ) && in_box(
                    cubes@,
                    visited@[i].0 as int,
                    visited@[i].1 as int,
                    visited@[i].2 as int,
                ) by {
                    if i < v0.len() {
                        assert(visited@[i] == v0[i]);
                    } else {
                        assert(visited@[i] == ((nx, ny, nz)));
                    }
                }
            }
            assert(queue_sub(visited@, queue@)) by {
                assert forall|i: int|
                    0 <= i < queue@.len() implies has_cube(
                    visited@,
                    (#[trigger] queue@[i]).0 as int,
                    queue@[i].1 as int,
                    queue@[i].2 as int,
                ) by {
                    if i < q0.len() {
                        assert(queue@[i] == q0[i]);
                        assert(has_cube(v0, q0[i].0 as int, q0[i].1 as int, q0[i].2 as int));
                    } else {
                        assert(queue@[i] == ((nx, ny, nz)));
                    }
                }
            }
            assert forall|i: int, j: int|
                #![trigger visited@[i], visited@[j]]
                0 <= i < j < visited@.len() implies visited@[i] != visited@[j] by {
                if j == visited@.len() - 1 {
                    if visited@[i] == visited@[j] {
                        assert(v0[i].0 == nx && v0[i].1 == ny && v0[i].2 == nz);
                        assert(has_cube(v0, nx as int, ny as int, nz as int));
                    }
                } else {
                    assert(v0[i] == visited@[i] && v0[j] == visited@[j]);
                }
            }
            assert forall|i: int, j: int|
                #![trigger queue@[i], queue@[j]]
                0 <= i < j < queue@.len() implies queue@[i] != queue@[j] by {
                if j == queue@.len() - 1 {
                    if queue@[i] == queue@[j] {
                        assert(has_cube(v0, q0[i].0 as int, q0[i].1 as int, q0[i].2 as int));
                        let w = choose|w: int|
                            0 <= w < v0.len() && (#[trigger] v0[w]).0 == q0[i].0 && v0[w].1 == q0[
                            i].1 && v0[w].2 == q0[i].2;
                        assert(has_cube(v0, nx as int, ny as int, nz as int));
                    }
                } else {
                    assert(q0[i] == queue@[i] && q0[j] == queue@[j]);
                }
            }
        }
    } else {
        proof {
            if free_cell(cubes@, nx as int, ny as int, nz as int) {
                assert(inb);
                assert(!has_cube(cubes@, nx as int, ny as int, nz as int));
                assert(has_cube(visited@, nx as int, ny as int, nz as int));
            }
        }
    }
}

/// The exterior of the scan: every cell of the box the corner flood can
/// reach, each listed once — exactly the cells [`outside_cell`] names.
pub fn find_outside(cubes: &Voxels) -> (r: Voxels)
    requires
        cubes@.len() > 0,
        coords_deep(cubes@),
        (hi_c(cubes@, 0) - lo_c(cubes@, 0) + 3) * (hi_c(cubes@, 1) - lo_c(cubes@, 1) + 3) * (hi_c(
            cubes@,
            2,
        ) - lo_c(cubes@, 2) + 3) <= usize::MAX,
    ensures
        forall|x: int, y: int, z: int|
            #[trigger] has_cube(r@, x, y, z) <==> outside_cell(cubes@, x, y, z),
        cells_distinct(r@),
{
    let lo0 = axis_lo(cubes, 0);
    let lo1 = axis_lo(cubes, 1);
    let lo2 = axis_lo(cubes, 2);
    let hi0 = axis_hi(cubes, 0);
    let hi1 = axis_hi(cubes, 1);
    let hi2 = axis_hi(cubes, 2);
    proof {
        lemma_lo_achieved(cubes@, cubes@.len() as int, 0);
        lemma_lo_achieved(cubes@, cubes@.len() as int, 1);
        lemma_lo_achieved(cubes@, cubes@.len() as int, 2);
        lemma_hi_achieved(cubes@, cubes@.len() as int, 0);
        lemma_hi_achieved(cubes@, cubes@.len() as int, 1);
        lemma_hi_achieved(cubes@, cubes@.len() as int, 2);
        lemma_lo_le(cubes@, cubes@.len() as int, 0, 0);
        lemma_lo_le(cubes@, cubes@.len() as int, 0, 1);
        lemma_lo_le(cubes@, cubes@.len() as int, 0, 2);
        lemma_hi_ge(cubes@, cubes@.len() as int, 0, 0);
        lemma_hi_ge(cubes@, cubes@.len() as int, 0, 1);
        lemma_hi_ge(cubes@, cubes@.len() as int, 0, 2);
        lemma_corner_free(cubes@);
    }
    let corner = (lo0 - 1, lo1 - 1, lo2 - 1);
    let ghost vol = (hi_c(cubes@, 0) - lo_c(cubes@, 0) + 3) * (hi_c(cubes@, 1) - lo_c(cubes@, 1)
        + 3) * (hi_c(cubes@, 2) - lo_c(cubes@, 2) + 3);
    let mut visited: Vec<Pos3> = Vec::new();
    visited.push(corner);
    let mut queue: Vec<Pos3> = Vec::new();
    queue.push(corner);
    proof {
        assert(reach(cubes@, lo0 - 1 as int, lo1 - 1 as int, lo2 - 1 as int, 0));
        assert(outside_cell(cubes@, lo0 - 1 as int, lo1 - 1 as int, lo2 - 1 as int));
        assert(visited@[0] == corner);
        assert(has_cube(visited@, lo_c(cubes@, 0) - 1, lo_c(cubes@, 1) - 1, lo_c(cubes@, 2) - 1));
        lemma_box_volume(
            visited@,
            lo_c(cubes@, 0),
            hi_c(cubes@, 0),
            lo_c(cubes@, 1),
            hi_c(cubes@, 1),
            lo_c(cubes@, 2),
            hi_c(cubes@, 2),
        );
    }
    while queue.len() > 0
        invariant
            cubes@.len() > 0,
            coords_deep(cubes@),
            lo0 as int == lo_c(cubes@, 0),
            lo1 as int == lo_c(cubes@, 1),
            lo2 as int == lo_c(cubes@, 2),
            hi0 as int == hi_c(cubes@, 0),
            hi1 as int == hi_c(cubes@, 1),
            hi2 as int == hi_c(cubes@, 2),
            lo0 - 1 > isize::MIN,
            lo1 - 1 > isize::MIN,
            lo2 - 1 > isize::MIN,
            hi0 + 1 < isize::MAX,
            hi1 + 1 < isize::MAX,
            hi2 + 1 < isize::MAX,
            lo0 <= hi0,
            lo1 <= hi1,
            lo2 <= hi2,
            vol == (hi_c(cubes@, 0) - lo_c(cubes@, 0) + 3) * (hi_c(cubes@, 1) - lo_c(cubes@, 1)
                + 3) * (hi_c(cubes@, 2) - lo_c(cubes@, 2) + 3),
            cells_distinct(visited@),
            flood_inv(cubes@, visited@),
            cells_distinct(queue@),
            queue_sub(visited@, queue@),
            flood_settled(cubes@, visited@, queue@),
            has_cube(visited@, lo_c(cubes@, 0) - 1, lo_c(cubes@, 1) - 1, lo_c(cubes@, 2) - 1),
            visited@.len() <= vol,
        decreases vol - visited@.len(), queue@.len(),
    {
        let ghost v0 = visited@;
        let ghost q0 = queue@;
        let cell = match queue.pop() {
            Some(c) => c,
            None => {
                proof {
                    assert(false);
                }
                (0, 0, 0)
            },
        };
        let (cx, cy, cz) = cell;
        let ghost q1 = queue@;
        proof {
            assert(cell == q0.last());
            assert(has_cube(v0, cx as int, cy as int, cz as int));
            let w = choose|w: int|
                0 <= w < v0.len() && (#[trigger] v0[w]).0 == cx && v0[w].1 == cy && v0[w].2 == cz;
            assert(outside_cell(cubes@, cx as int, cy as int, cz as int));
            assert(in_box(cubes@, cx as int, cy as int, cz as int));
            // a settled claim through the popped slot moves to the third case
            assert forall|i: int|
                0 <= i < v0.len() implies has_cube(
                q1,
                (#[trigger] v0[i]).0 as int,
                v0[i].1 as int,
                v0[i].2 as int,
            ) || nbs_in(cubes@, v0, v0[i].0 as int, v0[i].1 as int, v0[i].2 as int) || (v0[i].0
                == cx && v0[i].1 == cy && v0[i].2 == cz) by {
                if has_cube(q0, v0[i].0 as int, v0[i].1 as int, v0[i].2 as int) {
                    let k = choose|k: int|
                        0 <= k < q0.len() && (#[trigger] q0[k]).0 == v0[i].0 && q0[k].1 == v0[i].1
                            && q0[k].2 == v0[i].2;
                    if k < q0.len() - 1 {
                        assert(q1[k] == q0[k]);
                        assert(has_cube(q1, v0[i].0 as int, v0[i].1 as int, v0[i].2 as int));
                    }
                }
            }
        }
        try_visit(
            cubes,
            &mut visited,
            &mut queue,
            cx - 1,
            cy,
            cz,
            lo0,
            lo1,
            lo2,
            hi0,
            hi1,
            hi2,
            Ghost((cx as int, cy as int, cz as int)),
        );
        let ghost vs1 = visited@;
        let ghost qs1 = queue@;
        proof {
            lemma_has_cube_prefix(q1, qs1);
        }
        try_visit(
            cubes,
            &mut visited,
            &mut queue,
            cx + 1,
            cy,
            cz,
            lo0,
            lo1,
            lo2,
            hi0,
            hi1,
            hi2,
            Ghost((cx as int, cy as int, cz as int)),
        );
        let ghost vs2 = visited@;
        let ghost qs2 = queue@;
        proof {
            lemma_has_cube_prefix(qs1, qs2);
        }
        try_visit(
            cubes,
            &mut visited,
            &mut queue,
            cx,
            cy - 1,
            cz,
            lo0,
            lo1,
            lo2,
            hi0,
            hi1,
            hi2,
            Ghost((cx as int, cy as int, cz as int)),
        );
        let ghost vs3 = visited@;
        let ghost qs3 = queue@;
        proof {
            lemma_has_cube_prefix(qs2, qs3);
        }
        try_visit(
            cubes,
            &mut visited,
            &mut queue,
            cx,
            cy + 1,
            cz,
            lo0,
            lo1,
            lo2,
            hi0,
            hi1,
            hi2,
            Ghost((cx as int, cy as int, cz as int)),
        );
        let ghost vs4 = visited@;
        let ghost qs4 = queue@;
        proof {
            lemma_has_cube_prefix(qs3, qs4);
        }
        try_visit(
            cubes,
            &mut visited,
            &mut queue,
            cx,
            cy,
            cz - 1,
            lo0,
            lo1,
            lo2,
            hi0,
            hi1,
            hi2,
            Ghost((cx as int, cy as int, cz as int)),
        );
        let ghost vs5 = visited@;
        let ghost qs5 = queue@;
        proof {
            lemma_has_cube_prefix(qs4, qs5);
        }
        try_visit(
            cubes,
            &mut visited,
            &mut queue,
            cx,
            cy,
            cz + 1,
            lo0,
            lo1,
            lo2,
            hi0,
            hi1,
            hi2,
            Ghost((cx as int, cy as int, cz as int)),
        );
        let ghost vs6 = visited@;
        let ghost qs6 = queue@;
        proof {
            lemma_has_cube_prefix(qs5, qs6);
        }
        proof {
            // everything once listed stays listed, and the old queue's head
            // part keeps its places
            assert(forall|x: int, y: int, z: int|
                #[trigger] has_cube(v0, x, y, z) ==> has_cube(visited@, x, y, z));
            assert(forall|x: int, y: int, z: int|
                #[trigger] has_cube(q1, x, y, z) ==> has_cube(queue@, x, y, z));
            assert(nbs_in(cubes@, visited@, cx as int, cy as int, cz as int)) by {
                if free_cell(cubes@, cx - 1 as int, cy as int, cz as int) {
                    assert(has_cube(vs1, cx - 1 as int, cy as int, cz as int));
                    assert(has_cube(visited@, cx - 1 as int, cy as int, cz as int));
                }
                if free_cell(cubes@, cx + 1 as int, cy as int, cz as int) {
                    assert(has_cube(vs2, cx + 1 as int, cy as int, cz as int));
                    assert(has_cube(visited@, cx + 1 as int, cy as int, cz as int));
                }
                if free_cell(cubes@, cx as int, cy - 1 as int, cz as int) {
                    assert(has_cube(vs3, cx as int, cy - 1 as int, cz as int));
                    assert(has_cube(visited@, cx as int, cy - 1 as int, cz as int));
                }
                if free_cell(cubes@, cx as int, cy + 1 as int, cz as int) {
                    assert(has_cube(vs4, cx as int, cy + 1 as int, cz as int));
                    assert(has_cube(visited@, cx as int, cy + 1 as int, cz as int));
                }
                if free_cell(cubes@, cx as int, cy as int, cz - 1 as int) {
                    assert(has_cube(vs5, cx as int, cy as int, cz - 1 as int));
                    assert(has_cube(visited@, cx as int, cy as int, cz - 1 as int));
                }
                if free_cell(cubes@, cx as int, cy as int, cz + 1 as int) {
                    assert(has_cube(vs6, cx as int, cy as int, cz + 1 as int));
                    assert(has_cube(visited@, cx as int, cy as int, cz + 1 as int));
                }
            }
            assert forall|i: int|
                0 <= i < visited@.len() implies has_cube(
                queue@,
                (#[trigger] visited@[i]).0 as int,
                visited@[i].1 as int,
                visited@[i].2 as int,
            ) || nbs_in(
                cubes@,
                visited@,
                visited@[i].0 as int,
                visited@[i].1 as int,
                visited@[i].2 as int,
            ) by {
                if i < v0.len() {
                    assert(visited@[i] == v0[i]);
                    if nbs_in(cubes@, v0, v0[i].0 as int, v0[i].1 as int, v0[i].2 as int) {
                        assert(nbs_in(
                            cubes@,
                            visited@,
                            visited@[i].0 as int,
                            visited@[i].1 as int,
                            visited@[i].2 as int,
                        ));
                    }
                } else if i < vs1.len() {
                    assert(has_cube(qs1, (vs1[i]).0 as int, vs1[i].1 as int, vs1[i].2 as int));
                    assert(visited@[i] == vs1[i]);
                } else if i < vs2.len() {
                    assert(has_cube(qs2, (vs2[i]).0 as int, vs2[i].1 as int, vs2[i].2 as int));
                    assert(visited@[i] == vs2[i]);
                } else if i < vs3.len() {
                    assert(has_cube(qs3, (vs3[i]).0 as int, vs3[i].1 as int, vs3[i].2 as int));
                    assert(visited@[i] == vs3[i]);
                } else if i < vs4.len() {
                    assert(has_cube(qs4, (vs4[i]).0 as int, vs4[i].1 as int, vs4[i].2 as int));
                    assert(visited@[i] == vs4[i]);
                } else if i < vs5.len() {
                    assert(has_cube(qs5, (vs5[i]).0 as int, vs5[i].1 as int, vs5[i].2 as int));
                    assert(visited@[i] == vs5[i]);
                } else {
                    assert(has_cube(qs6, (vs6[i]).0 as int, vs6[i].1 as int, vs6[i].2 as int));
                    assert(visited@[i] == vs6[i]);
                }
            }
            if visited@.len() > v0.len() {
                lemma_box_volume(
                    visited@,
                    lo_c(cubes@, 0),
                    hi_c(cubes@, 0),
                    lo_c(cubes@, 1),
                    hi_c(cubes@, 1),
                    lo_c(cubes@, 2),
                    hi_c(cubes@, 2),
                );
            }
        }
    }
    proof {
        assert(flood_closed(cubes@, visited@)) by {
            assert forall|x: int, y: int, z: int| #[trigger]
                has_cube(visited@, x, y, z) implies nbs_in(cubes@, visited@, x, y, z) by {
                let w = choose|w: int|
                    0 <= w < visited@.len() && (#[trigger] visited@[w]).0 == x && visited@[w].1
                        == y && visited@[w].2 == z;
                assert(!has_cube(
                    queue@,
                    visited@[w].0 as int,
                    visited@[w].1 as int,
                    visited@[w].2 as int,
                ));
            }
        }
        assert forall|x: int, y: int, z: int| #[trigger]
            has_cube(visited@, x, y, z) implies outside_cell(cubes@, x, y, z) by {
            let w = choose|w: int|
                0 <= w < visited@.len() && (#[trigger] visited@[w]).0 == x && visited@[w].1 == y
                    && visited@[w].2 == z;
        }
        assert forall|x: int, y: int, z: int| #[trigger]
            outside_cell(cubes@, x, y, z) implies has_cube(visited@, x, y, z) by {
            let n = choose|n: nat| reach(cubes@, x, y, z, n);
            lemma_reach_in(cubes@, visited@, x, y, z, n);
        }
    }
    visited
}

/// How many faces of one cube meet the exterior.
pub open spec fn outside_faces(cubes: Seq<Pos3>, x: int, y: int, z: int) -> int {
    (if outside_cell(cubes, x - 1, y, z) {
        1int
    } else {
        0int
    }) + (if outside_cell(cubes, x + 1, y, z) {
        1int
    } else {
        0int
    }) + (if outside_cell(cubes, x, y - 1, z) {
        1int
    } else {
        0int
    }) + (if outside_cell(cubes, x, y + 1, z) {
        1int
    } else {
        0int
    }) + (if outside_cell(cubes, x, y, z - 1) {
        1int
    } else {
        0int
    }) + (if outside_cell(cubes, x, y, z + 1) {
        1int
    } else {
        0int
    })
}

/// The exterior faces of the first `n` cubes, summed.
pub open spec fn total_outside(cubes: Seq<Pos3>, n: int) -> int
    decreases n,
{
    if n <= 0 || n > cubes.len() {
        0
    } else {
        total_outside(cubes, n - 1) + outside_faces(
            cubes,
            cubes[n - 1].0 as int,
            cubes[n - 1].1 as int,
            cubes[n - 1].2 as int,
        )
    }
}

/// No run of cubes meets the exterior on more than six faces each.
proof fn lemma_total_outside_bound(cubes: Seq<Pos3>, n: int)
    ensures
        0 <= total_outside(cubes, n),
        0 <= n <= cubes.len() ==> total_outside(cubes, n) <= 6 * n,
    decreases n,
{
    if !(n <= 0 || n > cubes.len()) {
        lemma_total_outside_bound(cubes, n - 1);
        let x = cubes[n - 1].0 as int;
        let y = cubes[n - 1].1 as int;
        let z = cubes[n - 1].2 as int;
        assert(total_outside(cubes, n) == total_outside(cubes, n - 1) + outside_faces(
            cubes,
            x,
            y,
            z,
        ));
        assert(0 <= outside_faces(cubes, x, y, z) <= 6);
    }
}

/// The exterior surface of the scan: the faces that touch air the outside
/// can reach, pockets excluded.
pub fn part2(cubes: &Voxels) -> (r: usize)
    requires
        cubes@.len() > 0,
        coords_deep(cubes@),
        (hi_c(cubes@, 0) - lo_c(cubes@, 0) + 3) * (hi_c(cubes@, 1) - lo_c(cubes@, 1) + 3) * (hi_c(
            cubes@,
            2,
        ) - lo_c(cubes@, 2) + 3) <= usize::MAX,
        6 * cubes@.len() <= usize::MAX,
    ensures
        r == total_outside(cubes@, cubes@.len() as int),
{
    let outside = find_outside(cubes);
    let mut count: usize = 0;
    let mut i: usize = 0;
    proof {
        lemma_total_outside_bound(cubes@, 0);
    }
    while i < cubes.len()
        invariant
            i <= cubes@.len(),
            coords_deep(cubes@),
            6 * cubes@.len() <= usize::MAX,
            forall|x: int, y: int, z: int|
                #[trigger] has_cube(outside@, x, y, z) <==> outside_cell(cubes@, x, y, z),
            count == total_outside(cubes@, i as int),
            count <= 6 * i,
        decreases cubes@.len() - i,
    {
        let (x, y, z) = cubes[i];
        let mut faces: usize = 0;
        if contains_cube(&outside, x - 1, y, z) {
            faces += 1;
        }
        if contains_cube(&outside, x + 1, y, z) {
            faces += 1;
        }
        if contains_cube(&outside, x, y - 1, z) {
            faces += 1;
        }
        if contains_cube(&outside, x, y + 1, z) {
            faces += 1;
        }
        if contains_cube(&outside, x, y, z - 1) {
            faces += 1;
        }
        if contains_cube(&outside, x, y, z + 1) {
            faces += 1;
        }
        proof {
            assert(faces == outside_faces(
                cubes@,
                cubes@[i as int].0 as int,
                cubes@[i as int].1 as int,
                cubes@[i as int].2 as int,
            ));
        }
        count = count + faces;
        i += 1;
    }
    count
}

} // verus!
