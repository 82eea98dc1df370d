//! The isometric compositor: walks a voxel grid back to front, places a copy
//! of each cell's tile, and trims what the new tile covers.

use vstd::prelude::*;
use crate::vector::{Vec2, Vec3};
use crate::shapes::{
    Shape, ShapeComponent, ComponentModel, Polygonal, copy_component, is_lowest, is_highest,
    has_vertex, valid_vertex, extent, bounding_box, midpoint, shifted, shift_shape,
    trim_shape, reduce_shape, component_rings,
};
use crate::codec::nested;

verus! {

/// A grid cell `(x, y, z)`.
pub type Cell = (usize, usize, usize);

/// The painter's key of a cell: its depth `x + y + z`, then `x`, then `y`.
pub open spec fn cell_key(c: Cell) -> (int, int, int) {
    (c.0 + c.1 + c.2, c.0 as int, c.1 as int)
}

/// Lexicographic order on keys.
pub open spec fn key_lt(a: (int, int, int), b: (int, int, int)) -> bool {
    a.0 < b.0 || (a.0 == b.0 && (a.1 < b.1 || (a.1 == b.1 && a.2 < b.2)))
}

/// The cell lies in a grid of the given size.
pub open spec fn in_grid(c: Cell, nx: int, ny: int, nz: int) -> bool {
    c.0 < nx && c.1 < ny && c.2 < nz
}

/// The cells of an `nx` × `ny` × `nz` grid in painter's order: by increasing
/// depth `x + y + z`, and within one depth by `x`, then `y`. Each cell comes
/// exactly once, and every cell of a depth comes before any cell of a greater
/// depth.
pub fn painter_order(nx: usize, ny: usize, nz: usize) -> (r: Vec<Cell>)
    requires
        nx + ny + nz <= usize::MAX,
    ensures
        forall|i: int| 0 <= i < r@.len() ==> in_grid(#[trigger] r@[i], nx as int, ny as int, nz as int),
        forall|i: int, j: int|
            0 <= i < j < r@.len() ==> key_lt(cell_key(#[trigger] r@[i]), cell_key(#[trigger] r@[j])),
        forall|c: Cell| in_grid(c, nx as int, ny as int, nz as int) ==> #[trigger] r@.contains(c),
{
    let total = nx + ny + nz;
    let mut r: Vec<Cell> = Vec::new();
    let mut d: usize = 0;
    while d < total
        invariant
            total == nx + ny + nz,
            d <= total,
            forall|i: int| 0 <= i < r@.len() ==> in_grid(#[trigger] r@[i], nx as int, ny as int, nz as int),
            forall|i: int, j: int|
                0 <= i < j < r@.len() ==> key_lt(cell_key(#[trigger] r@[i]), cell_key(#[trigger] r@[j])),
            forall|i: int| 0 <= i < r@.len() ==> key_lt(cell_key(#[trigger] r@[i]), (d as int, 0, 0)),
            forall|c: Cell|
                in_grid(c, nx as int, ny as int, nz as int) && key_lt(cell_key(c), (d as int, 0, 0))
                    ==> #[trigger] r@.contains(c),
        decreases total - d,
    {
        let mut x: usize = 0;
        while x < nx && x <= d
            invariant
                total == nx + ny + nz,
                d < total,
                x <= nx,
                x <= d + 1,
                forall|i: int| 0 <= i < r@.len() ==> in_grid(#[trigger] r@[i], nx as int, ny as int, nz as int),
                forall|i: int, j: int|
                    0 <= i < j < r@.len() ==> key_lt(cell_key(#[trigger] r@[i]), cell_key(#[trigger] r@[j])),
                forall|i: int| 0 <= i < r@.len() ==> key_lt(cell_key(#[trigger] r@[i]), (d as int, x as int, 0)),
                forall|c: Cell|
                    in_grid(c, nx as int, ny as int, nz as int) && key_lt(cell_key(c), (d as int, x as int, 0))
                        ==> #[trigger] r@.contains(c),
            decreases nx - x,
        {
            let mut y: usize = 0;
            while y < ny && y <= d - x
                invariant
                    total == nx + ny + nz,
                    d < total,
                    x < nx,
                    x <= d,
                    y <= ny,
                    y <= d - x + 1,
                    forall|i: int| 0 <= i < r@.len() ==> in_grid(#[trigger] r@[i], nx as int, ny as int, nz as int),
                    forall|i: int, j: int|
                        0 <= i < j < r@.len() ==> key_lt(cell_key(#[trigger] r@[i]), cell_key(#[trigger] r@[j])),
                    forall|i: int| 0 <= i < r@.len() ==> key_lt(cell_key(#[trigger] r@[i]), (d as int, x as int, y as int)),
                    forall|c: Cell|
                        in_grid(c, nx as int, ny as int, nz as int) && key_lt(cell_key(c), (d as int, x as int, y as int))
                            ==> #[trigger] r@.contains(c),
                decreases ny - y,
            {
                let z = d - x - y;
                let ghost before = r@;
                if z < nz {
                    r.push((x, y, z));
                    proof {
                        assert forall|c: Cell|
                            in_grid(c, nx as int, ny as int, nz as int) && key_lt(cell_key(c), (d as int, x as int, y + 1))
                                implies #[trigger] r@.contains(c) by {
                            if c == (x, y, z) {
                                assert(r@[before.len() as int] == c);
                            } else {
                                assert(key_lt(cell_key(c), (d as int, x as int, y as int)));
                                assert(before.contains(c));
                                let i = choose|i: int| 0 <= i < before.len() && before[i] == c;
                                assert(r@[i] == c);
                            }
                        }
                        assert forall|i: int, j: int|
                            0 <= i < j < r@.len() implies key_lt(cell_key(#[trigger] r@[i]), cell_key(#[trigger] r@[j])) by {
                            if j < before.len() {
                                assert(r@[i] == before[i] && r@[j] == before[j]);
                            } else {
                                assert(r@[i] == before[i]);
                            }
                        }
                    }
                } else {
                    proof {
                        assert forall|c: Cell|
                            in_grid(c, nx as int, ny as int, nz as int) && key_lt(cell_key(c), (d as int, x as int, y + 1))
                                implies #[trigger] r@.contains(c) by {
                            assert(key_lt(cell_key(c), (d as int, x as int, y as int)));
                        }
                    }
                }
                y = y + 1;
            }
            proof {
                assert forall|c: Cell|
                    in_grid(c, nx as int, ny as int, nz as int) && key_lt(cell_key(c), (d as int, x + 1, 0))
                        implies #[trigger] r@.contains(c) by {
                    assert(key_lt(cell_key(c), (d as int, x as int, y as int)));
                }
            }
            x = x + 1;
        }
        proof {
            assert forall|c: Cell|
                in_grid(c, nx as int, ny as int, nz as int) && key_lt(cell_key(c), (d + 1, 0, 0))
                    implies #[trigger] r@.contains(c) by {
                assert(key_lt(cell_key(c), (d as int, x as int, 0)));
            }
        }
        d = d + 1;
    }
    proof {
        assert forall|c: Cell| in_grid(c, nx as int, ny as int, nz as int) implies #[trigger] r@.contains(c) by {
            assert(key_lt(cell_key(c), (d as int, 0, 0)));
        }
    }
    r
}

/// Cells that come earlier in painter's order lie at no greater depth: a cell
/// of a smaller depth always comes before a cell of a greater one.
pub proof fn lemma_painter_depth(order: Seq<Cell>, i: int, j: int)
    requires
        forall|a: int, b: int|
            0 <= a < b < order.len() ==> key_lt(cell_key(#[trigger] order[a]), cell_key(#[trigger] order[b])),
        0 <= i < order.len(),
        0 <= j < order.len(),
        cell_key(order[i]).0 < cell_key(order[j]).0,
    ensures
        i < j,
{
    if j < i {
        assert(key_lt(cell_key(order[j]), cell_key(order[i])));
    }
}

// ----- projection axes from the reference cube -----

/// The step on the canvas between neighbouring cells along one grid axis.
#[derive(Clone, Copy, Debug, PartialEq, Eq, Structural)]
pub struct Step {
    pub dx: i64,
    pub dy: i64,
}

/// The least coordinate along an axis over the vertices of `s`.
pub open spec fn lowest(s: Seq<ComponentModel>, along_x: bool) -> int {
    choose|v: int| is_lowest(s, along_x, v)
}

/// The greatest coordinate along an axis over the vertices of `s`.
pub open spec fn highest(s: Seq<ComponentModel>, along_x: bool) -> int {
    choose|v: int| is_highest(s, along_x, v)
}

/// The extent of a face along an axis.
pub open spec fn face_span(c: ComponentModel, along_x: bool) -> int {
    highest(seq![c], along_x) - lowest(seq![c], along_x)
}

proof fn lemma_lowest_unique(s: Seq<ComponentModel>, along_x: bool, v: int)
    requires
        is_lowest(s, along_x, v),
    ensures
        lowest(s, along_x) == v,
{
    let w = lowest(s, along_x);
    assert(is_lowest(s, along_x, w));
    let (c, k, j) = choose|c: int, k: int, j: int|
        valid_vertex(s, c, k, j) && crate::shapes::coord(#[trigger] s[c].1[k][j], along_x) == w;
    let (c2, k2, j2) = choose|c: int, k: int, j: int|
        valid_vertex(s, c, k, j) && crate::shapes::coord(#[trigger] s[c].1[k][j], along_x) == v;
    assert(crate::shapes::coord(s[c].1[k][j], along_x) >= v);
    assert(crate::shapes::coord(s[c2].1[k2][j2], along_x) >= w);
}

proof fn lemma_highest_unique(s: Seq<ComponentModel>, along_x: bool, v: int)
    requires
        is_highest(s, along_x, v),
    ensures
        highest(s, along_x) == v,
{
    let w = highest(s, along_x);
    assert(is_highest(s, along_x, w));
    let (c, k, j) = choose|c: int, k: int, j: int|
        valid_vertex(s, c, k, j) && crate::shapes::coord(#[trigger] s[c].1[k][j], along_x) == w;
    let (c2, k2, j2) = choose|c: int, k: int, j: int|
        valid_vertex(s, c, k, j) && crate::shapes::coord(#[trigger] s[c].1[k][j], along_x) == v;
    assert(crate::shapes::coord(s[c].1[k][j], along_x) <= v);
    assert(crate::shapes::coord(s[c2].1[k2][j2], along_x) <= w);
}

/// The normal points along `+x` (the right-hand face).
pub open spec fn faces_x(n: Vec3) -> bool {
    n.x > 0 && n.y == 0 && n.z == 0
}

/// The normal points along `+y` (the top face).
pub open spec fn faces_y(n: Vec3) -> bool {
    n.x == 0 && n.y > 0 && n.z == 0
}

/// The normal points along `+z` (the left-hand face).
pub open spec fn faces_z(n: Vec3) -> bool {
    n.x == 0 && n.y == 0 && n.z > 0
}

/// What the faces of the reference cube tell: the width of the `x` face, the
/// width of the `z` face, and the heights of the `x`, `y` and `z` faces. A
/// later face of a direction replaces an earlier one; `None` when a face of
/// one of the three directions has no vertex.
pub open spec fn cube_scan(cs: Seq<ComponentModel>) -> Option<(int, int, int, int, int)>
    decreases cs.len(),
{
    if cs.len() == 0 {
        Some((0, 0, 0, 0, 0))
    } else {
        match cube_scan(cs.drop_last()) {
            None => None,
            Some(st) => {
                let c = cs.last();
                if faces_x(c.0) || faces_y(c.0) || faces_z(c.0) {
                    if !has_vertex(seq![c]) {
                        None
                    } else if faces_z(c.0) {
                        Some((st.0, face_span(c, true), st.2, st.3, face_span(c, false)))
                    } else if faces_y(c.0) {
                        Some((st.0, st.1, st.2, face_span(c, false), st.4))
                    } else {
                        Some((face_span(c, true), st.1, face_span(c, false), st.3, st.4))
                    }
                } else {
                    Some(st)
                }
            },
        }
    }
}

/// The three cell steps that a scan of the reference cube gives: `x` goes
/// right by the width of the `x` face, `z` goes left by the width of the `z`
/// face, and the vertical parts follow from the three face heights (halved,
/// rounded down).
pub open spec fn steps_of(st: (int, int, int, int, int)) -> (Step, Step, Step) {
    let (wx, wz, hr, hg, hb) = st;
    (
        Step { dx: wx as i64, dy: ((hr + hg - hb) / 2) as i64 },
        Step { dx: 0, dy: ((-hr + hg - hb) / 2) as i64 },
        Step { dx: (-wz) as i64, dy: ((-hr + hg + hb) / 2) as i64 },
    )
}

/// A cell step whose parts stay within the bounds of the compositor's arithmetic.
pub open spec fn steps_bounded(s: Step) -> bool {
    -0x4_0000_0000 <= s.dx <= 0x4_0000_0000 && -0x4_0000_0000 <= s.dy <= 0x4_0000_0000
}

pub open spec fn all_steps_bounded(s: (Step, Step, Step)) -> bool {
    let (x, y, z) = s;
    steps_bounded(x) && steps_bounded(y) && steps_bounded(z)
}

/// The width and height of a face; `None` when it has no vertex.
fn face_size(c: &ShapeComponent) -> (r: Option<(i64, i64)>)
    ensures
        match r {
            Some(wh) => has_vertex(seq![c@]) && wh.0 == face_span(c@, true) && wh.1 == face_span(c@, false)
                && 0 <= wh.0 <= 0x1_0000_0000 && 0 <= wh.1 <= 0x1_0000_0000,
            None => !has_vertex(seq![c@]),
        },
{
    let mut single: Vec<ShapeComponent> = Vec::new();
    single.push(copy_component(c));
    let ghost m = Seq::new(single@.len(), |i: int| single@[i]@);
    assert(m =~= seq![c@]);
    match (extent(&single, true), extent(&single, false)) {
        (Some(h), Some(v)) => {
            proof {
                lemma_lowest_unique(m, true, h.0 as int);
                lemma_highest_unique(m, true, h.1 as int);
                lemma_lowest_unique(m, false, v.0 as int);
                lemma_highest_unique(m, false, v.1 as int);
                let (c0, k0, j0) = choose|c0: int, k0: int, j0: int|
                    valid_vertex(m, c0, k0, j0) && crate::shapes::coord(#[trigger] m[c0].1[k0][j0], true) == h.0;
                assert(valid_vertex(m, c0, k0, j0));
                crate::shapes::lemma_lowest_le_highest(m, true, h.0 as int, h.1 as int);
                crate::shapes::lemma_lowest_le_highest(m, false, v.0 as int, v.1 as int);
            }
            Some((h.1 as i64 - h.0 as i64, v.1 as i64 - v.0 as i64))
        },
        _ => None,
    }
}

/// The three cell steps of the projection, read off the reference cube's
/// faces; `None` when a face that the steps need has no vertex.
pub fn dimensions_from_cube(cube: &Shape) -> (r: Option<(Step, Step, Step)>)
    ensures
        match cube_scan(cube@) {
            Some(st) => r == Some(steps_of(st)),
            None => r is None,
        },
        r is Some ==> all_steps_bounded(r->0),
{
    let mut wx: i64 = 0;
    let mut wz: i64 = 0;
    let mut hr: i64 = 0;
    let mut hg: i64 = 0;
    let mut hb: i64 = 0;
    let mut i: usize = 0;
    assert(cube@.take(0) =~= Seq::<ComponentModel>::empty());
    while i < cube.components.len()
        invariant
            i <= cube@.len(),
            cube@.len() == cube.components@.len(),
            cube_scan(cube@.take(i as int)) == Some::<(int, int, int, int, int)>(
                (wx as int, wz as int, hr as int, hg as int, hb as int),
            ),
            0 <= wx <= 0x1_0000_0000,
            0 <= wz <= 0x1_0000_0000,
            0 <= hr <= 0x1_0000_0000,
            0 <= hg <= 0x1_0000_0000,
            0 <= hb <= 0x1_0000_0000,
        decreases cube@.len() - i,
    {
        let c = &cube.components[i];
        let n = c.normal;
        let ghost pre = cube@.take(i + 1);
        assert(pre.drop_last() =~= cube@.take(i as int));
        assert(pre.last() == c@);
        let fx = n.x > 0 && n.y == 0 && n.z == 0;
        let fy = n.x == 0 && n.y > 0 && n.z == 0;
        let fz = n.x == 0 && n.y == 0 && n.z > 0;
        if fx || fy || fz {
            match face_size(c) {
                None => {
                    proof {
                        lemma_scan_stays_none(cube@, i + 1, cube@.len() as int);
                        assert(cube@.take(cube@.len() as int) =~= cube@);
                    }
                    return None;
                },
                Some(wh) => {
                    if fz {
                        wz = wh.0;
                        hb = wh.1;
                    } else if fy {
                        hg = wh.1;
                    } else {
                        wx = wh.0;
                        hr = wh.1;
                    }
                },
            }
        }
        i = i + 1;
    }
    assert(cube@.take(i as int) =~= cube@);
    let x = Step { dx: wx, dy: floor_half(hr + hg - hb) };
    let y = Step { dx: 0, dy: floor_half(-hr + hg - hb) };
    let z = Step { dx: -wz, dy: floor_half(-hr + hg + hb) };
    Some((x, y, z))
}

proof fn lemma_scan_stays_none(s: Seq<ComponentModel>, i: int, m: int)
    requires
        0 <= i <= m <= s.len(),
        cube_scan(s.take(i)) is None,
    ensures
        cube_scan(s.take(m)) is None,
    decreases m - i,
{
    if m > i {
        lemma_scan_stays_none(s, i, m - 1);
        assert(s.take(m).drop_last() =~= s.take(m - 1));
    }
}

fn floor_half(v: i64) -> (r: i64)
    requires
        -0x4_0000_0000 <= v <= 0x4_0000_0000,
    ensures
        r == v / 2,
{
    if v >= 0 {
        v / 2
    } else {
        -((-v + 1) / 2)
    }
}

// ----- the compositor -----

/// Why a scene could not be composed.
#[derive(Clone, Copy, Debug, PartialEq, Eq, Structural)]
pub enum SceneError {
    /// There is no reference cube, or one of its faces that the projection
    /// needs has no vertex, or it has no width or no height.
    BadReference,
    /// A tile that a cell uses has no vertex, so it has no centre.
    EmptyTile,
    /// A placed tile would leave the range of `i32`.
    OutOfRange,
}

/// Where cells land on the canvas.
#[derive(Clone, Copy, Debug, PartialEq, Eq, Structural)]
pub struct Layout {
    pub x: Step,
    pub y: Step,
    pub z: Step,
    pub origin_x: i128,
    pub origin_y: i128,
    /// The centre of the reference cube.
    pub ref_x: i64,
    pub ref_y: i64,
    /// The width and height of the reference cube.
    pub size_w: i64,
    pub size_h: i64,
}

/// The bounds within which the compositor's arithmetic stays.
pub open spec fn layout_bounded(l: Layout) -> bool {
    &&& -0x4_0000_0000 <= l.x.dx <= 0x4_0000_0000 && -0x4_0000_0000 <= l.x.dy <= 0x4_0000_0000
    &&& -0x4_0000_0000 <= l.y.dx <= 0x4_0000_0000 && -0x4_0000_0000 <= l.y.dy <= 0x4_0000_0000
    &&& -0x4_0000_0000 <= l.z.dx <= 0x4_0000_0000 && -0x4_0000_0000 <= l.z.dy <= 0x4_0000_0000
    &&& -0x10_0000_0000_0000_0000_0000_0000 <= l.origin_x <= 0x10_0000_0000_0000_0000_0000_0000
    &&& -0x10_0000_0000_0000_0000_0000_0000 <= l.origin_y <= 0x10_0000_0000_0000_0000_0000_0000
    &&& i32::MIN <= l.ref_x <= i32::MAX && i32::MIN <= l.ref_y <= i32::MAX
    &&& 1 <= l.size_w <= 0x1_0000_0000 && 1 <= l.size_h <= 0x1_0000_0000
}

/// The canvas position of a cell's centre.
pub open spec fn cell_centre(l: Layout, c: Cell) -> (int, int) {
    (
        l.origin_x + l.x.dx * c.0 + l.y.dx * c.1 + l.z.dx * c.2,
        l.origin_y + l.x.dy * c.0 + l.y.dy * c.1 + l.z.dy * c.2,
    )
}

/// The remainder of `v` by `m`, with the sign of `v`.
pub open spec fn trunc_rem(v: int, m: int) -> int {
    if v >= 0 {
        v % m
    } else {
        -((-v) % m)
    }
}

/// How far a tile's centre sits from the centre of its cell: its distance from
/// the reference cube's centre, brought into the range of one cell.
pub open spec fn align_offset(v: int, size: int) -> int {
    trunc_rem(v + size / 2, size) - size / 2
}

/// The translation that places a copy of `proto` at cell `c`.
pub open spec fn placement_shift(l: Layout, proto: Seq<ComponentModel>, c: Cell) -> (int, int) {
    let pcx = midpoint(lowest(proto, true), highest(proto, true));
    let pcy = midpoint(lowest(proto, false), highest(proto, false));
    let (cx, cy) = cell_centre(l, c);
    (cx + align_offset(pcx - l.ref_x, l.size_w as int) - pcx, cy + align_offset(
        pcy - l.ref_y,
        l.size_h as int,
    ) - pcy)
}

/// A copy of `proto` placed at cell `c`.
pub open spec fn new_instance(l: Layout, proto: Seq<ComponentModel>, c: Cell) -> Result<
    Seq<ComponentModel>,
    SceneError,
> {
    if !has_vertex(proto) {
        Err(SceneError::EmptyTile)
    } else {
        let (dx, dy) = placement_shift(l, proto, c);
        if i32::MIN <= lowest(proto, true) + dx && highest(proto, true) + dx <= i32::MAX && i32::MIN
            <= lowest(proto, false) + dy && highest(proto, false) + dy <= i32::MAX {
            Ok(shift_shape(proto, dx, dy))
        } else {
            Err(SceneError::OutOfRange)
        }
    }
}

/// A placement: the instance, `None` once it was removed, and its cell.
pub type RecordModel = (Option<Seq<ComponentModel>>, Cell);

/// The last group that holds the cell.
pub open spec fn group_of(groups: Seq<Seq<Cell>>, c: Cell) -> Option<Seq<Cell>>
    decreases groups.len(),
{
    if groups.len() == 0 {
        None
    } else if groups.last().contains(c) {
        Some(groups.last())
    } else {
        group_of(groups.drop_last(), c)
    }
}

/// The first placement from `k` on that is alive and lies in the group.
pub open spec fn first_live(recs: Seq<RecordModel>, g: Seq<Cell>, k: int) -> Option<int>
    decreases recs.len() - k,
{
    if k < 0 || k >= recs.len() {
        None
    } else if recs[k].0 is Some && g.contains(recs[k].1) {
        Some(k)
    } else {
        first_live(recs, g, k + 1)
    }
}

/// Every live placement trimmed by the polygons `occ`.
pub open spec fn sweep(recs: Seq<RecordModel>, occ: Seq<Seq<Vec2>>) -> Seq<RecordModel> {
    Seq::new(
        recs.len(),
        |k: int|
            (
                match recs[k].0 {
                    Some(s) => reduce_shape(s, occ),
                    None => None,
                },
                recs[k].1,
            ),
    )
}

/// Places a tile at cell `c`. When the cell's group already has a live
/// instance, that instance moves to this placement; otherwise a copy of the
/// prototype is placed. Every other live placement is then trimmed by it.
pub open spec fn place(
    recs: Seq<RecordModel>,
    c: Cell,
    proto: Seq<ComponentModel>,
    group: Option<Seq<Cell>>,
    l: Layout,
) -> Result<Seq<RecordModel>, SceneError> {
    let reuse = match group {
        Some(g) => first_live(recs, g, 0),
        None => None,
    };
    match reuse {
        Some(k) => {
            let inst = recs[k].0->0;
            let rest = recs.update(k, (None, recs[k].1));
            Ok(sweep(rest, component_rings(inst)).push((Some(inst), c)))
        },
        None => match new_instance(l, proto, c) {
            Err(e) => Err(e),
            Ok(inst) => Ok(sweep(recs, component_rings(inst)).push((Some(inst), c))),
        },
    }
}

/// The prototype registered for a tile id, if any.
pub open spec fn prototype(lib: Seq<Option<Shape>>, t: int) -> Option<Seq<ComponentModel>> {
    if 0 <= t < lib.len() {
        match lib[t] {
            Some(s) => Some(s@),
            None => None,
        }
    } else {
        None
    }
}

/// The tile id at a cell.
pub open spec fn tile_at(grid: Seq<Vec<Vec<u8>>>, c: Cell) -> int {
    grid[c.0 as int]@[c.1 as int]@[c.2 as int] as int
}

/// Visits one cell: a cell whose id has a prototype places it.
pub open spec fn visit(
    recs: Seq<RecordModel>,
    c: Cell,
    grid: Seq<Vec<Vec<u8>>>,
    lib: Seq<Option<Shape>>,
    groups: Seq<Seq<Cell>>,
    l: Layout,
) -> Result<Seq<RecordModel>, SceneError> {
    match prototype(lib, tile_at(grid, c)) {
        Some(proto) => place(recs, c, proto, group_of(groups, c), l),
        None => Ok(recs),
    }
}

/// Visits the cells in order, from no placement.
pub open spec fn run_cells(
    order: Seq<Cell>,
    grid: Seq<Vec<Vec<u8>>>,
    lib: Seq<Option<Shape>>,
    groups: Seq<Seq<Cell>>,
    l: Layout,
) -> Result<Seq<RecordModel>, SceneError>
    decreases order.len(),
{
    if order.len() == 0 {
        Ok(seq![])
    } else {
        match run_cells(order.drop_last(), grid, lib, groups, l) {
            Err(e) => Err(e),
            Ok(recs) => visit(recs, order.last(), grid, lib, groups, l),
        }
    }
}

/// The live instances, in placement order.
pub open spec fn survivors(recs: Seq<RecordModel>) -> Seq<Seq<ComponentModel>>
    decreases recs.len(),
{
    if recs.len() == 0 {
        seq![]
    } else {
        match recs.last().0 {
            Some(s) => survivors(recs.drop_last()).push(s),
            None => survivors(recs.drop_last()),
        }
    }
}

/// The model of a placement.
pub open spec fn record_model(r: (Option<Shape>, Cell)) -> RecordModel {
    (
        match r.0 {
            Some(s) => Some(s@),
            None => None,
        },
        r.1,
    )
}

pub open spec fn records_model(rs: Seq<(Option<Shape>, Cell)>) -> Seq<RecordModel> {
    Seq::new(rs.len(), |k: int| record_model(rs[k]))
}

pub open spec fn groups_model(gs: Seq<Vec<Cell>>) -> Seq<Seq<Cell>> {
    Seq::new(gs.len(), |i: int| gs[i]@)
}

fn same_cell(a: Cell, b: Cell) -> (r: bool)
    ensures
        r == (a == b),
{
    a.0 == b.0 && a.1 == b.1 && a.2 == b.2
}

/// The last group that holds the cell.
fn find_group(groups: &Vec<Vec<Cell>>, c: Cell) -> (r: Option<usize>)
    ensures
        match group_of(groups_model(groups@), c) {
            Some(g) => r is Some && r->0 < groups@.len() && groups@[r->0 as int]@ == g,
            None => r is None,
        },
{
    let ghost gm = groups_model(groups@);
    let mut found: Option<usize> = None;
    let mut i: usize = 0;
    assert(gm.take(0) =~= Seq::<Seq<Cell>>::empty());
    while i < groups.len()
        invariant
            i <= groups@.len(),
            gm == groups_model(groups@),
            match group_of(gm.take(i as int), c) {
                Some(g) => found is Some && found->0 < i && groups@[found->0 as int]@ == g,
                None => found is None,
            },
        decreases groups@.len() - i,
    {
        let g = &groups[i];
        let mut j: usize = 0;
        let mut has = false;
        while j < g.len()
            invariant
                j <= g@.len(),
                has == exists|q: int| 0 <= q < j && #[trigger] g@[q] == c,
            decreases g@.len() - j,
        {
            if same_cell(g[j], c) {
                has = true;
            }
            j = j + 1;
        }
        assert(has == g@.contains(c));
        proof {
            let pre = gm.take(i + 1);
            assert(pre.drop_last() =~= gm.take(i as int));
            assert(pre.last() == g@);
        }
        if has {
            found = Some(i);
        }
        i = i + 1;
    }
    assert(gm.take(i as int) =~= gm);
    found
}

/// The first live placement that lies in the group.
fn find_live(recs: &Vec<(Option<Shape>, Cell)>, g: &Vec<Cell>) -> (r: Option<usize>)
    ensures
        match r {
            Some(k) => first_live(records_model(recs@), g@, 0) == Some(k as int) && k < recs@.len(),
            None => first_live(records_model(recs@), g@, 0) is None,
        },
{
    let ghost rm = records_model(recs@);
    let mut k: usize = 0;
    while k < recs.len()
        invariant
            k <= recs@.len(),
            rm == records_model(recs@),
            first_live(rm, g@, 0) == first_live(rm, g@, k as int),
        decreases recs@.len() - k,
    {
        let live = recs[k].0.is_some();
        if live {
            let cell = recs[k].1;
            let mut j: usize = 0;
            let mut has = false;
            while j < g.len()
                invariant
                    j <= g@.len(),
                    has == exists|q: int| 0 <= q < j && #[trigger] g@[q] == cell,
                decreases g@.len() - j,
            {
                if same_cell(g[j], cell) {
                    has = true;
                }
                j = j + 1;
            }
            assert(has == g@.contains(cell));
            if has {
                return Some(k);
            }
        }
        k = k + 1;
    }
    None
}

fn lowest_highest(s: &Shape) -> (r: Option<(i32, i32, i32, i32)>)
    ensures
        match r {
            Some(b) => has_vertex(s@) && b.0 == lowest(s@, true) && b.1 == highest(s@, true)
                && b.2 == lowest(s@, false) && b.3 == highest(s@, false) && b.0 <= b.1 && b.2 <= b.3
                && is_lowest(s@, true, b.0 as int) && is_highest(s@, true, b.1 as int)
                && is_lowest(s@, false, b.2 as int) && is_highest(s@, false, b.3 as int),
            None => !has_vertex(s@),
        },
{
    match bounding_box(s) {
        Some(b) => {
            proof {
                lemma_lowest_unique(s@, true, b.0 as int);
                lemma_highest_unique(s@, true, b.1 as int);
                lemma_lowest_unique(s@, false, b.2 as int);
                lemma_highest_unique(s@, false, b.3 as int);
                crate::shapes::lemma_lowest_le_highest(s@, true, b.0 as int, b.1 as int);
                crate::shapes::lemma_lowest_le_highest(s@, false, b.2 as int, b.3 as int);
                let (c0, k0, j0) = choose|c0: int, k0: int, j0: int|
                    valid_vertex(s@, c0, k0, j0) && crate::shapes::coord(#[trigger] s@[c0].1[k0][j0], true) == b.0;
                assert(valid_vertex(s@, c0, k0, j0));
            }
            Some(b)
        },
        None => None,
    }
}

fn trunc_rem_exec(v: i128, m: i128) -> (r: i128)
    requires
        1 <= m,
        -0x1_0000_0000_0000_0000_0000_0000_0000 <= v <= 0x1_0000_0000_0000_0000_0000_0000_0000,
    ensures
        r == trunc_rem(v as int, m as int),
{
    if v >= 0 {
        v % m
    } else {
        -((-v) % m)
    }
}

fn align_offset_exec(v: i128, size: i64) -> (r: i128)
    requires
        1 <= size <= 0x1_0000_0000,
        -0x1_0000_0000_0000_0000 <= v <= 0x1_0000_0000_0000_0000,
    ensures
        r == align_offset(v as int, size as int),
        -0x2_0000_0000 <= r <= 0x2_0000_0000,
{
    let h = (size / 2) as i128;
    let t = trunc_rem_exec(v + h, size as i128);
    assert(-(size as int) < t < size as int) by {
        let w = v + h;
        if w >= 0 {
            assert(0 <= w % (size as int) < size);
        } else {
            assert(0 <= (-w) % (size as int) < size);
        }
    }
    t - h
}

fn cell_centre_exec(l: Layout, c: Cell) -> (r: (i128, i128))
    requires
        layout_bounded(l),
    ensures
        r.0 == cell_centre(l, c).0,
        r.1 == cell_centre(l, c).1,
        -0x1_0000_0000_0000_0000_0000_0000_0000 <= r.0 <= 0x1_0000_0000_0000_0000_0000_0000_0000,
        -0x1_0000_0000_0000_0000_0000_0000_0000 <= r.1 <= 0x1_0000_0000_0000_0000_0000_0000_0000,
{
    proof {
        let b: int = 0x1_0000_0000_0000_0000;
        let sb: int = 0x4_0000_0000;
        crate::shapes::lemma_product_bound(l.x.dx as int, c.0 as int, sb, b);
        crate::shapes::lemma_product_bound(l.y.dx as int, c.1 as int, sb, b);
        crate::shapes::lemma_product_bound(l.z.dx as int, c.2 as int, sb, b);
        crate::shapes::lemma_product_bound(l.x.dy as int, c.0 as int, sb, b);
        crate::shapes::lemma_product_bound(l.y.dy as int, c.1 as int, sb, b);
        crate::shapes::lemma_product_bound(l.z.dy as int, c.2 as int, sb, b);
    }
    let x = l.origin_x + l.x.dx as i128 * c.0 as i128 + l.y.dx as i128 * c.1 as i128 + l.z.dx as i128
        * c.2 as i128;
    let y = l.origin_y + l.x.dy as i128 * c.0 as i128 + l.y.dy as i128 * c.1 as i128 + l.z.dy as i128
        * c.2 as i128;
    (x, y)
}

/// A copy of `proto` placed at cell `c`.
fn make_instance(l: Layout, proto: &Shape, c: Cell) -> (r: Result<Shape, SceneError>)
    requires
        layout_bounded(l),
    ensures
        match new_instance(l, proto@, c) {
            Ok(m) => r is Ok && r->Ok_0@ == m,
            Err(e) => r == Err::<Shape, SceneError>(e),
        },
{
    let b = match lowest_highest(proto) {
        Some(b) => b,
        None => {
            return Err(SceneError::EmptyTile);
        },
    };
    let pcx = floor_half(b.0 as i64 + b.1 as i64) as i128;
    let pcy = floor_half(b.2 as i64 + b.3 as i64) as i128;
    let (cx, cy) = cell_centre_exec(l, c);
    let ox = align_offset_exec(pcx - l.ref_x as i128, l.size_w);
    let oy = align_offset_exec(pcy - l.ref_y as i128, l.size_h);
    let dx = cx + ox - pcx;
    let dy = cy + oy - pcy;
    if i32::MIN as i128 <= b.0 as i128 + dx && b.1 as i128 + dx <= i32::MAX as i128 && i32::MIN as i128
        <= b.2 as i128 + dy && b.3 as i128 + dy <= i32::MAX as i128 {
        proof {
            assert forall|c2: int, k: int, j: int|
                valid_vertex(proto@, c2, k, j) implies i32::MIN <= #[trigger] proto@[c2].1[k][j].x
                    + dx <= i32::MAX && i32::MIN <= proto@[c2].1[k][j].y + dy <= i32::MAX by {
                assert(crate::shapes::coord(proto@[c2].1[k][j], true) >= b.0);
                assert(crate::shapes::coord(proto@[c2].1[k][j], true) <= b.1);
                assert(crate::shapes::coord(proto@[c2].1[k][j], false) >= b.2);
                assert(crate::shapes::coord(proto@[c2].1[k][j], false) <= b.3);
            }
        }
        Ok(shifted(proto, dx as i64, dy as i64))
    } else {
        Err(SceneError::OutOfRange)
    }
}

/// The composed scene: the surviving shapes in placement order and the size
/// of the canvas.
#[derive(Debug)]
pub struct Scene {
    pub shapes: Vec<Shape>,
    pub width: i128,
    pub height: i128,
}

/// The grid is a box: `nx` planes of `ny` rows of `nz` cells.
pub open spec fn grid_is_box(grid: Seq<Vec<Vec<u8>>>, nx: int, ny: int, nz: int) -> bool {
    &&& grid.len() == nx
    &&& forall|x: int| 0 <= x < nx ==> (#[trigger] grid[x])@.len() == ny
    &&& forall|x: int, y: int| 0 <= x < nx && 0 <= y < ny ==> (#[trigger] grid[x]@[y])@.len() == nz
}

/// The cells of the grid, each once, in painter's order.
pub open spec fn is_painter_order(order: Seq<Cell>, nx: int, ny: int, nz: int) -> bool {
    &&& forall|i: int| 0 <= i < order.len() ==> in_grid(#[trigger] order[i], nx, ny, nz)
    &&& forall|i: int, j: int|
        0 <= i < j < order.len() ==> key_lt(cell_key(#[trigger] order[i]), cell_key(#[trigger] order[j]))
    &&& forall|c: Cell| in_grid(c, nx, ny, nz) ==> #[trigger] order.contains(c)
}

/// The layout that the reference cube gives for a grid of the given size.
pub open spec fn layout_of(cube: Seq<ComponentModel>, ny: int, nz: int) -> Option<Layout> {
    match cube_scan(cube) {
        None => None,
        Some(st) => {
            let w = highest(cube, true) - lowest(cube, true);
            let h = highest(cube, false) - lowest(cube, false);
            if !has_vertex(cube) || w < 1 || h < 1 {
                None
            } else {
                let (x, y, z) = steps_of(st);
                Some(
                    Layout {
                        x,
                        y,
                        z,
                        origin_x: (-(nz * z.dx)) as i128,
                        origin_y: (-(ny * y.dy)) as i128,
                        ref_x: midpoint(lowest(cube, true), highest(cube, true)) as i64,
                        ref_y: midpoint(lowest(cube, false), highest(cube, false)) as i64,
                        size_w: w as i64,
                        size_h: h as i64,
                    },
                )
            }
        },
    }
}

/// The width and height of the canvas.
pub open spec fn board_size(l: Layout, nx: int, ny: int, nz: int) -> (int, int) {
    (nx * l.x.dx - nz * l.z.dx, nx * l.x.dy - ny * l.y.dy + nz * l.z.dy)
}

/// The scene that visiting `order` composes: the tile with id 255 is the
/// reference cube.
pub open spec fn compose(
    grid: Seq<Vec<Vec<u8>>>,
    lib: Seq<Option<Shape>>,
    groups: Seq<Seq<Cell>>,
    order: Seq<Cell>,
    nx: int,
    ny: int,
    nz: int,
) -> Result<(Seq<Seq<ComponentModel>>, int, int), SceneError> {
    match prototype(lib, 255) {
        None => Err(SceneError::BadReference),
        Some(cube) => match layout_of(cube, ny, nz) {
            None => Err(SceneError::BadReference),
            Some(l) => match run_cells(order, grid, lib, groups, l) {
                Err(e) => Err(e),
                Ok(recs) => Ok((survivors(recs), board_size(l, nx, ny, nz).0, board_size(l, nx, ny, nz).1)),
            },
        },
    }
}

proof fn lemma_run_cells_error(
    order: Seq<Cell>,
    grid: Seq<Vec<Vec<u8>>>,
    lib: Seq<Option<Shape>>,
    groups: Seq<Seq<Cell>>,
    l: Layout,
    i: int,
    m: int,
    e: SceneError,
)
    requires
        0 <= i <= m <= order.len(),
        run_cells(order.take(i), grid, lib, groups, l) == Err::<Seq<RecordModel>, SceneError>(e),
    ensures
        run_cells(order.take(m), grid, lib, groups, l) == Err::<Seq<RecordModel>, SceneError>(e),
    decreases m - i,
{
    if m > i {
        lemma_run_cells_error(order, grid, lib, groups, l, i, m - 1, e);
        assert(order.take(m).drop_last() =~= order.take(m - 1));
    }
}

/// The size of a grid: planes, rows per plane, cells per row.
pub open spec fn grid_dims(grid: Seq<Vec<Vec<u8>>>) -> (int, int, int) {
    let nx = grid.len() as int;
    let ny = if nx > 0 {
        grid[0]@.len() as int
    } else {
        0
    };
    let nz = if ny > 0 {
        grid[0]@[0]@.len() as int
    } else {
        0
    };
    (nx, ny, nz)
}

/// `r` is the scene composed by visiting the grid in the order `order`, and
/// `order` is the painter's order of the grid.
pub open spec fn composed_along(
    r: Result<Scene, SceneError>,
    grid: Seq<Vec<Vec<u8>>>,
    lib: Seq<Option<Shape>>,
    groups: Seq<Seq<Cell>>,
    order: Seq<Cell>,
) -> bool {
    let (nx, ny, nz) = grid_dims(grid);
    &&& is_painter_order(order, nx, ny, nz)
    &&& match compose(grid, lib, groups, order, nx, ny, nz) {
        Ok(sc) => r is Ok && Seq::new(r->Ok_0.shapes@.len(), |i: int| r->Ok_0.shapes@[i]@) == sc.0
            && r->Ok_0.width == sc.1 && r->Ok_0.height == sc.2,
        Err(e) => r == Err::<Scene, SceneError>(e),
    }
}

proof fn lemma_first_live(recs: Seq<RecordModel>, g: Seq<Cell>, j: int, k: int)
    requires
        0 <= j,
        first_live(recs, g, j) == Some(k),
    ensures
        j <= k < recs.len(),
        recs[k].0 is Some,
    decreases recs.len() - j,
{
    if j < recs.len() && !(recs[j].0 is Some && g.contains(recs[j].1)) {
        lemma_first_live(recs, g, j + 1, k);
    }
}

fn take_shape(o: Option<Shape>) -> (r: Shape)
    requires
        o is Some,
    ensures
        r == o->0,
{
    o.unwrap()
}

/// Trims every live placement by the polygons `occ`.
fn sweep_records(recs: &mut Vec<(Option<Shape>, Cell)>, occ: &Vec<Vec<Vec2>>)
    ensures
        records_model(final(recs)@) == sweep(records_model(old(recs)@), nested(occ@)),
{
    let ghost orig = records_model(recs@);
    let mut k: usize = 0;
    while k < recs.len()
        invariant
            k <= recs@.len(),
            recs@.len() == orig.len(),
            orig == records_model(old(recs)@),
            forall|q: int| 0 <= q < k ==> #[trigger] records_model(recs@)[q] == sweep(orig, nested(occ@))[q],
            forall|q: int| k <= q < recs@.len() ==> #[trigger] records_model(recs@)[q] == orig[q],
        decreases recs@.len() - k,
    {
        let cell = recs[k].1;
        let mut slot: (Option<Shape>, Cell) = (None, cell);
        let ghost before = recs@;
        assert(records_model(before)[k as int] == orig[k as int]);
        recs.set_and_swap(k, &mut slot);
        assert(slot == before[k as int]);
        assert(record_model(slot) == orig[k as int]);
        let trimmed = match slot.0 {
            Some(s) => trim_shape(&s, occ),
            None => None,
        };
        let mut fresh = (trimmed, cell);
        recs.set_and_swap(k, &mut fresh);
        assert(record_model(recs@[k as int]) == sweep(orig, nested(occ@))[k as int]);
        assert forall|q: int| 0 <= q < recs@.len() && q != k implies #[trigger] records_model(recs@)[q]
            == records_model(before)[q] by {
            assert(recs@[q] == before[q]);
        }
        k = k + 1;
    }
    assert(records_model(recs@) =~= sweep(orig, nested(occ@)));
}

/// The polygons of every face of a shape, face after face.
fn shape_rings(s: &Shape) -> (r: Vec<Vec<Vec2>>)
    ensures
        nested(r@) == component_rings(s@),
{
    s.copy_rings()
}

/// Composes a scene: visits the grid in painter's order and places, for each
/// cell whose tile id has a prototype, an instance of it, trimming what the
/// new instance covers. The prototype with id 255 is the reference cube that
/// gives the projection.
pub fn composite(grid: &Vec<Vec<Vec<u8>>>, library: &Vec<Option<Shape>>, groups: &Vec<Vec<Cell>>) -> (r: Result<Scene, SceneError>)
    requires
        grid@.len() > 0 ==> grid_is_box(grid@, grid@.len() as int, grid@[0]@.len() as int, if grid@[0]@.len() > 0 { grid@[0]@[0]@.len() as int } else { 0 }),
        grid@.len() > 0 && grid@[0]@.len() > 0 ==> grid@.len() + grid@[0]@.len() + grid@[0]@[0]@.len() <= usize::MAX,
    ensures
        exists|order: Seq<Cell>| #[trigger] composed_along(r, grid@, library@, groups_model(groups@), order),
{
    let nx = grid.len();
    let ny = if nx > 0 { grid[0].len() } else { 0 };
    let nz = if ny > 0 { grid[0][0].len() } else { 0 };
    let order = painter_order(nx, ny, nz);
    let ghost gm = groups_model(groups@);
    let ghost result = compose(grid@, library@, gm, order@, nx as int, ny as int, nz as int);
    assert(is_painter_order(order@, nx as int, ny as int, nz as int));
    let cube = if 255 < library.len() {
        match &library[255] {
            Some(c) => c,
            None => {
                let r = Err(SceneError::BadReference);
                assert(composed_along(r, grid@, library@, gm, order@));
                return r;
            },
        }
    } else {
        let r = Err(SceneError::BadReference);
        assert(composed_along(r, grid@, library@, gm, order@));
        return r;
    };
    assert(prototype(library@, 255) == Some(cube@));
    let (x, y, z) = match dimensions_from_cube(cube) {
        Some(steps) => steps,
        None => {
            let r = Err(SceneError::BadReference);
            assert(composed_along(r, grid@, library@, gm, order@));
            return r;
        },
    };
    let b = match lowest_highest(cube) {
        Some(b) => b,
        None => {
            let r = Err(SceneError::BadReference);
            assert(composed_along(r, grid@, library@, gm, order@));
            return r;
        },
    };
    let w = b.1 as i64 - b.0 as i64;
    let h = b.3 as i64 - b.2 as i64;
    if w < 1 || h < 1 {
        let r = Err(SceneError::BadReference);
        assert(composed_along(r, grid@, library@, gm, order@));
        return r;
    }
    proof {
        crate::shapes::lemma_product_bound(nz as int, z.dx as int, 0x1_0000_0000_0000_0000, 0x4_0000_0000);
        crate::shapes::lemma_product_bound(ny as int, y.dy as int, 0x1_0000_0000_0000_0000, 0x4_0000_0000);
        crate::shapes::lemma_product_bound(nx as int, x.dx as int, 0x1_0000_0000_0000_0000, 0x4_0000_0000);
        crate::shapes::lemma_product_bound(nx as int, x.dy as int, 0x1_0000_0000_0000_0000, 0x4_0000_0000);
        crate::shapes::lemma_product_bound(nz as int, z.dy as int, 0x1_0000_0000_0000_0000, 0x4_0000_0000);
    }
    let layout = Layout {
        x,
        y,
        z,
        origin_x: -(nz as i128 * z.dx as i128),
        origin_y: -(ny as i128 * y.dy as i128),
        ref_x: floor_half(b.0 as i64 + b.1 as i64),
        ref_y: floor_half(b.2 as i64 + b.3 as i64),
        size_w: w,
        size_h: h,
    };
    assert(layout_of(cube@, ny as int, nz as int) == Some(layout));
    let width = nx as i128 * x.dx as i128 - nz as i128 * z.dx as i128;
    let height = nx as i128 * x.dy as i128 - ny as i128 * y.dy as i128 + nz as i128 * z.dy as i128;
    assert(width == board_size(layout, nx as int, ny as int, nz as int).0);
    assert(height == board_size(layout, nx as int, ny as int, nz as int).1);
    let mut recs: Vec<(Option<Shape>, Cell)> = Vec::new();
    let mut i: usize = 0;
    assert(order@.take(0) =~= Seq::<Cell>::empty());
    assert(records_model(recs@) =~= Seq::<RecordModel>::empty());
    while i < order.len()
        invariant
            i <= order@.len(),
            layout_bounded(layout),
            is_painter_order(order@, nx as int, ny as int, nz as int),
            nx == grid@.len(),
            nx > 0 ==> ny == grid@[0]@.len(),
            ny > 0 ==> nz == grid@[0]@[0]@.len(),
            nx == 0 ==> ny == 0,
            ny == 0 ==> nz == 0,
            grid@.len() > 0 ==> grid_is_box(grid@, grid@.len() as int, grid@[0]@.len() as int, if grid@[0]@.len() > 0 { grid@[0]@[0]@.len() as int } else { 0 }),
            gm == groups_model(groups@),
            prototype(library@, 255) == Some(cube@),
            layout_of(cube@, ny as int, nz as int) == Some(layout),
            width == board_size(layout, nx as int, ny as int, nz as int).0,
            height == board_size(layout, nx as int, ny as int, nz as int).1,
            run_cells(order@.take(i as int), grid@, library@, gm, layout) == Ok::<Seq<RecordModel>, SceneError>(records_model(recs@)),
        decreases order@.len() - i,
    {
        let c = order[i];
        let ghost pre = order@.take(i + 1);
        assert(pre.drop_last() =~= order@.take(i as int));
        assert(pre.last() == c);
        assert(in_grid(order@[i as int], nx as int, ny as int, nz as int));
        let t = grid[c.0][c.1][c.2] as usize;
        if t < library.len() {
            if let Some(proto) = &library[t] {
                let ghost recs0 = records_model(recs@);
                let gi = find_group(groups, c);
                let reuse = match gi {
                    Some(g) => find_live(&recs, &groups[g]),
                    None => None,
                };
                let inst = match reuse {
                    Some(k) => {
                        proof {
                            lemma_first_live(recs0, groups@[gi->0 as int]@, 0, k as int);
                            assert(recs0[k as int] == record_model(recs@[k as int]));
                        }
                        let cell = recs[k].1;
                        let mut slot: (Option<Shape>, Cell) = (None, cell);
                        let ghost before = recs@;
                        recs.set_and_swap(k, &mut slot);
                        assert(slot == before[k as int]);
                        assert(records_model(recs@) =~= recs0.update(k as int, (None, recs0[k as int].1)));
                        let s = take_shape(slot.0);
                        assert(recs0[k as int].0 == Some(s@));
                        s
                    },
                    None => match make_instance(layout, proto, c) {
                        Ok(s) => s,
                        Err(e) => {
                            proof {
                                assert(run_cells(order@.take(i + 1), grid@, library@, gm, layout) == Err::<Seq<RecordModel>, SceneError>(e));
                                lemma_run_cells_error(order@, grid@, library@, gm, layout, i + 1, order@.len() as int, e);
                                assert(order@.take(order@.len() as int) =~= order@);
                            }
                            let r = Err(e);
                            assert(composed_along(r, grid@, library@, gm, order@));
                            return r;
                        },
                    },
                };
                let occ = shape_rings(&inst);
                sweep_records(&mut recs, &occ);
                let ghost swept = records_model(recs@);
                recs.push((Some(inst), c));
                assert(records_model(recs@) =~= swept.push((Some(inst@), c)));
            }
        }
        i = i + 1;
    }
    assert(order@.take(i as int) =~= order@);
    let mut shapes: Vec<Shape> = Vec::new();
    let ghost final_recs = records_model(recs@);
    let mut k: usize = 0;
    assert(final_recs.take(0) =~= Seq::<RecordModel>::empty());
    while k < recs.len()
        invariant
            k <= recs@.len(),
            final_recs.len() == recs@.len(),
            forall|q: int| k <= q < recs@.len() ==> #[trigger] records_model(recs@)[q] == final_recs[q],
            Seq::new(shapes@.len(), |q: int| shapes@[q]@) == survivors(final_recs.take(k as int)),
        decreases recs@.len() - k,
    {
        let cell = recs[k].1;
        let mut slot: (Option<Shape>, Cell) = (None, cell);
        let ghost before = recs@;
        assert(records_model(before)[k as int] == final_recs[k as int]);
        recs.set_and_swap(k, &mut slot);
        assert(slot == before[k as int]);
        assert(record_model(slot) == final_recs[k as int]);
        let ghost pre = final_recs.take(k + 1);
        assert(pre.drop_last() =~= final_recs.take(k as int));
        assert(pre.last() == final_recs[k as int]);
        let ghost shapes_before = Seq::new(shapes@.len(), |q: int| shapes@[q]@);
        match slot.0 {
            Some(s) => {
                shapes.push(s);
                assert(Seq::new(shapes@.len(), |q: int| shapes@[q]@) =~= shapes_before.push(s@));
            },
            None => {},
        }
        assert forall|q: int| k < q < recs@.len() implies #[trigger] records_model(recs@)[q] == final_recs[q] by {
            assert(recs@[q] == before[q]);
            assert(records_model(before)[q] == final_recs[q]);
        }
        k = k + 1;
    }
    assert(final_recs.take(k as int) =~= final_recs);
    let r = Ok(Scene { shapes, width, height });
    assert(composed_along(r, grid@, library@, gm, order@));
    r
}

} // verus!
