//! Polygons, faces and shapes, and the geometry kernel over them: point
//! containment by ray casting, enclosure, trimming of covered geometry, and
//! fusion of polygons that share a run of vertices.

use vstd::prelude::*;
use crate::vector::{Vec2, Vec3, cross2};
use crate::codec::{nested, decode, polygon_text, commands_text, render_commands, string_from_chars, encode_spec};
use crate::path::{Command, CommandType, CommandModel, PathError, commands_model};

verus! {

/// One closed polygon: an edge joins each vertex to the next, and the last to
/// the first.
#[derive(Debug)]
pub struct ShapePrimitive {
    pub points: Vec<Vec2>,
}

/// The polygons of one face, with the face's normal direction.
#[derive(Debug)]
pub struct ShapeComponent {
    pub normal: Vec3,
    pub primitives: Vec<ShapePrimitive>,
}

/// The faces of one tile.
#[derive(Debug)]
pub struct Shape {
    pub components: Vec<ShapeComponent>,
}

/// The mathematical content of a face: its normal and its polygons.
pub type ComponentModel = (Vec3, Seq<Seq<Vec2>>);

impl View for ShapePrimitive {
    type V = Seq<Vec2>;

    open spec fn view(&self) -> Seq<Vec2> {
        self.points@
    }
}

impl View for ShapeComponent {
    type V = ComponentModel;

    open spec fn view(&self) -> ComponentModel {
        (self.normal, Seq::new(self.primitives@.len(), |i: int| self.primitives@[i]@))
    }
}

impl View for Shape {
    type V = Seq<ComponentModel>;

    open spec fn view(&self) -> Seq<ComponentModel> {
        Seq::new(self.components@.len(), |i: int| self.components@[i]@)
    }
}

/// All polygons of a list of faces, face after face.
pub open spec fn component_rings(cs: Seq<ComponentModel>) -> Seq<Seq<Vec2>>
    decreases cs.len(),
{
    if cs.len() == 0 {
        seq![]
    } else {
        component_rings(cs.drop_last()) + cs.last().1
    }
}

/// Something made of closed polygons.
pub trait Polygonal {
    /// The polygons, in order.
    spec fn rings(&self) -> Seq<Seq<Vec2>>;

    /// A copy of the polygons' vertex lists.
    fn copy_rings(&self) -> (r: Vec<Vec<Vec2>>)
        ensures
            nested(r@) == self.rings(),
    ;
}

/// A copy of a vertex list.
pub fn copy_points(v: &Vec<Vec2>) -> (r: Vec<Vec2>)
    ensures
        r@ == v@,
{
    let mut r: Vec<Vec2> = Vec::new();
    let mut i: usize = 0;
    while i < v.len()
        invariant
            i <= v@.len(),
            r@ == v@.take(i as int),
        decreases v@.len() - i,
    {
        r.push(v[i]);
        i = i + 1;
        assert(r@ =~= v@.take(i as int));
    }
    assert(r@ =~= v@);
    r
}

fn push_rings(out: &mut Vec<Vec<Vec2>>, prims: &Vec<ShapePrimitive>)
    ensures
        nested(final(out)@) == nested(old(out)@) + Seq::new(
            prims@.len(),
            |i: int| prims@[i]@,
        ),
{
    let mut i: usize = 0;
    while i < prims.len()
        invariant
            i <= prims@.len(),
            nested(out@) == nested(old(out)@) + Seq::new(i as nat, |k: int| prims@[k]@),
        decreases prims@.len() - i,
    {
        let ghost before = nested(out@);
        out.push(copy_points(&prims[i].points));
        i = i + 1;
        assert(nested(out@) =~= before.push(prims@[i - 1]@));
        assert(nested(old(out)@) + Seq::new(i as nat, |k: int| prims@[k]@) =~= before.push(
            prims@[i - 1]@,
        ));
    }
    assert(Seq::new(i as nat, |k: int| prims@[k]@) =~= Seq::new(prims@.len(), |k: int| prims@[k]@));
}

impl Polygonal for ShapePrimitive {
    open spec fn rings(&self) -> Seq<Seq<Vec2>> {
        seq![self.points@]
    }

    fn copy_rings(&self) -> (r: Vec<Vec<Vec2>>) {
        let mut r: Vec<Vec<Vec2>> = Vec::new();
        r.push(copy_points(&self.points));
        assert(nested(r@) =~= seq![self.points@]);
        r
    }
}

impl Polygonal for ShapeComponent {
    open spec fn rings(&self) -> Seq<Seq<Vec2>> {
        self@.1
    }

    fn copy_rings(&self) -> (r: Vec<Vec<Vec2>>) {
        let mut r: Vec<Vec<Vec2>> = Vec::new();
        push_rings(&mut r, &self.primitives);
        assert(nested(r@) =~= self@.1);
        r
    }
}

impl Polygonal for Shape {
    open spec fn rings(&self) -> Seq<Seq<Vec2>> {
        component_rings(self@)
    }

    fn copy_rings(&self) -> (r: Vec<Vec<Vec2>>) {
        let mut r: Vec<Vec<Vec2>> = Vec::new();
        let mut i: usize = 0;
        assert(self@.take(0) =~= Seq::<ComponentModel>::empty());
        while i < self.components.len()
            invariant
                i <= self@.len(),
                self@.len() == self.components@.len(),
                nested(r@) == component_rings(self@.take(i as int)),
            decreases self@.len() - i,
        {
            push_rings(&mut r, &self.components[i].primitives);
            i = i + 1;
            assert(self@.take(i as int).drop_last() =~= self@.take(i - 1));
            assert(self@.take(i as int).last() == self.components@[i - 1]@);
        }
        assert(self@.take(i as int) =~= self@);
        r
    }
}

/// A copy of a face.
pub fn copy_component(c: &ShapeComponent) -> (r: ShapeComponent)
    ensures
        r@ == c@,
{
    let mut prims: Vec<ShapePrimitive> = Vec::new();
    let mut k: usize = 0;
    while k < c.primitives.len()
        invariant
            k <= c.primitives@.len(),
            Seq::new(prims@.len(), |q: int| prims@[q]@) == c@.1.take(k as int),
        decreases c.primitives@.len() - k,
    {
        let ghost before = Seq::new(prims@.len(), |q: int| prims@[q]@);
        prims.push(ShapePrimitive { points: copy_points(&c.primitives[k].points) });
        assert(Seq::new(prims@.len(), |q: int| prims@[q]@) =~= before.push(c@.1[k as int]));
        assert(c@.1.take(k + 1) =~= c@.1.take(k as int).push(c@.1[k as int]));
        k = k + 1;
    }
    assert(c@.1.take(k as int) =~= c@.1);
    let r = ShapeComponent { normal: c.normal, primitives: prims };
    assert(r@.1 =~= c@.1);
    r
}

/// A copy of a shape.
pub fn copy_shape(s: &Shape) -> (r: Shape)
    ensures
        r@ == s@,
{
    let mut comps: Vec<ShapeComponent> = Vec::new();
    let mut i: usize = 0;
    while i < s.components.len()
        invariant
            i <= s@.len(),
            s@.len() == s.components@.len(),
            Seq::new(comps@.len(), |q: int| comps@[q]@) == s@.take(i as int),
        decreases s@.len() - i,
    {
        let ghost before = Seq::new(comps@.len(), |q: int| comps@[q]@);
        comps.push(copy_component(&s.components[i]));
        assert(Seq::new(comps@.len(), |q: int| comps@[q]@) =~= before.push(s@[i as int]));
        assert(s@.take(i + 1) =~= s@.take(i as int).push(s@[i as int]));
        i = i + 1;
    }
    assert(s@.take(i as int) =~= s@);
    let r = Shape { components: comps };
    assert(r@ =~= s@);
    r
}

// ----- containment -----

/// Where a point lies with respect to a set of polygons.
#[derive(Clone, Copy, Debug, PartialEq, Eq, Structural)]
pub enum Containment {
    Inside,
    Edge,
    Outside,
}

/// The edge of polygon `r` that starts at vertex `j`, with the vertex before
/// it: `(previous, start, end)`.
pub open spec fn edge_at(r: Seq<Vec2>, j: int) -> (Vec2, Vec2, Vec2) {
    let n = r.len() as int;
    (r[(j + n - 1) % n], r[j], r[(j + 1) % n])
}

/// `cross(b - a, d)`: zero when the edge from `a` to `b` is parallel to `d`.
pub open spec fn denominator(d: Vec2, a: Vec2, b: Vec2) -> int {
    (b.x - a.x) * d.y - (b.y - a.y) * d.x
}

/// `cross(p - a, d)`: the ray from `p` along `d` meets the edge at parameter
/// `lambda_num / denominator` along it.
pub open spec fn lambda_num(d: Vec2, a: Vec2, p: Vec2) -> int {
    (p.x - a.x) * d.y - (p.y - a.y) * d.x
}

/// `cross(a - p, b - a)`: the ray meets the edge at parameter
/// `-mu_num / denominator` along the ray.
pub open spec fn mu_num(a: Vec2, b: Vec2, p: Vec2) -> int {
    (a.x - p.x) * (b.y - a.y) - (a.y - p.y) * (b.x - a.x)
}

/// The ray from `p` along `d` and the edge lie on one line, or the edge is a
/// single point: the intersection parameters are undefined.
pub open spec fn degenerate(d: Vec2, a: Vec2, b: Vec2, p: Vec2) -> bool {
    denominator(d, a, b) == 0 && (lambda_num(d, a, p) == 0 || mu_num(a, b, p) == 0)
}

/// `p` lies in the bounding box of the edge.
pub open spec fn in_box(a: Vec2, b: Vec2, p: Vec2) -> bool {
    ((a.x <= p.x <= b.x) || (b.x <= p.x <= a.x)) && ((a.y <= p.y <= b.y) || (b.y <= p.y <= a.y))
}

/// `p` lies on the edge from `a` to `b`, as seen along `d`.
pub open spec fn touches(d: Vec2, a: Vec2, b: Vec2, p: Vec2) -> bool {
    let den = denominator(d, a, b);
    let l = lambda_num(d, a, p);
    if den != 0 {
        mu_num(a, b, p) == 0 && 0 <= l * den <= den * den
    } else {
        degenerate(d, a, b, p) && in_box(a, b, p)
    }
}

/// The ray from `p` along `d` passes through the edge from `a` to `b`: it meets
/// the edge strictly between its ends, or meets its start while the previous
/// edge and this one go to the same side of the ray.
pub open spec fn crosses(d: Vec2, prev: Vec2, a: Vec2, b: Vec2, p: Vec2) -> bool {
    let den = denominator(d, a, b);
    let l = lambda_num(d, a, p);
    let turn = denominator(d, prev, a);
    den != 0 && mu_num(a, b, p) * den < 0 && ((0 < l * den < den * den) || (l == 0 && ((turn >= 0)
        == (den >= 0))))
}

/// Some edge of the polygons is degenerate for the ray from `p` along `d`.
pub open spec fn any_degenerate(rs: Seq<Seq<Vec2>>, d: Vec2, p: Vec2) -> bool {
    exists|i: int, j: int|
        0 <= i < rs.len() && 0 <= j < rs[i].len() && #[trigger] degenerate(
            d,
            edge_at(rs[i], j).1,
            edge_at(rs[i], j).2,
            p,
        )
}

/// Some edge of the polygons holds `p`, as seen along `d`.
pub open spec fn any_touches(rs: Seq<Seq<Vec2>>, d: Vec2, p: Vec2) -> bool {
    exists|i: int, j: int|
        0 <= i < rs.len() && 0 <= j < rs[i].len() && #[trigger] touches(
            d,
            edge_at(rs[i], j).1,
            edge_at(rs[i], j).2,
            p,
        )
}

/// How many edges among the first `j` of polygon `r` the ray passes through.
pub open spec fn ring_crossings(r: Seq<Vec2>, j: int, d: Vec2, p: Vec2) -> nat
    decreases j,
{
    if j <= 0 {
        0
    } else {
        ring_crossings(r, j - 1, d, p) + if crosses(
            d,
            edge_at(r, j - 1).0,
            edge_at(r, j - 1).1,
            edge_at(r, j - 1).2,
            p,
        ) {
            1nat
        } else {
            0nat
        }
    }
}

/// How many edges of the polygons the ray passes through.
pub open spec fn crossings(rs: Seq<Seq<Vec2>>, d: Vec2, p: Vec2) -> nat
    decreases rs.len(),
{
    if rs.len() == 0 {
        0
    } else {
        crossings(rs.drop_last(), d, p) + ring_crossings(rs.last(), rs.last().len() as int, d, p)
    }
}

/// The ray direction used for `p`: along `x`, unless that makes some edge
/// degenerate, and then along `y`.
pub open spec fn ray_direction(rs: Seq<Seq<Vec2>>, p: Vec2) -> Vec2 {
    if any_degenerate(rs, Vec2 { x: 1, y: 0 }, p) {
        Vec2 { x: 0, y: 1 }
    } else {
        Vec2 { x: 1, y: 0 }
    }
}

/// Where `p` lies with respect to the polygons: on an edge, or inside when the
/// ray from it passes through an odd number of edges.
pub open spec fn containment(rs: Seq<Seq<Vec2>>, p: Vec2) -> Containment {
    let d = ray_direction(rs, p);
    if any_touches(rs, d, p) {
        Containment::Edge
    } else if crossings(rs, d, p) % 2 == 1 {
        Containment::Inside
    } else {
        Containment::Outside
    }
}

pub(crate) proof fn lemma_product_bound(a: int, b: int, ba: int, bb: int)
    requires
        -ba <= a <= ba,
        -bb <= b <= bb,
    ensures
        -(ba * bb) <= a * b <= ba * bb,
{
    assert(-(ba * bb) <= a * b <= ba * bb) by (nonlinear_arith)
        requires
            -ba <= a <= ba,
            -bb <= b <= bb,
    ;
}

/// The three tests of one edge against a ray along an axis direction.
fn edge_tests(d: Vec2, prev: Vec2, a: Vec2, b: Vec2, p: Vec2) -> (r: (bool, bool, bool))
    requires
        (d.x == 1 && d.y == 0) || (d.x == 0 && d.y == 1),
    ensures
        r.0 == degenerate(d, a, b, p),
        r.1 == touches(d, a, b, p),
        r.2 == crosses(d, prev, a, b, p),
{
    let ex = b.x as i128 - a.x as i128;
    let ey = b.y as i128 - a.y as i128;
    let (den, l, turn) = if d.x == 1 {
        (-ey, -(p.y as i128 - a.y as i128), -(a.y as i128 - prev.y as i128))
    } else {
        (ex, p.x as i128 - a.x as i128, a.x as i128 - prev.x as i128)
    };
    assert(den == denominator(d, a, b));
    assert(l == lambda_num(d, a, p));
    assert(turn == denominator(d, prev, a));
    let apx = a.x as i128 - p.x as i128;
    let apy = a.y as i128 - p.y as i128;
    proof {
        lemma_product_bound(apx as int, ey as int, 0x1_0000_0000, 0x1_0000_0000);
        lemma_product_bound(apy as int, ex as int, 0x1_0000_0000, 0x1_0000_0000);
    }
    let mu = apx * ey - apy * ex;
    proof {
        lemma_product_bound(l as int, den as int, 0x1_0000_0000, 0x1_0000_0000);
        lemma_product_bound(den as int, den as int, 0x1_0000_0000, 0x1_0000_0000);
        lemma_product_bound(mu as int, den as int, 0x2_0000_0000_0000_0000, 0x1_0000_0000);
    }
    let degen = den == 0 && (l == 0 || mu == 0);
    let touch = if den != 0 {
        mu == 0 && 0 <= l * den && l * den <= den * den
    } else {
        degen && ((a.x <= p.x && p.x <= b.x) || (b.x <= p.x && p.x <= a.x)) && ((a.y <= p.y && p.y
            <= b.y) || (b.y <= p.y && p.y <= a.y))
    };
    let cross = den != 0 && mu * den < 0 && ((0 < l * den && l * den < den * den) || (l == 0 && ((
    turn >= 0) == (den >= 0))));
    (degen, touch, cross)
}

/// Whether some edge is degenerate for the ray from `p` along `d`.
fn find_degenerate(rs: &Vec<Vec<Vec2>>, d: Vec2, p: Vec2) -> (r: bool)
    requires
        (d.x == 1 && d.y == 0) || (d.x == 0 && d.y == 1),
    ensures
        r == any_degenerate(nested(rs@), d, p),
{
    let ghost m = nested(rs@);
    let mut i: usize = 0;
    while i < rs.len()
        invariant
            i <= rs@.len(),
            m == nested(rs@),
            (d.x == 1 && d.y == 0) || (d.x == 0 && d.y == 1),
            forall|i2: int, j2: int|
                0 <= i2 < i && 0 <= j2 < m[i2].len() ==> !#[trigger] degenerate(
                    d,
                    edge_at(m[i2], j2).1,
                    edge_at(m[i2], j2).2,
                    p,
                ),
        decreases rs@.len() - i,
    {
        let r = &rs[i];
        let n = r.len();
        assert(r@ == m[i as int]);
        let mut j: usize = 0;
        while j < n
            invariant
                i < rs@.len(),
                m == nested(rs@),
                m.len() == rs@.len(),
                n == r@.len(),
                r@ == m[i as int],
                j <= n,
                (d.x == 1 && d.y == 0) || (d.x == 0 && d.y == 1),
                forall|j2: int|
                    0 <= j2 < j ==> !#[trigger] degenerate(
                        d,
                        edge_at(m[i as int], j2).1,
                        edge_at(m[i as int], j2).2,
                        p,
                    ),
            decreases n - j,
        {
            let pj: usize = if j == 0 {
                n - 1
            } else {
                j - 1
            };
            let nj: usize = if j + 1 == n {
                0
            } else {
                j + 1
            };
            proof {
                let nn = n as int;
                let jj = j as int;
                if jj == 0 {
                    assert((jj + nn - 1) % nn == nn - 1) by (nonlinear_arith)
                        requires jj == 0, nn >= 1;
                } else {
                    assert((jj + nn - 1) % nn == jj - 1) by (nonlinear_arith)
                        requires 1 <= jj < nn;
                }
                if jj + 1 == nn {
                    assert((jj + 1) % nn == 0) by (nonlinear_arith)
                        requires jj + 1 == nn, nn >= 1;
                } else {
                    assert((jj + 1) % nn == jj + 1) by (nonlinear_arith)
                        requires 0 <= jj, jj + 1 < nn;
                }
            }
            let prev = r[pj];
            let nxt = r[nj];
            let t = edge_tests(d, prev, r[j], nxt, p);
            assert(t.0 == degenerate(d, edge_at(m[i as int], j as int).1, edge_at(m[i as int], j as int).2, p));
            assert(t.1 == touches(d, edge_at(m[i as int], j as int).1, edge_at(m[i as int], j as int).2, p));
            assert(t.2 == crosses(d, edge_at(m[i as int], j as int).0, edge_at(m[i as int], j as int).1, edge_at(m[i as int], j as int).2, p));
            if t.0 {
                assert(degenerate(d, edge_at(m[i as int], j as int).1, edge_at(m[i as int], j as int).2, p));
                return true;
            }
            j = j + 1;
        }
        i = i + 1;
    }
    false
}

/// Whether some edge holds `p`, and how many edges the ray passes through.
fn touch_and_count(rs: &Vec<Vec<Vec2>>, d: Vec2, p: Vec2) -> (r: (bool, u64))
    requires
        (d.x == 1 && d.y == 0) || (d.x == 0 && d.y == 1),
    ensures
        r.0 == any_touches(nested(rs@), d, p),
        !r.0 ==> r.1 % 2 == crossings(nested(rs@), d, p) % 2,
{
    let ghost m = nested(rs@);
    let mut i: usize = 0;
    let mut odd: u64 = 0;
    assert(m.take(0) =~= Seq::<Seq<Vec2>>::empty());
    while i < rs.len()
        invariant
            i <= rs@.len(),
            m == nested(rs@),
            (d.x == 1 && d.y == 0) || (d.x == 0 && d.y == 1),
            odd < 2,
            odd == crossings(m.take(i as int), d, p) % 2,
            forall|i2: int, j2: int|
                0 <= i2 < i && 0 <= j2 < m[i2].len() ==> !#[trigger] touches(
                    d,
                    edge_at(m[i2], j2).1,
                    edge_at(m[i2], j2).2,
                    p,
                ),
        decreases rs@.len() - i,
    {
        let r = &rs[i];
        let n = r.len();
        assert(r@ == m[i as int]);
        let mut j: usize = 0;
        let ghost base = crossings(m.take(i as int), d, p);
        let mut ring_odd: u64 = 0;
        while j < n
            invariant
                i < rs@.len(),
                m == nested(rs@),
                m.len() == rs@.len(),
                n == r@.len(),
                r@ == m[i as int],
                j <= n,
                (d.x == 1 && d.y == 0) || (d.x == 0 && d.y == 1),
                ring_odd < 2,
                ring_odd == ring_crossings(m[i as int], j as int, d, p) % 2,
                forall|j2: int|
                    0 <= j2 < j ==> !#[trigger] touches(
                        d,
                        edge_at(m[i as int], j2).1,
                        edge_at(m[i as int], j2).2,
                        p,
                    ),
            decreases n - j,
        {
            let pj: usize = if j == 0 {
                n - 1
            } else {
                j - 1
            };
            let nj: usize = if j + 1 == n {
                0
            } else {
                j + 1
            };
            proof {
                let nn = n as int;
                let jj = j as int;
                if jj == 0 {
                    assert((jj + nn - 1) % nn == nn - 1) by (nonlinear_arith)
                        requires jj == 0, nn >= 1;
                } else {
                    assert((jj + nn - 1) % nn == jj - 1) by (nonlinear_arith)
                        requires 1 <= jj < nn;
                }
                if jj + 1 == nn {
                    assert((jj + 1) % nn == 0) by (nonlinear_arith)
                        requires jj + 1 == nn, nn >= 1;
                } else {
                    assert((jj + 1) % nn == jj + 1) by (nonlinear_arith)
                        requires 0 <= jj, jj + 1 < nn;
                }
            }
            let prev = r[pj];
            let nxt = r[nj];
            let t = edge_tests(d, prev, r[j], nxt, p);
            assert(t.0 == degenerate(d, edge_at(m[i as int], j as int).1, edge_at(m[i as int], j as int).2, p));
            assert(t.1 == touches(d, edge_at(m[i as int], j as int).1, edge_at(m[i as int], j as int).2, p));
            assert(t.2 == crosses(d, edge_at(m[i as int], j as int).0, edge_at(m[i as int], j as int).1, edge_at(m[i as int], j as int).2, p));
            if t.1 {
                assert(touches(d, edge_at(m[i as int], j as int).1, edge_at(m[i as int], j as int).2, p));
                return (true, 0);
            }
            if t.2 {
                ring_odd = 1 - ring_odd;
            }
            j = j + 1;
        }
        proof {
            let mi = m.take(i + 1);
            assert(mi.drop_last() =~= m.take(i as int));
            assert(mi.last() == m[i as int]);
        }
        odd = (odd + ring_odd) % 2;
        i = i + 1;
    }
    assert(m.take(i as int) =~= m);
    (false, odd)
}

/// Classifies `p` against a list of polygons.
pub fn containment_in(rs: &Vec<Vec<Vec2>>, p: Vec2) -> (r: Containment)
    ensures
        r == containment(nested(rs@), p),
{
    let along_x = Vec2 { x: 1, y: 0 };
    let d = if find_degenerate(rs, along_x, p) {
        Vec2 { x: 0, y: 1 }
    } else {
        along_x
    };
    let (touch, count) = touch_and_count(rs, d, p);
    if touch {
        Containment::Edge
    } else if count % 2 == 1 {
        Containment::Inside
    } else {
        Containment::Outside
    }
}

/// Classifies `p` against the polygons of `a`.
pub fn get_containment<P: Polygonal>(a: &P, p: Vec2) -> (r: Containment)
    ensures
        r == containment(a.rings(), p),
{
    let rs = a.copy_rings();
    containment_in(&rs, p)
}

/// `p` lies on the segment from `a` to `b`: on its line, within its box.
pub open spec fn on_segment(a: Vec2, b: Vec2, p: Vec2) -> bool {
    (p.x - a.x) * (b.y - a.y) - (p.y - a.y) * (b.x - a.x) == 0 && in_box(a, b, p)
}

proof fn lemma_between(u: int, v: int, e: int, f: int)
    requires
        u * f == v * e,
        0 <= v * f <= f * f,
        f != 0,
    ensures
        (0 <= u <= e || e <= u <= 0),
        (0 <= v <= f || f <= v <= 0),
{
    if f > 0 {
        assert(0 <= v <= f) by (nonlinear_arith)
            requires 0 <= v * f <= f * f, f > 0;
        if e >= 0 {
            assert(0 <= u <= e) by (nonlinear_arith)
                requires u * f == v * e, 0 <= v <= f, f > 0, e >= 0;
        } else {
            assert(e <= u <= 0) by (nonlinear_arith)
                requires u * f == v * e, 0 <= v <= f, f > 0, e < 0;
        }
    } else {
        assert(f <= v <= 0) by (nonlinear_arith)
            requires 0 <= v * f <= f * f, f < 0;
        if e >= 0 {
            assert(0 <= u <= e) by (nonlinear_arith)
                requires u * f == v * e, f <= v <= 0, f < 0, e >= 0;
        } else {
            assert(e <= u <= 0) by (nonlinear_arith)
                requires u * f == v * e, f <= v <= 0, f < 0, e < 0;
        }
    }
}

/// An edge that holds `p` along an axis ray holds it as a segment.
pub proof fn lemma_touch_on_segment(d: Vec2, a: Vec2, b: Vec2, p: Vec2)
    requires
        (d.x == 1 && d.y == 0) || (d.x == 0 && d.y == 1),
        touches(d, a, b, p),
    ensures
        on_segment(a, b, p),
{
    let ex = b.x - a.x;
    let ey = b.y - a.y;
    let px = p.x - a.x;
    let py = p.y - a.y;
    assert(mu_num(a, b, p) == -(px * ey - py * ex)) by (nonlinear_arith)
        requires ex == b.x - a.x, ey == b.y - a.y, px == p.x - a.x, py == p.y - a.y;
    if d.x == 1 {
        assert(denominator(d, a, b) == -ey);
        assert(lambda_num(d, a, p) == -py) by (nonlinear_arith)
            requires d.x == 1, d.y == 0, px == p.x - a.x, py == p.y - a.y;
        if ey != 0 {
            assert(px * ey == py * ex);
            assert((-py) * (-ey) == py * ey) by (nonlinear_arith);
            assert((-ey) * (-ey) == ey * ey) by (nonlinear_arith);
            lemma_between(px, py, ex, ey);
        } else {
            assert(py * ex == 0 || px * ey - py * ex == 0) by (nonlinear_arith)
                requires ey == 0, py == 0 || px * ey - py * ex == 0;
            assert(px * ey == 0) by (nonlinear_arith)
                requires ey == 0;
        }
    } else {
        assert(denominator(d, a, b) == ex) by (nonlinear_arith)
            requires d.x == 0, d.y == 1, ex == b.x - a.x, ey == b.y - a.y;
        assert(lambda_num(d, a, p) == px) by (nonlinear_arith)
            requires d.x == 0, d.y == 1, px == p.x - a.x, py == p.y - a.y;
        if ex != 0 {
            assert(py * ex == px * ey);
            lemma_between(py, px, ey, ex);
        } else {
            assert(py * ex == 0) by (nonlinear_arith)
                requires ex == 0;
        }
    }
}

/// A point that lies on no edge is classified inside or outside, never on
/// the boundary.
pub proof fn lemma_off_boundary(rs: Seq<Seq<Vec2>>, p: Vec2)
    requires
        forall|i: int, j: int|
            0 <= i < rs.len() && 0 <= j < rs[i].len() ==> !on_segment(
                #[trigger] edge_at(rs[i], j).1,
                edge_at(rs[i], j).2,
                p,
            ),
    ensures
        containment(rs, p) == Containment::Inside || containment(rs, p) == Containment::Outside,
{
    let d = ray_direction(rs, p);
    if any_touches(rs, d, p) {
        let (i, j) = choose|i: int, j: int|
            0 <= i < rs.len() && 0 <= j < rs[i].len() && #[trigger] touches(
                d,
                edge_at(rs[i], j).1,
                edge_at(rs[i], j).2,
                p,
            );
        lemma_touch_on_segment(d, edge_at(rs[i], j).1, edge_at(rs[i], j).2, p);
    }
}

// ----- enclosure and trimming -----

/// Every vertex of polygon `q` lies inside the polygons `occ` or on one of
/// their edges.
pub open spec fn covers(occ: Seq<Seq<Vec2>>, q: Seq<Vec2>) -> bool {
    forall|j: int| 0 <= j < q.len() ==> containment(occ, #[trigger] q[j]) != Containment::Outside
}

/// Every vertex of the polygons `rs` lies inside `occ` or on one of its edges.
pub open spec fn encloses(occ: Seq<Seq<Vec2>>, rs: Seq<Seq<Vec2>>) -> bool {
    forall|i: int| 0 <= i < rs.len() ==> covers(occ, #[trigger] rs[i])
}

/// The polygons among `ps` that `occ` does not cover, in order.
pub open spec fn kept_primitives(ps: Seq<Seq<Vec2>>, occ: Seq<Seq<Vec2>>) -> Seq<Seq<Vec2>>
    decreases ps.len(),
{
    if ps.len() == 0 {
        seq![]
    } else if covers(occ, ps.last()) {
        kept_primitives(ps.drop_last(), occ)
    } else {
        kept_primitives(ps.drop_last(), occ).push(ps.last())
    }
}

/// A face without the polygons that `occ` covers; `None` when none is left.
pub open spec fn reduce_component(c: ComponentModel, occ: Seq<Seq<Vec2>>) -> Option<ComponentModel> {
    let k = kept_primitives(c.1, occ);
    if k.len() == 0 {
        None
    } else {
        Some((c.0, k))
    }
}

/// The faces among `cs` that keep a polygon after trimming by `occ`, trimmed.
pub open spec fn kept_components(cs: Seq<ComponentModel>, occ: Seq<Seq<Vec2>>) -> Seq<
    ComponentModel,
>
    decreases cs.len(),
{
    if cs.len() == 0 {
        seq![]
    } else {
        match reduce_component(cs.last(), occ) {
            Some(c) => kept_components(cs.drop_last(), occ).push(c),
            None => kept_components(cs.drop_last(), occ),
        }
    }
}

/// A shape without the polygons that `occ` covers; `None` when nothing is left.
pub open spec fn reduce_shape(s: Seq<ComponentModel>, occ: Seq<Seq<Vec2>>) -> Option<
    Seq<ComponentModel>,
> {
    let k = kept_components(s, occ);
    if k.len() == 0 {
        None
    } else {
        Some(k)
    }
}

/// Whether every vertex of `pts` lies inside the polygons `occ` or on an edge.
pub fn covers_points(occ: &Vec<Vec<Vec2>>, pts: &Vec<Vec2>) -> (r: bool)
    ensures
        r == covers(nested(occ@), pts@),
{
    let mut j: usize = 0;
    while j < pts.len()
        invariant
            j <= pts@.len(),
            forall|k: int|
                0 <= k < j ==> containment(nested(occ@), #[trigger] pts@[k]) != Containment::Outside,
        decreases pts@.len() - j,
    {
        if let Containment::Outside = containment_in(occ, pts[j]) {
            return false;
        }
        j = j + 1;
    }
    true
}

/// Whether `a` encloses every vertex of `b`.
pub fn obscures<A: Polygonal, B: Polygonal>(a: &A, b: &B) -> (r: bool)
    ensures
        r == encloses(a.rings(), b.rings()),
{
    let occ = a.copy_rings();
    let rs = b.copy_rings();
    let mut i: usize = 0;
    while i < rs.len()
        invariant
            i <= rs@.len(),
            nested(occ@) == a.rings(),
            nested(rs@) == b.rings(),
            forall|k: int| 0 <= k < i ==> covers(a.rings(), #[trigger] b.rings()[k]),
        decreases rs@.len() - i,
    {
        if !covers_points(&occ, &rs[i]) {
            assert(b.rings()[i as int] == rs@[i as int]@);
            return false;
        }
        i = i + 1;
    }
    true
}

/// Every polygon set encloses itself: each vertex lies on the edge that starts
/// at it.
pub proof fn lemma_encloses_itself(rs: Seq<Seq<Vec2>>)
    ensures
        encloses(rs, rs),
{
    assert forall|i: int| 0 <= i < rs.len() implies covers(rs, #[trigger] rs[i]) by {
        assert forall|j: int| 0 <= j < rs[i].len() implies containment(rs, #[trigger] rs[i][j])
            != Containment::Outside by {
            let p = rs[i][j];
            let d = ray_direction(rs, p);
            let e = edge_at(rs[i], j);
            assert(e.1 == p);
            assert(lambda_num(d, p, p) == 0);
            assert(mu_num(p, e.2, p) == 0);
            let den = denominator(d, p, e.2);
            assert(den * den >= 0) by (nonlinear_arith);
            assert(touches(d, e.1, e.2, p));
        }
    }
}

/// Everything kept after trimming is uncovered.
proof fn lemma_kept_uncovered(ps: Seq<Seq<Vec2>>, occ: Seq<Seq<Vec2>>)
    ensures
        forall|i: int|
            0 <= i < kept_primitives(ps, occ).len() ==> !covers(
                occ,
                #[trigger] kept_primitives(ps, occ)[i],
            ),
    decreases ps.len(),
{
    if ps.len() > 0 {
        lemma_kept_uncovered(ps.drop_last(), occ);
        let k0 = kept_primitives(ps.drop_last(), occ);
        if !covers(occ, ps.last()) {
            assert forall|i: int| 0 <= i < k0.push(ps.last()).len() implies !covers(
                occ,
                #[trigger] k0.push(ps.last())[i],
            ) by {
                if i < k0.len() {
                    assert(k0.push(ps.last())[i] == k0[i]);
                }
            }
        }
    }
}

/// Trimming a list of uncovered polygons keeps all of them.
proof fn lemma_kept_all(ps: Seq<Seq<Vec2>>, occ: Seq<Seq<Vec2>>)
    requires
        forall|i: int| 0 <= i < ps.len() ==> !covers(occ, #[trigger] ps[i]),
    ensures
        kept_primitives(ps, occ) == ps,
    decreases ps.len(),
{
    if ps.len() > 0 {
        lemma_kept_all(ps.drop_last(), occ);
        assert(ps.drop_last().push(ps.last()) =~= ps);
    } else {
        assert(ps =~= Seq::<Seq<Vec2>>::empty());
    }
}

proof fn lemma_kept_components_fixed(cs: Seq<ComponentModel>, occ: Seq<Seq<Vec2>>)
    ensures
        kept_components(kept_components(cs, occ), occ) == kept_components(cs, occ),
    decreases cs.len(),
{
    if cs.len() > 0 {
        lemma_kept_components_fixed(cs.drop_last(), occ);
        match reduce_component(cs.last(), occ) {
            Some(c) => {
                let k = kept_components(cs, occ);
                assert(k.drop_last() =~= kept_components(cs.drop_last(), occ));
                lemma_kept_uncovered(cs.last().1, occ);
                lemma_kept_all(c.1, occ);
                assert(reduce_component(c, occ) == Some(c));
            },
            None => {},
        }
    }
}

/// Trimming by the same occluder twice changes nothing the second time: a
/// shape that was removed stays removed, and one that survived is left as it
/// is.
pub proof fn lemma_reduce_idempotent(s: Seq<ComponentModel>, occ: Seq<Seq<Vec2>>)
    ensures
        match reduce_shape(s, occ) {
            Some(t) => reduce_shape(t, occ) == Some(t),
            None => true,
        },
{
    lemma_kept_components_fixed(s, occ);
}

impl ShapePrimitive {
    /// `None` when `other` encloses this polygon, else the polygon unchanged.
    pub fn del_if_obscured_by<P: Polygonal>(self, other: &P) -> (r: Option<ShapePrimitive>)
        ensures
            r is None <==> covers(other.rings(), self@),
            r is Some ==> r->0@ == self@,
    {
        let occ = other.copy_rings();
        if covers_points(&occ, &self.points) {
            None
        } else {
            Some(self)
        }
    }
}

/// Trims the polygons of a face by `occ`.
fn trim_primitives(prims: &Vec<ShapePrimitive>, occ: &Vec<Vec<Vec2>>) -> (r: Vec<ShapePrimitive>)
    ensures
        Seq::new(r@.len(), |i: int| r@[i]@) == kept_primitives(
            Seq::new(prims@.len(), |i: int| prims@[i]@),
            nested(occ@),
        ),
{
    let ghost all = Seq::new(prims@.len(), |i: int| prims@[i]@);
    let mut out: Vec<ShapePrimitive> = Vec::new();
    let mut i: usize = 0;
    assert(all.take(0) =~= Seq::<Seq<Vec2>>::empty());
    while i < prims.len()
        invariant
            i <= prims@.len(),
            all == Seq::new(prims@.len(), |k: int| prims@[k]@),
            Seq::new(out@.len(), |k: int| out@[k]@) == kept_primitives(
                all.take(i as int),
                nested(occ@),
            ),
        decreases prims@.len() - i,
    {
        let ghost before = Seq::new(out@.len(), |k: int| out@[k]@);
        let ghost pre = all.take(i + 1);
        assert(pre.drop_last() =~= all.take(i as int));
        assert(pre.last() == prims@[i as int]@);
        if !covers_points(occ, &prims[i].points) {
            out.push(ShapePrimitive { points: copy_points(&prims[i].points) });
            assert(Seq::new(out@.len(), |k: int| out@[k]@) =~= before.push(prims@[i as int]@));
        }
        i = i + 1;
    }
    assert(all.take(i as int) =~= all);
    out
}

impl ShapeComponent {
    /// The face without the polygons that `other` encloses; `None` when none
    /// is left.
    pub fn del_if_obscured_by<P: Polygonal>(self, other: &P) -> (r: Option<ShapeComponent>)
        ensures
            match reduce_component(self@, other.rings()) {
                Some(c) => r is Some && r->0@ == c,
                None => r is None,
            },
    {
        let occ = other.copy_rings();
        trim_component(&self, &occ)
    }
}

fn trim_component(c: &ShapeComponent, occ: &Vec<Vec<Vec2>>) -> (r: Option<ShapeComponent>)
    ensures
        match reduce_component(c@, nested(occ@)) {
            Some(m) => r is Some && r->0@ == m,
            None => r is None,
        },
{
    let prims = trim_primitives(&c.primitives, occ);
    if prims.len() == 0 {
        None
    } else {
        let r = ShapeComponent { normal: c.normal, primitives: prims };
        assert(r@.1 =~= kept_primitives(c@.1, nested(occ@)));
        Some(r)
    }
}

/// Trims a shape by the polygons `occ`.
pub fn trim_shape(s: &Shape, occ: &Vec<Vec<Vec2>>) -> (r: Option<Shape>)
    ensures
        match reduce_shape(s@, nested(occ@)) {
            Some(m) => r is Some && r->0@ == m,
            None => r is None,
        },
{
    let mut out: Vec<ShapeComponent> = Vec::new();
    let mut i: usize = 0;
    assert(s@.take(0) =~= Seq::<ComponentModel>::empty());
    while i < s.components.len()
        invariant
            i <= s@.len(),
            s@.len() == s.components@.len(),
            Seq::new(out@.len(), |k: int| out@[k]@) == kept_components(
                s@.take(i as int),
                nested(occ@),
            ),
        decreases s@.len() - i,
    {
        let ghost before = Seq::new(out@.len(), |k: int| out@[k]@);
        let ghost pre = s@.take(i + 1);
        assert(pre.drop_last() =~= s@.take(i as int));
        assert(pre.last() == s.components@[i as int]@);
        match trim_component(&s.components[i], occ) {
            Some(c) => {
                out.push(c);
                assert(Seq::new(out@.len(), |k: int| out@[k]@) =~= before.push(c@));
            },
            None => {},
        }
        i = i + 1;
    }
    assert(s@.take(i as int) =~= s@);
    if out.len() == 0 {
        None
    } else {
        let r = Shape { components: out };
        assert(r@ =~= kept_components(s@, nested(occ@)));
        Some(r)
    }
}

impl Shape {
    pub fn new(components: Vec<ShapeComponent>) -> (r: Shape)
        ensures
            r.components@ == components@,
    {
        Shape { components }
    }

    /// The shape without the polygons that `other` encloses; `None` when
    /// nothing is left.
    pub fn del_if_obscured_by<P: Polygonal>(self, other: &P) -> (r: Option<Shape>)
        ensures
            match reduce_shape(self@, other.rings()) {
                Some(m) => r is Some && r->0@ == m,
                None => r is None,
            },
    {
        let occ = other.copy_rings();
        trim_shape(&self, &occ)
    }
}

// ----- bounding box and translation -----

/// `(c, k, j)` names vertex `j` of polygon `k` of face `c`.
pub open spec fn valid_vertex(s: Seq<ComponentModel>, c: int, k: int, j: int) -> bool {
    0 <= c < s.len() && 0 <= k < s[c].1.len() && 0 <= j < s[c].1[k].len()
}

/// The `x` or the `y` coordinate of a point.
pub open spec fn coord(p: Vec2, along_x: bool) -> int {
    if along_x {
        p.x as int
    } else {
        p.y as int
    }
}

/// `v` is the least coordinate along the axis over all vertices of `s`.
pub open spec fn is_lowest(s: Seq<ComponentModel>, along_x: bool, v: int) -> bool {
    &&& exists|c: int, k: int, j: int|
        valid_vertex(s, c, k, j) && coord(#[trigger] s[c].1[k][j], along_x) == v
    &&& forall|c: int, k: int, j: int|
        valid_vertex(s, c, k, j) ==> coord(#[trigger] s[c].1[k][j], along_x) >= v
}

/// `v` is the greatest coordinate along the axis over all vertices of `s`.
pub open spec fn is_highest(s: Seq<ComponentModel>, along_x: bool, v: int) -> bool {
    &&& exists|c: int, k: int, j: int|
        valid_vertex(s, c, k, j) && coord(#[trigger] s[c].1[k][j], along_x) == v
    &&& forall|c: int, k: int, j: int|
        valid_vertex(s, c, k, j) ==> coord(#[trigger] s[c].1[k][j], along_x) <= v
}

/// `s` has at least one vertex.
pub open spec fn has_vertex(s: Seq<ComponentModel>) -> bool {
    exists|c: int, k: int, j: int| valid_vertex(s, c, k, j)
}

/// The least and greatest coordinate along an axis over the vertices of `s`;
/// `None` when `s` has no vertex.
pub fn extent(s: &Vec<ShapeComponent>, along_x: bool) -> (r: Option<(i32, i32)>)
    ensures
        match r {
            Some(e) => is_lowest(Seq::new(s@.len(), |i: int| s@[i]@), along_x, e.0 as int)
                && is_highest(Seq::new(s@.len(), |i: int| s@[i]@), along_x, e.1 as int),
            None => !has_vertex(Seq::new(s@.len(), |i: int| s@[i]@)),
        },
{
    let ghost m = Seq::new(s@.len(), |i: int| s@[i]@);
    let mut found = false;
    let mut lo: i32 = 0;
    let mut hi: i32 = 0;
    let mut c: usize = 0;
    while c < s.len()
        invariant
            c <= s@.len(),
            m == Seq::new(s@.len(), |i: int| s@[i]@),
            !found ==> forall|c2: int, k: int, j: int|
                valid_vertex(m, c2, k, j) ==> c2 >= c,
            found ==> exists|c2: int, k: int, j: int|
                valid_vertex(m, c2, k, j) && coord(#[trigger] m[c2].1[k][j], along_x) == lo,
            found ==> exists|c2: int, k: int, j: int|
                valid_vertex(m, c2, k, j) && coord(#[trigger] m[c2].1[k][j], along_x) == hi,
            found ==> forall|c2: int, k: int, j: int|
                valid_vertex(m, c2, k, j) && c2 < c ==> lo <= coord(#[trigger] m[c2].1[k][j], along_x) <= hi,
        decreases s@.len() - c,
    {
        let prims = &s[c].primitives;
        let mut k: usize = 0;
        while k < prims.len()
            invariant
                c < s@.len(),
                prims == s@[c as int].primitives,
                k <= prims@.len(),
                m == Seq::new(s@.len(), |i: int| s@[i]@),
                !found ==> forall|c2: int, k2: int, j: int|
                    valid_vertex(m, c2, k2, j) ==> (c2 > c || (c2 == c && k2 >= k)),
                found ==> exists|c2: int, k2: int, j: int|
                    valid_vertex(m, c2, k2, j) && coord(#[trigger] m[c2].1[k2][j], along_x) == lo,
                found ==> exists|c2: int, k2: int, j: int|
                    valid_vertex(m, c2, k2, j) && coord(#[trigger] m[c2].1[k2][j], along_x) == hi,
                found ==> forall|c2: int, k2: int, j: int|
                    valid_vertex(m, c2, k2, j) && (c2 < c || (c2 == c && k2 < k)) ==> lo <= coord(
                        #[trigger] m[c2].1[k2][j],
                        along_x,
                    ) <= hi,
            decreases prims@.len() - k,
        {
            let pts = &prims[k].points;
            let mut j: usize = 0;
            assert(m[c as int].1[k as int] == pts@);
            while j < pts.len()
                invariant
                    c < s@.len(),
                    k < prims@.len(),
                    prims == s@[c as int].primitives,
                    pts == prims@[k as int].points,
                    m[c as int].1[k as int] == pts@,
                    j <= pts@.len(),
                    m == Seq::new(s@.len(), |i: int| s@[i]@),
                    !found ==> forall|c2: int, k2: int, j2: int|
                        valid_vertex(m, c2, k2, j2) ==> (c2 > c || (c2 == c && k2 > k) || (c2 == c
                            && k2 == k && j2 >= j)),
                    found ==> exists|c2: int, k2: int, j2: int|
                        valid_vertex(m, c2, k2, j2) && coord(#[trigger] m[c2].1[k2][j2], along_x) == lo,
                    found ==> exists|c2: int, k2: int, j2: int|
                        valid_vertex(m, c2, k2, j2) && coord(#[trigger] m[c2].1[k2][j2], along_x) == hi,
                    found ==> forall|c2: int, k2: int, j2: int|
                        valid_vertex(m, c2, k2, j2) && (c2 < c || (c2 == c && k2 < k) || (c2 == c
                            && k2 == k && j2 < j)) ==> lo <= coord(
                            #[trigger] m[c2].1[k2][j2],
                            along_x,
                        ) <= hi,
                decreases pts@.len() - j,
            {
                let p = pts[j];
                let v = if along_x {
                    p.x
                } else {
                    p.y
                };
                assert(valid_vertex(m, c as int, k as int, j as int));
                assert(m[c as int].1[k as int][j as int] == p);
                if !found {
                    found = true;
                    lo = v;
                    hi = v;
                } else {
                    if v < lo {
                        lo = v;
                    }
                    if v > hi {
                        hi = v;
                    }
                }
                j = j + 1;
            }
            k = k + 1;
        }
        c = c + 1;
    }
    if found {
        Some((lo, hi))
    } else {
        None
    }
}

/// The midpoint of two integers, rounded down.
pub open spec fn midpoint(a: int, b: int) -> int {
    (a + b) / 2
}

fn midpoint_exec(a: i32, b: i32) -> (r: i32)
    requires
        a <= b,
    ensures
        r == midpoint(a as int, b as int),
        a <= r <= b,
{
    let s = a as i64 + b as i64;
    if s >= 0 {
        (s / 2) as i32
    } else {
        (-((-s + 1) / 2)) as i32
    }
}

/// The bounding box of a shape: `(left, right, top, bottom)`; `None` when it
/// has no vertex.
pub fn bounding_box(s: &Shape) -> (r: Option<(i32, i32, i32, i32)>)
    ensures
        match r {
            Some(b) => is_lowest(s@, true, b.0 as int) && is_highest(s@, true, b.1 as int)
                && is_lowest(s@, false, b.2 as int) && is_highest(s@, false, b.3 as int),
            None => !has_vertex(s@),
        },
{
    assert(s@ =~= Seq::new(s.components@.len(), |i: int| s.components@[i]@));
    match (extent(&s.components, true), extent(&s.components, false)) {
        (Some(h), Some(v)) => Some((h.0, h.1, v.0, v.1)),
        _ => None,
    }
}

/// The centre of the bounding box, rounded down.
pub fn centre(s: &Shape) -> (r: Option<Vec2>)
    ensures
        match r {
            Some(c) => exists|l: int, rt: int, t: int, b: int|
                is_lowest(s@, true, l) && is_highest(s@, true, rt) && is_lowest(s@, false, t)
                    && is_highest(s@, false, b) && c.x == midpoint(l, rt) && c.y == midpoint(t, b),
            None => !has_vertex(s@),
        },
{
    match bounding_box(s) {
        Some(b) => {
            proof {
                lemma_lowest_le_highest(s@, true, b.0 as int, b.1 as int);
                lemma_lowest_le_highest(s@, false, b.2 as int, b.3 as int);
            }
            let c = Vec2 { x: midpoint_exec(b.0, b.1), y: midpoint_exec(b.2, b.3) };
            assert(is_lowest(s@, true, b.0 as int) && is_highest(s@, true, b.1 as int)
                && is_lowest(s@, false, b.2 as int) && is_highest(s@, false, b.3 as int)
                && c.x == midpoint(b.0 as int, b.1 as int) && c.y == midpoint(b.2 as int, b.3 as int));
            Some(c)
        },
        None => None,
    }
}

pub(crate) proof fn lemma_lowest_le_highest(s: Seq<ComponentModel>, along_x: bool, lo: int, hi: int)
    requires
        is_lowest(s, along_x, lo),
        is_highest(s, along_x, hi),
    ensures
        lo <= hi,
{
    let (c, k, j) = choose|c: int, k: int, j: int|
        valid_vertex(s, c, k, j) && coord(#[trigger] s[c].1[k][j], along_x) == lo;
    assert(coord(s[c].1[k][j], along_x) <= hi);
}

/// Each vertex moved by `(dx, dy)`.
pub open spec fn shift_shape(s: Seq<ComponentModel>, dx: int, dy: int) -> Seq<ComponentModel> {
    Seq::new(
        s.len(),
        |c: int|
            (
                s[c].0,
                Seq::new(
                    s[c].1.len(),
                    |k: int|
                        Seq::new(
                            s[c].1[k].len(),
                            |j: int|
                                Vec2 {
                                    x: (s[c].1[k][j].x + dx) as i32,
                                    y: (s[c].1[k][j].y + dy) as i32,
                                },
                        ),
                ),
            ),
    )
}

fn shift_points(pts: &Vec<Vec2>, dx: i64, dy: i64) -> (r: Vec<Vec2>)
    requires
        forall|j: int|
            0 <= j < pts@.len() ==> i32::MIN <= #[trigger] pts@[j].x + dx <= i32::MAX && i32::MIN
                <= pts@[j].y + dy <= i32::MAX,
    ensures
        r@ == Seq::new(
            pts@.len(),
            |j: int| Vec2 { x: (pts@[j].x + dx) as i32, y: (pts@[j].y + dy) as i32 },
        ),
{
    let mut r: Vec<Vec2> = Vec::new();
    let mut j: usize = 0;
    while j < pts.len()
        invariant
            j <= pts@.len(),
            forall|q: int|
                0 <= q < pts@.len() ==> i32::MIN <= #[trigger] pts@[q].x + dx <= i32::MAX && i32::MIN
                    <= pts@[q].y + dy <= i32::MAX,
            r@ == Seq::new(
                j as nat,
                |q: int| Vec2 { x: (pts@[q].x + dx) as i32, y: (pts@[q].y + dy) as i32 },
            ),
        decreases pts@.len() - j,
    {
        let p = pts[j];
        r.push(Vec2 { x: (p.x as i64 + dx) as i32, y: (p.y as i64 + dy) as i32 });
        j = j + 1;
        assert(r@ =~= Seq::new(
            j as nat,
            |q: int| Vec2 { x: (pts@[q].x + dx) as i32, y: (pts@[q].y + dy) as i32 },
        ));
    }
    r
}

/// A copy of `s` with every vertex moved by `(dx, dy)`.
pub fn shifted(s: &Shape, dx: i64, dy: i64) -> (r: Shape)
    requires
        forall|c: int, k: int, j: int|
            valid_vertex(s@, c, k, j) ==> i32::MIN <= #[trigger] s@[c].1[k][j].x + dx <= i32::MAX
                && i32::MIN <= s@[c].1[k][j].y + dy <= i32::MAX,
    ensures
        r@ == shift_shape(s@, dx as int, dy as int),
{
    let mut comps: Vec<ShapeComponent> = Vec::new();
    let mut c: usize = 0;
    while c < s.components.len()
        invariant
            c <= s@.len(),
            s@.len() == s.components@.len(),
            forall|c2: int, k: int, j: int|
                valid_vertex(s@, c2, k, j) ==> i32::MIN <= #[trigger] s@[c2].1[k][j].x + dx
                    <= i32::MAX && i32::MIN <= s@[c2].1[k][j].y + dy <= i32::MAX,
            Seq::new(comps@.len(), |q: int| comps@[q]@) == shift_shape(s@, dx as int, dy as int).take(
                c as int,
            ),
        decreases s@.len() - c,
    {
        let comp = &s.components[c];
        let mut prims: Vec<ShapePrimitive> = Vec::new();
        let mut k: usize = 0;
        while k < comp.primitives.len()
            invariant
                c < s@.len(),
                s@.len() == s.components@.len(),
                comp == s.components@[c as int],
                k <= comp.primitives@.len(),
                forall|c2: int, k2: int, j: int|
                    valid_vertex(s@, c2, k2, j) ==> i32::MIN <= #[trigger] s@[c2].1[k2][j].x + dx
                        <= i32::MAX && i32::MIN <= s@[c2].1[k2][j].y + dy <= i32::MAX,
                Seq::new(prims@.len(), |q: int| prims@[q]@) == shift_shape(
                    s@,
                    dx as int,
                    dy as int,
                )[c as int].1.take(k as int),
            decreases comp.primitives@.len() - k,
        {
            let pts = &comp.primitives[k].points;
            proof {
                assert forall|j: int| 0 <= j < pts@.len() implies i32::MIN <= #[trigger] pts@[j].x
                    + dx <= i32::MAX && i32::MIN <= pts@[j].y + dy <= i32::MAX by {
                    assert(valid_vertex(s@, c as int, k as int, j));
                    assert(s@[c as int].1[k as int][j] == pts@[j]);
                }
            }
            let ghost before = Seq::new(prims@.len(), |q: int| prims@[q]@);
            let ghost expected = shift_shape(s@, dx as int, dy as int)[c as int].1[k as int];
            assert(s@[c as int].1[k as int] == pts@);
            let np = ShapePrimitive { points: shift_points(pts, dx, dy) };
            assert(np@ =~= expected);
            prims.push(np);
            assert(Seq::new(prims@.len(), |q: int| prims@[q]@) =~= before.push(expected));
            assert(shift_shape(s@, dx as int, dy as int)[c as int].1.take(k + 1) =~= shift_shape(
                s@,
                dx as int,
                dy as int,
            )[c as int].1.take(k as int).push(expected));
            k = k + 1;
            assert(Seq::new(prims@.len(), |q: int| prims@[q]@) =~= shift_shape(
                s@,
                dx as int,
                dy as int,
            )[c as int].1.take(k as int));
        }
        let nc = ShapeComponent { normal: comp.normal, primitives: prims };
        assert(prims@.len() == comp.primitives@.len());
        assert(nc@.1 =~= shift_shape(s@, dx as int, dy as int)[c as int].1.take(k as int));
        assert(nc@.1 =~= shift_shape(s@, dx as int, dy as int)[c as int].1);
        let ghost beforec = Seq::new(comps@.len(), |q: int| comps@[q]@);
        comps.push(nc);
        assert(Seq::new(comps@.len(), |q: int| comps@[q]@) =~= beforec.push(nc@));
        assert(shift_shape(s@, dx as int, dy as int).take(c + 1) =~= shift_shape(
            s@,
            dx as int,
            dy as int,
        ).take(c as int).push(nc@));
        c = c + 1;
        assert(Seq::new(comps@.len(), |q: int| comps@[q]@) =~= shift_shape(
            s@,
            dx as int,
            dy as int,
        ).take(c as int));
    }
    let r = Shape { components: comps };
    assert(r@ =~= shift_shape(s@, dx as int, dy as int));
    r
}

/// The vertices of `pts` that lie strictly inside `occ`, in order.
pub open spec fn inside_points(pts: Seq<Vec2>, occ: Seq<Seq<Vec2>>) -> Seq<Vec2>
    decreases pts.len(),
{
    if pts.len() == 0 {
        seq![]
    } else if containment(occ, pts.last()) == Containment::Inside {
        inside_points(pts.drop_last(), occ).push(pts.last())
    } else {
        inside_points(pts.drop_last(), occ)
    }
}

impl ShapePrimitive {
    /// Keeps only the vertices that lie strictly inside `other`; `None` when
    /// fewer than three are left.
    pub fn del_whats_obscured_by<P: Polygonal>(self, other: &P) -> (r: Option<ShapePrimitive>)
        ensures
            inside_points(self@, other.rings()).len() <= 2 ==> r is None,
            inside_points(self@, other.rings()).len() > 2 ==> r is Some && r->0@ == inside_points(
                self@,
                other.rings(),
            ),
    {
        let occ = other.copy_rings();
        let mut kept: Vec<Vec2> = Vec::new();
        let mut j: usize = 0;
        assert(self@.take(0) =~= Seq::<Vec2>::empty());
        while j < self.points.len()
            invariant
                j <= self@.len(),
                nested(occ@) == other.rings(),
                kept@ == inside_points(self@.take(j as int), other.rings()),
            decreases self@.len() - j,
        {
            let p = self.points[j];
            let ghost pre = self@.take(j + 1);
            assert(pre.drop_last() =~= self@.take(j as int));
            assert(pre.last() == p);
            if let Containment::Inside = containment_in(&occ, p) {
                kept.push(p);
            }
            j = j + 1;
        }
        assert(self@.take(j as int) =~= self@);
        if kept.len() <= 2 {
            None
        } else {
            Some(ShapePrimitive { points: kept })
        }
    }
}

// ----- orientation and fusion -----

/// The way a polygon winds.
#[derive(Clone, Copy, Debug, PartialEq, Eq, Structural)]
pub enum CircleDirection {
    Clockwise,
    CounterClockwise,
}

/// Twice the signed area enclosed by the first `k` edges of `a` (the shoelace
/// sum).
pub open spec fn area2_prefix(a: Seq<Vec2>, k: int) -> int
    decreases k,
{
    if k <= 0 || a.len() == 0 {
        0
    } else {
        area2_prefix(a, k - 1) + cross2(a[k - 1], a[k % (a.len() as int)])
    }
}

/// Twice the signed area of polygon `a`: positive when it winds
/// counterclockwise.
pub open spec fn area2(a: Seq<Vec2>) -> int {
    area2_prefix(a, a.len() as int)
}

/// The winding of a polygon, by the sign of its area; a polygon without area
/// counts as clockwise.
pub open spec fn direction_of(a: Seq<Vec2>) -> CircleDirection {
    if area2(a) > 0 {
        CircleDirection::CounterClockwise
    } else {
        CircleDirection::Clockwise
    }
}

/// An index below `2 n` brought below `n`.
pub open spec fn wrap(v: int, n: int) -> int {
    if v >= n {
        v - n
    } else {
        v
    }
}

/// Vertex `i` of `a` is also a vertex of `b`.
pub open spec fn shared_at(a: Seq<Vec2>, b: Seq<Vec2>, i: int) -> bool {
    b.contains(a[i])
}

/// The first index from `k` on whose vertex `b` shares; `a.len()` if none.
pub open spec fn first_shared_from(a: Seq<Vec2>, b: Seq<Vec2>, k: int) -> int
    decreases a.len() - k,
{
    if k < 0 || k >= a.len() {
        a.len() as int
    } else if shared_at(a, b, k) {
        k
    } else {
        first_shared_from(a, b, k + 1)
    }
}

/// The last index below `k` whose vertex `b` does not share; `-1` if none.
pub open spec fn last_unshared_below(a: Seq<Vec2>, b: Seq<Vec2>, k: int) -> int
    decreases k,
{
    if k <= 0 {
        -1
    } else if !shared_at(a, b, k - 1) {
        k - 1
    } else {
        last_unshared_below(a, b, k - 1)
    }
}

/// How many consecutive vertices from `i` on (cyclically) `b` shares, counting
/// from `k`.
pub open spec fn run_length_from(a: Seq<Vec2>, b: Seq<Vec2>, i: int, k: int) -> int
    decreases a.len() - k,
{
    if k < 0 || k >= a.len() {
        k
    } else if shared_at(a, b, wrap(i + k, a.len() as int)) {
        run_length_from(a, b, i, k + 1)
    } else {
        k
    }
}

/// The first index from `k` on where `b` holds `p`; `b.len()` if none.
pub open spec fn index_in_from(b: Seq<Vec2>, p: Vec2, k: int) -> int
    decreases b.len() - k,
{
    if k < 0 || k >= b.len() {
        b.len() as int
    } else if b[k] == p {
        k
    } else {
        index_in_from(b, p, k + 1)
    }
}

/// Where the shared run of `a` starts: the first shared vertex, or, when the
/// first vertex is shared, the start of the run that wraps around to it.
pub open spec fn run_start(a: Seq<Vec2>, b: Seq<Vec2>) -> int {
    let n = a.len() as int;
    if first_shared_from(a, b, 0) == 0 {
        wrap(last_unshared_below(a, b, n) + 1, n)
    } else {
        first_shared_from(a, b, 0)
    }
}

/// The fusion of polygon `a` with polygon `b` along the run of `a`'s vertices
/// that `b` shares. `None` when they share no vertex; `a` itself when `b`
/// shares all of `a`. Otherwise the result walks `a` from the last vertex of
/// the run round to just before its first, then `b` from that first vertex
/// away from the run to just before the last: forward when the two wind the
/// same way, backward when they do not.
pub open spec fn fuse(a: Seq<Vec2>, b: Seq<Vec2>) -> Option<Seq<Vec2>> {
    let n = a.len() as int;
    let m = b.len() as int;
    if n == 0 || first_shared_from(a, b, 0) >= n {
        None
    } else {
        let i1 = run_start(a, b);
        let len = run_length_from(a, b, i1, 0);
        if len >= n {
            Some(a)
        } else {
            let i2 = wrap(i1 + len - 1, n);
            let t1 = index_in_from(b, a[i1], 0);
            let t2 = index_in_from(b, a[i2], 0);
            let back = direction_of(a) != direction_of(b);
            let ka = n - len + 1;
            let kb = if back {
                wrap(t1 - t2 - 1 + m, m) + 1
            } else {
                wrap(t2 - t1 - 1 + m, m) + 1
            };
            Some(
                Seq::new(ka as nat, |q: int| a[wrap(i2 + q, n)]) + Seq::new(
                    kb as nat,
                    |q: int|
                        if back {
                            b[wrap(t1 - q + m, m)]
                        } else {
                            b[wrap(t1 + q, m)]
                        },
                ),
            )
        }
    }
}

fn contains_point(b: &Vec<Vec2>, p: Vec2) -> (r: bool)
    ensures
        r == b@.contains(p),
{
    let mut j: usize = 0;
    while j < b.len()
        invariant
            j <= b@.len(),
            forall|q: int| 0 <= q < j ==> b@[q] != p,
        decreases b@.len() - j,
    {
        if b[j] == p {
            return true;
        }
        j = j + 1;
    }
    false
}

fn index_in(b: &Vec<Vec2>, p: Vec2) -> (r: usize)
    ensures
        r == index_in_from(b@, p, 0),
        r <= b@.len(),
        r < b@.len() ==> b@[r as int] == p,
        b@.contains(p) ==> r < b@.len(),
{
    let mut j: usize = 0;
    while j < b.len()
        invariant
            j <= b@.len(),
            index_in_from(b@, p, 0) == index_in_from(b@, p, j as int),
            forall|q: int| 0 <= q < j ==> b@[q] != p,
        decreases b@.len() - j,
    {
        if b[j] == p {
            return j;
        }
        j = j + 1;
    }
    j
}

fn area2_exec(a: &Vec<Vec2>) -> (r: i128)
    ensures
        r == area2(a@),
{
    let n = a.len();
    let mut acc: i128 = 0;
    let mut k: usize = 0;
    while k < n
        invariant
            n == a@.len(),
            k <= n,
            acc == area2_prefix(a@, k as int),
            -(k as int) * 0x8000_0000_0000_0000 <= acc <= (k as int) * 0x8000_0000_0000_0000,
        decreases n - k,
    {
        let nk: usize = if k + 1 == n {
            0
        } else {
            k + 1
        };
        proof {
            if k + 1 == n {
                assert((k as int + 1) % (n as int) == 0) by (nonlinear_arith)
                    requires k + 1 == n, n >= 1;
            } else {
                assert((k as int + 1) % (n as int) == k + 1) by (nonlinear_arith)
                    requires k + 1 < n;
            }
        }
        let c = a[k].cross(a[nk]);
        proof {
            lemma_product_bound(a@[k as int].x as int, a@[nk as int].y as int, 0x8000_0000, 0x8000_0000);
            lemma_product_bound(a@[k as int].y as int, a@[nk as int].x as int, 0x8000_0000, 0x8000_0000);
            assert(-(k as int + 1) * 0x8000_0000_0000_0000 == -(k as int) * 0x8000_0000_0000_0000 - 0x8000_0000_0000_0000);
            assert((k as int + 1) * 0x8000_0000_0000_0000 == (k as int) * 0x8000_0000_0000_0000 + 0x8000_0000_0000_0000);
            assert((k as int) * 0x8000_0000_0000_0000 < 0x8000_0000_0000_0000_0000_0000_0000_0000 - 0x8000_0000_0000_0000) by (nonlinear_arith)
                requires k < n, n <= usize::MAX;
        }
        acc = acc + c;
        k = k + 1;
    }
    acc
}

impl ShapePrimitive {
    /// The way the polygon winds.
    pub fn draw_direction(&self) -> (r: CircleDirection)
        ensures
            r == direction_of(self@),
    {
        if area2_exec(&self.points) > 0 {
            CircleDirection::CounterClockwise
        } else {
            CircleDirection::Clockwise
        }
    }
}

fn copy_primitive(p: &ShapePrimitive) -> (r: ShapePrimitive)
    ensures
        r@ == p@,
{
    ShapePrimitive { points: copy_points(&p.points) }
}

impl ShapePrimitive {
    /// Fuses this polygon with `other` along the run of vertices they share.
    pub fn combine_common_edges(&self, other: &ShapePrimitive) -> (r: Option<ShapePrimitive>)
        ensures
            match fuse(self@, other@) {
                None => r is None,
                Some(f) => r is Some && r->0@ == f,
            },
    {
        let a = &self.points;
        let b = &other.points;
        let n = a.len();
        let m = b.len();
        let mut f: usize = 0;
        while f < n && !contains_point(b, a[f])
            invariant
                n == a@.len(),
                f <= n,
                first_shared_from(a@, b@, 0) == first_shared_from(a@, b@, f as int),
            decreases n - f,
        {
            f = f + 1;
        }
        if n == 0 || f >= n {
            return None;
        }
        let i1: usize = if f == 0 {
            let mut k: usize = n;
            while k > 0 && contains_point(b, a[k - 1])
                invariant
                    n == a@.len(),
                    k <= n,
                    last_unshared_below(a@, b@, n as int) == last_unshared_below(a@, b@, k as int),
                    forall|q: int| k <= q < n ==> shared_at(a@, b@, q),
                decreases k,
            {
                k = k - 1;
            }
            if k == n {
                0
            } else {
                k
            }
        } else {
            f
        };
        assert(i1 == run_start(a@, b@));
        assert(shared_at(a@, b@, i1 as int));
        let mut len: usize = 0;
        let mut idx: usize = i1;
        while len < n && contains_point(b, a[idx])
            invariant
                n == a@.len(),
                i1 < n,
                len <= n,
                idx == wrap(i1 + len, n as int),
                idx < n,
                run_length_from(a@, b@, i1 as int, 0) == run_length_from(a@, b@, i1 as int, len as int),
                forall|q: int| 0 <= q < len ==> shared_at(a@, b@, #[trigger] wrap(i1 + q, n as int)),
            decreases n - len,
        {
            len = len + 1;
            idx = if idx + 1 == n {
                0
            } else {
                idx + 1
            };
        }
        if len >= n {
            return Some(copy_primitive(self));
        }
        assert(len >= 1) by {
            assert(run_length_from(a@, b@, i1 as int, 0) == len);
            assert(wrap(i1 as int + 0, n as int) == i1);
        }
        let i2: usize = if idx == 0 {
            n - 1
        } else {
            idx - 1
        };
        assert(i2 == wrap(i1 + len - 1, n as int));
        assert(shared_at(a@, b@, wrap(i1 + (len - 1), n as int)));
        let t1 = index_in(b, a[i1]);
        let t2 = index_in(b, a[i2]);
        let back = self.draw_direction() != other.draw_direction();
        let ka = n - len + 1;
        let kb: usize = if back {
            if t1 > t2 {
                t1 - t2
            } else {
                t1 + (m - t2)
            }
        } else {
            if t2 > t1 {
                t2 - t1
            } else {
                t2 + (m - t1)
            }
        };
        let ghost fused = fuse(a@, b@)->0;
        let mut out: Vec<Vec2> = Vec::new();
        let mut q: usize = 0;
        let mut j: usize = i2;
        while q < ka
            invariant
                n == a@.len(),
                i2 < n,
                ka <= n,
                q <= ka,
                j == wrap(i2 + q, n as int),
                j < n,
                out@ == Seq::new(q as nat, |p: int| a@[wrap(i2 + p, n as int)]),
            decreases ka - q,
        {
            out.push(a[j]);
            q = q + 1;
            j = if j + 1 == n {
                0
            } else {
                j + 1
            };
            assert(out@ =~= Seq::new(q as nat, |p: int| a@[wrap(i2 + p, n as int)]));
        }
        let ghost apart = out@;
        let mut q: usize = 0;
        let mut j: usize = t1;
        while q < kb
            invariant
                m == b@.len(),
                t1 < m,
                kb <= m,
                q <= kb,
                j == (if back { wrap(t1 - q + m, m as int) } else { wrap(t1 + q, m as int) }),
                j < m,
                out@ == apart + Seq::new(
                    q as nat,
                    |p: int|
                        if back {
                            b@[wrap(t1 - p + m, m as int)]
                        } else {
                            b@[wrap(t1 + p, m as int)]
                        },
                ),
            decreases kb - q,
        {
            out.push(b[j]);
            q = q + 1;
            if back {
                j = if j == 0 {
                    m - 1
                } else {
                    j - 1
                };
            } else {
                j = if j + 1 == m {
                    0
                } else {
                    j + 1
                };
            }
            assert(out@ =~= apart + Seq::new(
                q as nat,
                |p: int|
                    if back {
                        b@[wrap(t1 - p + m, m as int)]
                    } else {
                        b@[wrap(t1 + p, m as int)]
                    },
            ));
        }
        assert(out@ =~= fused);
        Some(ShapePrimitive { points: out })
    }
}

// ----- path text -----

/// The commands written for a polygon without vertices: a vertical line to
/// `0`, then a closing command.
pub open spec fn empty_polygon_commands() -> Seq<CommandModel> {
    seq![(CommandType::VertAbs, seq![0i32]), (CommandType::ClosePath, Seq::<i32>::empty())]
}

/// The path text of polygon `p`.
pub open spec fn polygon_text_spec(p: Seq<Vec2>) -> Seq<char> {
    if p.len() > 0 {
        commands_text(encode_spec(p))
    } else {
        commands_text(empty_polygon_commands())
    }
}

/// The texts one after the other.
pub open spec fn concat_texts(ts: Seq<Seq<char>>) -> Seq<char>
    decreases ts.len(),
{
    if ts.len() == 0 {
        seq![]
    } else {
        concat_texts(ts.drop_last()) + ts.last()
    }
}

fn primitive_text(pts: &Vec<Vec2>) -> (r: String)
    ensures
        r@ == polygon_text_spec(pts@),
        pts@.len() > 0 ==> decode(r@) == Ok::<Seq<Seq<Vec2>>, PathError>(seq![pts@]),
{
    if pts.len() > 0 {
        polygon_text(pts)
    } else {
        let mut zero: Vec<i32> = Vec::new();
        zero.push(0);
        let mut cmds: Vec<Command> = Vec::new();
        cmds.push(Command { cmd_type: CommandType::VertAbs, params: zero });
        cmds.push(Command { cmd_type: CommandType::ClosePath, params: Vec::new() });
        assert(commands_model(cmds@) =~= empty_polygon_commands());
        let text = render_commands(&cmds);
        string_from_chars(&text)
    }
}

impl ShapePrimitive {
    /// The polygon as path text; reading it back gives the polygon.
    pub fn generate_d(&self) -> (r: String)
        ensures
            r@ == polygon_text_spec(self@),
            self@.len() > 0 ==> decode(r@) == Ok::<Seq<Seq<Vec2>>, PathError>(seq![self@]),
    {
        primitive_text(&self.points)
    }
}

impl ShapeComponent {
    /// The face's polygons as path text, one after the other.
    pub fn generate_d(&self) -> (r: String)
        ensures
            r@ == concat_texts(Seq::new(self@.1.len(), |k: int| polygon_text_spec(self@.1[k]))),
    {
        let mut result = String::new();
        let mut k: usize = 0;
        assert(Seq::new(0, |q: int| polygon_text_spec(self@.1[q])) =~= Seq::<Seq<char>>::empty());
        while k < self.primitives.len()
            invariant
                k <= self.primitives@.len(),
                result@ == concat_texts(Seq::new(k as nat, |q: int| polygon_text_spec(self@.1[q]))),
            decreases self.primitives@.len() - k,
        {
            let t = self.primitives[k].generate_d();
            result.append(t.as_str());
            proof {
                let ts = Seq::new((k + 1) as nat, |q: int| polygon_text_spec(self@.1[q]));
                assert(ts.drop_last() =~= Seq::new(k as nat, |q: int| polygon_text_spec(self@.1[q])));
                assert(ts.last() == t@);
            }
            k = k + 1;
        }
        result
    }
}

// ----- merging the polygons of one face -----

/// The first polygon of `rest` from `k` on that `cur` fuses with, and the
/// fusion.
pub open spec fn first_fusion(cur: Seq<Vec2>, rest: Seq<Seq<Vec2>>, k: int) -> Option<(int, Seq<Vec2>)>
    decreases rest.len() - k,
{
    if k < 0 || k >= rest.len() {
        None
    } else {
        match fuse(cur, rest[k]) {
            Some(f) => Some((k, f)),
            None => first_fusion(cur, rest, k + 1),
        }
    }
}

/// Merges a queue of polygons: the front one fuses into the first later one
/// that it shares a vertex with, and merging goes on; it stops, with the front
/// one moved to the back, at the first front polygon that fuses with none.
pub open spec fn fuse_queue(q: Seq<Seq<Vec2>>) -> Seq<Seq<Vec2>>
    decreases q.len(),
{
    if q.len() <= 1 {
        q
    } else {
        let rest = q.drop_first();
        match first_fusion(q[0], rest, 0) {
            Some((k, f)) => if 0 <= k < rest.len() {
                fuse_queue(rest.update(k, f))
            } else {
                q
            },
            None => rest.push(q[0]),
        }
    }
}

/// The vertex lists of a list of polygons.
pub open spec fn primitives_model(v: Seq<ShapePrimitive>) -> Seq<Seq<Vec2>> {
    Seq::new(v.len(), |i: int| v[i]@)
}

/// Merges the polygons of one face that share runs of vertices.
pub fn fuse_faces(shapes: &mut Vec<ShapePrimitive>)
    ensures
        primitives_model(final(shapes)@) == fuse_queue(primitives_model(old(shapes)@)),
{
    let ghost target = fuse_queue(primitives_model(shapes@));
    while shapes.len() > 1
        invariant
            fuse_queue(primitives_model(shapes@)) == target,
            target == fuse_queue(primitives_model(old(shapes)@)),
        decreases shapes@.len(),
    {
        let ghost q = primitives_model(shapes@);
        let current = shapes.remove(0);
        assert(primitives_model(shapes@) =~= q.drop_first());
        assert(current@ == q[0]);
        let ghost rest = q.drop_first();
        let mut k: usize = 0;
        let mut fused = false;
        while k < shapes.len() && !fused
            invariant
                k <= shapes@.len(),
                shapes@.len() == rest.len(),
                !fused ==> primitives_model(shapes@) == rest,
                !fused ==> first_fusion(current@, rest, 0) == first_fusion(current@, rest, k as int),
                fused ==> k < rest.len() && first_fusion(current@, rest, 0) == Some((k as int, shapes@[k as int]@))
                    && primitives_model(shapes@) == rest.update(k as int, shapes@[k as int]@),
            decreases shapes@.len() - k + if fused { 0int } else { 1int },
        {
            assert(rest[k as int] == shapes@[k as int]@);
            match current.combine_common_edges(&shapes[k]) {
                Some(f) => {
                    let mut slot = f;
                    shapes.set_and_swap(k, &mut slot);
                    assert(primitives_model(shapes@) =~= rest.update(k as int, shapes@[k as int]@));
                    fused = true;
                },
                None => {
                    k = k + 1;
                },
            }
        }
        if !fused {
            assert(first_fusion(current@, rest, 0) is None);
            let ghost before = primitives_model(shapes@);
            shapes.push(current);
            assert(primitives_model(shapes@) =~= before.push(q[0]));
            assert(target == primitives_model(shapes@));
            return;
        }
    }
}

// ----- merging faces across shapes -----

/// A polygon with the normal of its face.
pub type FacePoly = (Vec3, Seq<Vec2>);

/// The polygons of a list of faces, each with its face's normal.
pub open spec fn faces_polys(cs: Seq<ComponentModel>) -> Seq<FacePoly>
    decreases cs.len(),
{
    if cs.len() == 0 {
        seq![]
    } else {
        faces_polys(cs.drop_last()) + Seq::new(cs.last().1.len(), |k: int| (cs.last().0, cs.last().1[k]))
    }
}

/// The polygons of a list of shapes, each with its face's normal.
pub open spec fn shapes_polys(ss: Seq<Seq<ComponentModel>>) -> Seq<FacePoly>
    decreases ss.len(),
{
    if ss.len() == 0 {
        seq![]
    } else {
        shapes_polys(ss.drop_last()) + faces_polys(ss.last())
    }
}

/// The first group from `k` on with normal `n`; `gs.len()` if none.
pub open spec fn normal_index(gs: Seq<ComponentModel>, n: Vec3, k: int) -> int
    decreases gs.len() - k,
{
    if k < 0 || k >= gs.len() {
        gs.len() as int
    } else if gs[k].0 == n {
        k
    } else {
        normal_index(gs, n, k + 1)
    }
}

/// Adds a polygon to the group of its normal, or opens a new group at the end.
pub open spec fn add_poly(gs: Seq<ComponentModel>, f: FacePoly) -> Seq<ComponentModel> {
    let i = normal_index(gs, f.0, 0);
    if 0 <= i < gs.len() {
        gs.update(i, (gs[i].0, gs[i].1.push(f.1)))
    } else {
        gs.push((f.0, seq![f.1]))
    }
}

/// Polygons grouped by normal, groups in the order their normals first come.
pub open spec fn group_polys(fs: Seq<FacePoly>) -> Seq<ComponentModel>
    decreases fs.len(),
{
    if fs.len() == 0 {
        seq![]
    } else {
        add_poly(group_polys(fs.drop_last()), fs.last())
    }
}

/// All faces of the shapes, one shape per normal, with the polygons of each
/// normal merged.
pub open spec fn combined(ss: Seq<Seq<ComponentModel>>) -> Seq<Seq<ComponentModel>> {
    let gs = group_polys(shapes_polys(ss));
    Seq::new(gs.len(), |i: int| seq![(gs[i].0, fuse_queue(gs[i].1))])
}

pub open spec fn face_polys_model(v: Seq<(Vec3, Vec<Vec2>)>) -> Seq<FacePoly> {
    Seq::new(v.len(), |i: int| (v[i].0, v[i].1@))
}

pub open spec fn groups_model(v: Seq<(Vec3, Vec<ShapePrimitive>)>) -> Seq<ComponentModel> {
    Seq::new(v.len(), |i: int| (v[i].0, primitives_model(v[i].1@)))
}

fn push_face_polys(out: &mut Vec<(Vec3, Vec<Vec2>)>, cs: &Vec<ShapeComponent>)
    ensures
        face_polys_model(final(out)@) == face_polys_model(old(out)@) + faces_polys(
            Seq::new(cs@.len(), |i: int| cs@[i]@),
        ),
{
    let ghost cm = Seq::new(cs@.len(), |i: int| cs@[i]@);
    let ghost base = face_polys_model(out@);
    let mut c: usize = 0;
    assert(cm.take(0) =~= Seq::<ComponentModel>::empty());
    assert(base + faces_polys(cm.take(0)) =~= base);
    while c < cs.len()
        invariant
            c <= cs@.len(),
            cm == Seq::new(cs@.len(), |i: int| cs@[i]@),
            base == face_polys_model(old(out)@),
            face_polys_model(out@) == base + faces_polys(cm.take(c as int)),
        decreases cs@.len() - c,
    {
        let comp = &cs[c];
        let ghost mid = face_polys_model(out@);
        let mut k: usize = 0;
        while k < comp.primitives.len()
            invariant
                k <= comp.primitives@.len(),
                face_polys_model(out@) == mid + Seq::new(k as nat, |q: int| (comp.normal, comp.primitives@[q]@)),
            decreases comp.primitives@.len() - k,
        {
            let ghost before = face_polys_model(out@);
            out.push((comp.normal, copy_points(&comp.primitives[k].points)));
            assert(face_polys_model(out@) =~= before.push((comp.normal, comp.primitives@[k as int]@)));
            k = k + 1;
            assert(face_polys_model(out@) =~= mid + Seq::new(k as nat, |q: int| (comp.normal, comp.primitives@[q]@)));
        }
        proof {
            let pre = cm.take(c + 1);
            assert(pre.drop_last() =~= cm.take(c as int));
            assert(pre.last() == comp@);
            assert(Seq::new(k as nat, |q: int| (comp.normal, comp.primitives@[q]@)) =~= Seq::new(
                pre.last().1.len(),
                |q: int| (pre.last().0, pre.last().1[q]),
            ));
        }
        c = c + 1;
        assert(face_polys_model(out@) =~= base + faces_polys(cm.take(c as int)));
    }
    assert(cm.take(c as int) =~= cm);
}

fn find_normal(gs: &Vec<(Vec3, Vec<ShapePrimitive>)>, n: Vec3) -> (r: usize)
    ensures
        r == normal_index(groups_model(gs@), n, 0),
{
    let ghost gm = groups_model(gs@);
    let mut k: usize = 0;
    while k < gs.len()
        invariant
            k <= gs@.len(),
            gm == groups_model(gs@),
            normal_index(gm, n, 0) == normal_index(gm, n, k as int),
        decreases gs@.len() - k,
    {
        assert(gm[k as int].0 == gs@[k as int].0);
        if gs[k].0 == n {
            return k;
        }
        k = k + 1;
    }
    k
}

fn add_poly_exec(gs: &mut Vec<(Vec3, Vec<ShapePrimitive>)>, n: Vec3, pts: Vec<Vec2>)
    ensures
        groups_model(final(gs)@) == add_poly(groups_model(old(gs)@), (n, pts@)),
{
    let ghost gm = groups_model(gs@);
    let i = find_normal(gs, n);
    if i < gs.len() {
        let mut slot: (Vec3, Vec<ShapePrimitive>) = (n, Vec::new());
        gs.set_and_swap(i, &mut slot);
        assert(slot == old(gs)@[i as int]);
        let ghost prims0 = primitives_model(slot.1@);
        slot.1.push(ShapePrimitive { points: pts });
        assert(primitives_model(slot.1@) =~= prims0.push(pts@));
        gs.set_and_swap(i, &mut slot);
        assert(groups_model(gs@) =~= gm.update(i as int, (gm[i as int].0, gm[i as int].1.push(pts@))));
    } else {
        let mut prims: Vec<ShapePrimitive> = Vec::new();
        prims.push(ShapePrimitive { points: pts });
        assert(primitives_model(prims@) =~= seq![pts@]);
        gs.push((n, prims));
        assert(groups_model(gs@) =~= gm.push((n, seq![pts@])));
    }
}

/// Gathers the faces of all shapes by normal, one shape per normal, and merges
/// the polygons of each normal.
pub fn combine_shapes(shapes: &Vec<Shape>) -> (r: Vec<Shape>)
    ensures
        Seq::new(r@.len(), |i: int| r@[i]@) == combined(Seq::new(shapes@.len(), |i: int| shapes@[i]@)),
{
    let ghost sm = Seq::new(shapes@.len(), |i: int| shapes@[i]@);
    let mut flat: Vec<(Vec3, Vec<Vec2>)> = Vec::new();
    let mut i: usize = 0;
    assert(sm.take(0) =~= Seq::<Seq<ComponentModel>>::empty());
    assert(face_polys_model(flat@) =~= Seq::<FacePoly>::empty());
    while i < shapes.len()
        invariant
            i <= shapes@.len(),
            sm == Seq::new(shapes@.len(), |q: int| shapes@[q]@),
            face_polys_model(flat@) == shapes_polys(sm.take(i as int)),
        decreases shapes@.len() - i,
    {
        push_face_polys(&mut flat, &shapes[i].components);
        proof {
            let pre = sm.take(i + 1);
            assert(pre.drop_last() =~= sm.take(i as int));
            assert(pre.last() == shapes@[i as int]@);
            assert(Seq::new(shapes@[i as int].components@.len(), |q: int| shapes@[i as int].components@[q]@)
                == shapes@[i as int]@);
        }
        i = i + 1;
    }
    assert(sm.take(i as int) =~= sm);
    let ghost fm = face_polys_model(flat@);
    let mut groups: Vec<(Vec3, Vec<ShapePrimitive>)> = Vec::new();
    let mut j: usize = 0;
    let n = flat.len();
    assert(fm.take(0) =~= Seq::<FacePoly>::empty());
    assert(groups_model(groups@) =~= Seq::<ComponentModel>::empty());
    while j < n
        invariant
            n == flat@.len(),
            j <= n,
            fm.len() == n,
            forall|q: int| j <= q < n ==> #[trigger] face_polys_model(flat@)[q] == fm[q],
            groups_model(groups@) == group_polys(fm.take(j as int)),
        decreases n - j,
    {
        let mut slot: (Vec3, Vec<Vec2>) = (Vec3 { x: 0, y: 0, z: 0 }, Vec::new());
        let ghost before = flat@;
        assert(face_polys_model(before)[j as int] == fm[j as int]);
        flat.set_and_swap(j, &mut slot);
        assert(slot == before[j as int]);
        add_poly_exec(&mut groups, slot.0, slot.1);
        proof {
            let pre = fm.take(j + 1);
            assert(pre.drop_last() =~= fm.take(j as int));
            assert(pre.last() == fm[j as int]);
            assert forall|q: int| j < q < n implies #[trigger] face_polys_model(flat@)[q] == fm[q] by {
                assert(flat@[q] == before[q]);
                assert(face_polys_model(before)[q] == fm[q]);
            }
        }
        j = j + 1;
    }
    assert(fm.take(j as int) =~= fm);
    let ghost gm = groups_model(groups@);
    let mut out: Vec<Shape> = Vec::new();
    let mut g: usize = 0;
    while g < groups.len()
        invariant
            g <= groups@.len(),
            gm.len() == groups@.len(),
            forall|q: int| g <= q < groups@.len() ==> #[trigger] groups_model(groups@)[q] == gm[q],
            Seq::new(out@.len(), |q: int| out@[q]@) == Seq::new(g as nat, |q: int| seq![(gm[q].0, fuse_queue(gm[q].1))]),
        decreases groups@.len() - g,
    {
        let mut slot: (Vec3, Vec<ShapePrimitive>) = (Vec3 { x: 0, y: 0, z: 0 }, Vec::new());
        let ghost before = groups@;
        assert(groups_model(before)[g as int] == gm[g as int]);
        groups.set_and_swap(g, &mut slot);
        assert(slot == before[g as int]);
        let normal = slot.0;
        let mut prims = slot.1;
        fuse_faces(&mut prims);
        let mut comps: Vec<ShapeComponent> = Vec::new();
        comps.push(ShapeComponent { normal, primitives: prims });
        let shape = Shape { components: comps };
        assert(shape@ =~= seq![(gm[g as int].0, fuse_queue(gm[g as int].1))]);
        let ghost om = Seq::new(out@.len(), |q: int| out@[q]@);
        out.push(shape);
        assert(Seq::new(out@.len(), |q: int| out@[q]@) =~= om.push(shape@));
        proof {
            assert forall|q: int| g < q < groups@.len() implies #[trigger] groups_model(groups@)[q] == gm[q] by {
                assert(groups@[q] == before[q]);
                assert(groups_model(before)[q] == gm[q]);
            }
        }
        g = g + 1;
        assert(Seq::new(out@.len(), |q: int| out@[q]@) =~= Seq::new(g as nat, |q: int| seq![(gm[q].0, fuse_queue(gm[q].1))]));
    }
    assert(Seq::new(out@.len(), |q: int| out@[q]@) =~= combined(sm));
    out
}

} // verus!
