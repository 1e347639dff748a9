use vstd::prelude::*;

verus! {

/// Number of dimensions of the tree.
pub const NDIMS: u64 = 3;

/// Axis numbers.
pub const DIM_X: u64 = 0;

pub const DIM_Y: u64 = 1;

pub const DIM_Z: u64 = 2;

/// A stored point: three coordinates and the index under which the caller
/// supplied it.
#[derive(Clone, Copy, Debug, PartialEq, Eq, Structural)]
pub struct DataPoint {
    pub x: i64,
    pub y: i64,
    pub z: i64,
    pub idx: u64,
}

/// A closed interval `[min, max]` on one axis.
#[derive(Clone, Copy, Debug, PartialEq, Eq, Structural)]
pub struct Boundaries {
    pub min: i64,
    pub max: i64,
}

/// An axis-aligned closed box: one interval per axis.
#[derive(Clone, Copy, Debug, PartialEq, Eq, Structural)]
pub struct Space {
    pub x: Boundaries,
    pub y: Boundaries,
    pub z: Boundaries,
}

impl DataPoint {
    /// The coordinate of the point on `axis` (0 = x, 1 = y, otherwise z).
    pub open spec fn coord(self, axis: int) -> i64 {
        if axis == 0 {
            self.x
        } else if axis == 1 {
            self.y
        } else {
            self.z
        }
    }

    /// The coordinate of the point on `axis`.
    pub fn coord_at(&self, axis: u64) -> (c: i64)
        requires
            axis < NDIMS,
        ensures
            c == self.coord(axis as int),
    {
        if axis == DIM_X {
            self.x
        } else if axis == DIM_Y {
            self.y
        } else {
            self.z
        }
    }
}

impl Space {
    /// The interval of the box on `axis`.
    pub open spec fn bound(self, axis: int) -> Boundaries {
        if axis == 0 {
            self.x
        } else if axis == 1 {
            self.y
        } else {
            self.z
        }
    }

    /// The box with the upper end of its interval on `axis` replaced by `v`.
    pub open spec fn with_max(self, axis: int, v: i64) -> Space {
        if axis == 0 {
            Space { x: Boundaries { min: self.x.min, max: v }, ..self }
        } else if axis == 1 {
            Space { y: Boundaries { min: self.y.min, max: v }, ..self }
        } else {
            Space { z: Boundaries { min: self.z.min, max: v }, ..self }
        }
    }

    /// The box with the lower end of its interval on `axis` replaced by `v`.
    pub open spec fn with_min(self, axis: int, v: i64) -> Space {
        if axis == 0 {
            Space { x: Boundaries { min: v, max: self.x.max }, ..self }
        } else if axis == 1 {
            Space { y: Boundaries { min: v, max: self.y.max }, ..self }
        } else {
            Space { z: Boundaries { min: v, max: self.z.max }, ..self }
        }
    }

    /// The box that covers every representable point.
    pub fn full() -> (s: Space)
        ensures
            s == full_space(),
            forall|p: DataPoint| in_space(p, s),
    {
        let b = Boundaries { min: i64::MIN, max: i64::MAX };
        Space { x: b, y: b, z: b }
    }

    /// The box `[x_min, x_max] x [y_min, y_max] x [z_min, z_max]`.
    pub fn from_bounds(x_min: i64, x_max: i64, y_min: i64, y_max: i64, z_min: i64, z_max: i64) -> (s:
        Space)
        ensures
            s == box_of(x_min, x_max, y_min, y_max, z_min, z_max),
    {
        Space {
            x: Boundaries { min: x_min, max: x_max },
            y: Boundaries { min: y_min, max: y_max },
            z: Boundaries { min: z_min, max: z_max },
        }
    }

    /// The lower end of the interval on `axis`.
    pub fn min_at(&self, axis: u64) -> (v: i64)
        requires
            axis < NDIMS,
        ensures
            v == self.bound(axis as int).min,
    {
        if axis == DIM_X {
            self.x.min
        } else if axis == DIM_Y {
            self.y.min
        } else {
            self.z.min
        }
    }

    /// The upper end of the interval on `axis`.
    pub fn max_at(&self, axis: u64) -> (v: i64)
        requires
            axis < NDIMS,
        ensures
            v == self.bound(axis as int).max,
    {
        if axis == DIM_X {
            self.x.max
        } else if axis == DIM_Y {
            self.y.max
        } else {
            self.z.max
        }
    }

    /// Replaces the lower end of the interval on `axis` by `v`.
    pub fn set_min(&mut self, axis: u64, v: i64)
        requires
            axis < NDIMS,
        ensures
            *final(self) == old(self).with_min(axis as int, v),
    {
        if axis == DIM_X {
            self.x.min = v;
        } else if axis == DIM_Y {
            self.y.min = v;
        } else {
            self.z.min = v;
        }
    }

    /// Replaces the upper end of the interval on `axis` by `v`.
    pub fn set_max(&mut self, axis: u64, v: i64)
        requires
            axis < NDIMS,
        ensures
            *final(self) == old(self).with_max(axis as int, v),
    {
        if axis == DIM_X {
            self.x.max = v;
        } else if axis == DIM_Y {
            self.y.max = v;
        } else {
            self.z.max = v;
        }
    }
}

/// The box with the given bounds.
pub open spec fn box_of(x_min: i64, x_max: i64, y_min: i64, y_max: i64, z_min: i64, z_max: i64) -> Space {
    Space {
        x: Boundaries { min: x_min, max: x_max },
        y: Boundaries { min: y_min, max: y_max },
        z: Boundaries { min: z_min, max: z_max },
    }
}

/// The box that covers every representable point.
pub open spec fn full_space() -> Space {
    box_of(i64::MIN, i64::MAX, i64::MIN, i64::MAX, i64::MIN, i64::MAX)
}

/// The point lies inside the closed box.
pub open spec fn in_space(p: DataPoint, s: Space) -> bool {
    &&& s.x.min <= p.x <= s.x.max
    &&& s.y.min <= p.y <= s.y.max
    &&& s.z.min <= p.z <= s.z.max
}

/// The two boxes are not separated on any axis.
pub open spec fn boxes_intersect(search: Space, domain: Space) -> bool {
    !(search.x.min > domain.x.max || search.x.max < domain.x.min || search.y.min > domain.y.max
        || search.y.max < domain.y.min || search.z.min > domain.z.max || search.z.max
        < domain.z.min)
}

/// Both ends of each interval of `domain` lie within the interval of `search`.
pub open spec fn box_enclosed(search: Space, domain: Space) -> bool {
    &&& search.x.min <= domain.x.min <= search.x.max
    &&& search.x.min <= domain.x.max <= search.x.max
    &&& search.y.min <= domain.y.min <= search.y.max
    &&& search.y.min <= domain.y.max <= search.y.max
    &&& search.z.min <= domain.z.min <= search.z.max
    &&& search.z.min <= domain.z.max <= search.z.max
}

/// Sign of the comparison of two coordinates: 1, -1 or 0.
pub open spec fn sign_of(a: i64, b: i64) -> i32 {
    if a > b {
        1i32
    } else if a < b {
        -1i32
    } else {
        0i32
    }
}

/// The coordinate of the point on `axis`.
pub open spec fn key(p: DataPoint, axis: u64) -> i64 {
    p.coord(axis as int)
}

/// Sign of the comparison of two points on `axis`.
pub open spec fn order_on(a: DataPoint, b: DataPoint, axis: u64) -> i32 {
    sign_of(a.coord(axis as int), b.coord(axis as int))
}

/// Compares two points by their x coordinate.
pub fn cmp_x(a1: &DataPoint, a2: &DataPoint) -> (r: i32)
    ensures
        r == sign_of(a1.x, a2.x),
{
    if a1.x > a2.x {
        1
    } else if a1.x < a2.x {
        -1
    } else {
        0
    }
}

/// Compares two points by their y coordinate.
pub fn cmp_y(a1: &DataPoint, a2: &DataPoint) -> (r: i32)
    ensures
        r == sign_of(a1.y, a2.y),
{
    if a1.y > a2.y {
        1
    } else if a1.y < a2.y {
        -1
    } else {
        0
    }
}

/// Compares two points by their z coordinate.
pub fn cmp_z(a1: &DataPoint, a2: &DataPoint) -> (r: i32)
    ensures
        r == sign_of(a1.z, a2.z),
{
    if a1.z > a2.z {
        1
    } else if a1.z < a2.z {
        -1
    } else {
        0
    }
}

/// Compares two points by their coordinate on `axis`, choosing the
/// comparison of that axis.
pub fn cmp_on_axis(a1: &DataPoint, a2: &DataPoint, axis: u64) -> (r: i32)
    requires
        axis < NDIMS,
    ensures
        r == order_on(*a1, *a2, axis),
{
    if axis == DIM_X {
        cmp_x(a1, a2)
    } else if axis == DIM_Y {
        cmp_y(a1, a2)
    } else {
        cmp_z(a1, a2)
    }
}

/// Returns whether the point lies within the search box.
pub fn point_in_search_space(point: &DataPoint, search_space: &Space) -> (r: bool)
    ensures
        r == in_space(*point, *search_space),
{
    point.x <= search_space.x.max && point.x >= search_space.x.min && point.y
        <= search_space.y.max && point.y >= search_space.y.min && point.z <= search_space.z.max
        && point.z >= search_space.z.min
}

/// Returns whether the search box and the domain meet. It is easier to
/// decide that two boxes are apart, so the test is negated.
pub fn search_area_intersects(search_space: &Space, domain: &Space) -> (r: bool)
    ensures
        r == boxes_intersect(*search_space, *domain),
        !r ==> forall|p: DataPoint|
            in_space(p, *domain) ==> !in_space(p, *search_space),
{
    !(search_space.x.min > domain.x.max || search_space.x.max < domain.x.min || search_space.y.min
        > domain.y.max || search_space.y.max < domain.y.min || search_space.z.min > domain.z.max
        || search_space.z.max < domain.z.min)
}

/// Returns whether the domain lies entirely within the search box.
pub fn completely_enclosed(search_space: &Space, domain: &Space) -> (r: bool)
    ensures
        r == box_enclosed(*search_space, *domain),
        r ==> forall|p: DataPoint|
            in_space(p, *domain) ==> in_space(p, *search_space),
{
    domain.x.min <= search_space.x.max && domain.x.min >= search_space.x.min && domain.x.max
        <= search_space.x.max && domain.x.max >= search_space.x.min && domain.y.min
        <= search_space.y.max && domain.y.min >= search_space.y.min && domain.y.max
        <= search_space.y.max && domain.y.max >= search_space.y.min && domain.z.min
        <= search_space.z.max && domain.z.min >= search_space.z.min && domain.z.max
        <= search_space.z.max && domain.z.max >= search_space.z.min
}

/// The indices of the points of `pts` that lie in the box `s`, in the
/// order of `pts`.
pub open spec fn select(pts: Seq<DataPoint>, s: Space) -> Seq<u64>
    decreases pts.len(),
{
    if pts.len() == 0 {
        Seq::empty()
    } else {
        let rest = select(pts.drop_last(), s);
        if in_space(pts.last(), s) {
            rest.push(pts.last().idx)
        } else {
            rest
        }
    }
}

/// The indices of all points of `pts`, in order.
pub open spec fn ids(pts: Seq<DataPoint>) -> Seq<u64> {
    pts.map_values(|p: DataPoint| p.idx)
}

/// Selection distributes over concatenation.
pub proof fn lemma_select_concat(a: Seq<DataPoint>, b: Seq<DataPoint>, s: Space)
    ensures
        select(a + b, s) == select(a, s) + select(b, s),
    decreases b.len(),
{
    if b.len() == 0 {
        assert(a + b =~= a);
        assert(select(a, s) + select(b, s) =~= select(a, s));
    } else {
        lemma_select_concat(a, b.drop_last(), s);
        assert((a + b).drop_last() =~= a + b.drop_last());
        assert((a + b).last() == b.last());
        if in_space(b.last(), s) {
            assert(select(a, s) + select(b.drop_last(), s).push(b.last().idx) =~= (select(a, s)
                + select(b.drop_last(), s)).push(b.last().idx));
        }
    }
}

/// When every point lies in the box, all indices are selected.
pub proof fn lemma_select_all(pts: Seq<DataPoint>, s: Space)
    requires
        forall|k: int| 0 <= k < pts.len() ==> in_space(#[trigger] pts[k], s),
    ensures
        select(pts, s) == ids(pts),
    decreases pts.len(),
{
    if pts.len() > 0 {
        lemma_select_all(pts.drop_last(), s);
        assert(in_space(pts[pts.len() - 1], s));
        assert(ids(pts.drop_last()).push(pts.last().idx) =~= ids(pts));
    } else {
        assert(ids(pts) =~= Seq::<u64>::empty());
    }
}

/// When no point lies in the box, nothing is selected.
pub proof fn lemma_select_none(pts: Seq<DataPoint>, s: Space)
    requires
        forall|k: int| 0 <= k < pts.len() ==> !in_space(#[trigger] pts[k], s),
    ensures
        select(pts, s) == Seq::<u64>::empty(),
    decreases pts.len(),
{
    if pts.len() > 0 {
        lemma_select_none(pts.drop_last(), s);
        assert(!in_space(pts[pts.len() - 1], s));
    }
}

/// An index is selected exactly when some point of the box carries it.
pub proof fn lemma_select_members(pts: Seq<DataPoint>, s: Space)
    ensures
        forall|v: u64|
            select(pts, s).contains(v) <==> exists|k: int|
                0 <= k < pts.len() && in_space(#[trigger] pts[k], s) && pts[k].idx == v,
    decreases pts.len(),
{
    if pts.len() > 0 {
        let init = pts.drop_last();
        lemma_select_members(init, s);
        assert forall|v: u64|
            select(pts, s).contains(v) <==> exists|k: int|
                0 <= k < pts.len() && in_space(#[trigger] pts[k], s) && pts[k].idx == v by {
            if select(pts, s).contains(v) {
                if select(init, s).contains(v) {
                    let k = choose|k: int|
                        0 <= k < init.len() && in_space(#[trigger] init[k], s) && init[k].idx == v;
                    assert(pts[k] == init[k]);
                } else {
                    let i = choose|i: int| 0 <= i < select(pts, s).len() && select(pts, s)[i] == v;
                    assert(in_space(pts.last(), s));
                    assert(i == select(init, s).len());
                    assert(pts[pts.len() - 1] == pts.last());
                }
            }
            if exists|k: int| 0 <= k < pts.len() && in_space(#[trigger] pts[k], s) && pts[k].idx == v {
                let k = choose|k: int|
                    0 <= k < pts.len() && in_space(#[trigger] pts[k], s) && pts[k].idx == v;
                if k < pts.len() - 1 {
                    assert(init[k] == pts[k]);
                    assert(select(init, s).contains(v));
                    let i = choose|i: int| 0 <= i < select(init, s).len() && select(init, s)[i] == v;
                    if in_space(pts.last(), s) {
                        assert(select(pts, s)[i] == v);
                    }
                } else {
                    assert(select(pts, s).last() == v);
                }
            }
        }
    }
}

/// When no two points carry the same index, no index is selected twice.
pub proof fn lemma_select_no_duplicates(pts: Seq<DataPoint>, s: Space)
    requires
        forall|a: int, b: int|
            0 <= a < pts.len() && 0 <= b < pts.len() && a != b ==> #[trigger] pts[a].idx
                != #[trigger] pts[b].idx,
    ensures
        select(pts, s).no_duplicates(),
    decreases pts.len(),
{
    if pts.len() > 0 {
        let init = pts.drop_last();
        lemma_select_no_duplicates(init, s);
        if in_space(pts.last(), s) {
            lemma_select_members(init, s);
            let v = pts.last().idx;
            if select(init, s).contains(v) {
                let k = choose|k: int|
                    0 <= k < init.len() && in_space(#[trigger] init[k], s) && init[k].idx == v;
                assert(pts[k].idx == pts[pts.len() - 1].idx);
            }
        }
    }
}

/// The half-width `a` cube around `(x, y, z)`, cut to the representable
/// coordinates.
pub open spec fn cube(x: i64, y: i64, z: i64, a: i64) -> Space {
    box_of(
        clamp(x - a),
        clamp(x + a),
        clamp(y - a),
        clamp(y + a),
        clamp(z - a),
        clamp(z + a),
    )
}

/// The nearest representable coordinate to `v`.
pub open spec fn clamp(v: int) -> i64 {
    if v < i64::MIN {
        i64::MIN
    } else if v > i64::MAX {
        i64::MAX
    } else {
        v as i64
    }
}

/// `c - a`, or the least coordinate when that is not representable.
pub fn cube_low(c: i64, a: i64) -> (v: i64)
    requires
        a >= 0,
    ensures
        v == clamp(c - a),
{
    if c < i64::MIN + a {
        i64::MIN
    } else {
        c - a
    }
}

/// `c + a`, or the greatest coordinate when that is not representable.
pub fn cube_high(c: i64, a: i64) -> (v: i64)
    requires
        a >= 0,
    ensures
        v == clamp(c + a),
{
    if c > i64::MAX - a {
        i64::MAX
    } else {
        c + a
    }
}

/// A point lies in the box with the given bounds exactly when each of its
/// coordinates lies between the two bounds of its axis, both included.
pub proof fn lemma_box_membership(
    p: DataPoint,
    x_min: i64,
    x_max: i64,
    y_min: i64,
    y_max: i64,
    z_min: i64,
    z_max: i64,
)
    ensures
        in_space(p, box_of(x_min, x_max, y_min, y_max, z_min, z_max)) <==> {
            &&& x_min <= p.x <= x_max
            &&& y_min <= p.y <= y_max
            &&& z_min <= p.z <= z_max
        },
{
}

/// Where `x - a` and `x + a` (and likewise on the other axes) are
/// representable, the cube is the box with those bounds, so a cube search
/// is the box search over them.
pub proof fn lemma_cube_is_box(x: i64, y: i64, z: i64, a: i64)
    requires
        a >= 0,
        i64::MIN <= x - a,
        x + a <= i64::MAX,
        i64::MIN <= y - a,
        y + a <= i64::MAX,
        i64::MIN <= z - a,
        z + a <= i64::MAX,
    ensures
        cube(x, y, z, a) == box_of(
            (x - a) as i64,
            (x + a) as i64,
            (y - a) as i64,
            (y + a) as i64,
            (z - a) as i64,
            (z + a) as i64,
        ),
{
}

/// A point lies in the cube of half-width `a` around `(x, y, z)` exactly
/// when each of its coordinates is within `a` of the centre's.
pub proof fn lemma_cube_membership(p: DataPoint, x: i64, y: i64, z: i64, a: i64)
    requires
        a >= 0,
    ensures
        in_space(p, cube(x, y, z, a)) <==> {
            &&& x - a <= p.x <= x + a
            &&& y - a <= p.y <= y + a
            &&& z - a <= p.z <= z + a
        },
{
}

} // verus!
