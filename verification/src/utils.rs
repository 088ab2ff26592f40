use vstd::prelude::*;
use vstd::set_lib::*;
use vstd::arithmetic::div_mod::{lemma_mod_self_0, lemma_small_mod};

verus! {

/// Binary classification of a thresholded pixel.
#[derive(Clone, Copy, PartialEq, Eq, PartialOrd, Ord, Debug, Structural)]
pub enum Color {
    Black,
    White,
    Other,
}

impl Color {
    /// Whether the pixel is black (like the tag markings).
    pub fn is_black(&self) -> (b: bool)
        ensures
            b == (*self == Color::Black),
    {
        *self == Color::Black
    }

    /// Whether the pixel is white (like the paper).
    pub fn is_white(&self) -> (b: bool)
        ensures
            b == (*self == Color::White),
    {
        *self == Color::White
    }

    /// Whether the pixel is relevant to tag detection (black or white).
    pub fn is_good(&self) -> (b: bool)
        ensures
            b == (*self != Color::Other),
    {
        *self != Color::Other
    }
}


/// Row-major buffer index of the pixel (`x`, `y`) in an image `width` pixels wide.
pub open spec fn px_spec(x: int, y: int, width: int) -> int {
    y * width + x
}

/// Calculate buffer index for an x and y, given an image width.
pub fn px(x: usize, y: usize, width: usize) -> (i: usize)
    requires
        y * width + x <= usize::MAX,
    ensures
        i == px_spec(x as int, y as int, width as int),
{
    y * width + x
}

/// Turn direction of the path `p -> q -> r`.
#[derive(Clone, Copy, PartialEq, Eq, PartialOrd, Ord, Debug, Structural)]
pub enum Orientation {
    Collinear,
    Clockwise,
    Counterclockwise,
}

/// A coordinate as the `i32` that the orientation test computes with.
pub open spec fn coord_i32(v: usize) -> int {
    (v as i32) as int
}

/// The first of the two products whose difference decides the orientation of `p -> q -> r`.
pub open spec fn cross_lhs(p: (usize, usize), q: (usize, usize), r: (usize, usize)) -> int {
    (coord_i32(q.1) - coord_i32(p.1)) * (coord_i32(r.0) - coord_i32(q.0))
}

/// The second of the two products whose difference decides the orientation.
pub open spec fn cross_rhs(p: (usize, usize), q: (usize, usize), r: (usize, usize)) -> int {
    (coord_i32(q.0) - coord_i32(p.0)) * (coord_i32(r.1) - coord_i32(q.1))
}

/// The cross product whose sign gives the orientation of `p -> q -> r`.
pub open spec fn cross(p: (usize, usize), q: (usize, usize), r: (usize, usize)) -> int {
    cross_lhs(p, q, r) - cross_rhs(p, q, r)
}

/// `v` is an `i32` value.
pub open spec fn fits_i32(v: int) -> bool {
    i32::MIN <= v <= i32::MAX
}

/// Every intermediate value of the `i32` orientation test on `p, q, r` fits in an `i32`.
pub open spec fn orientation_defined(p: (usize, usize), q: (usize, usize), r: (usize, usize)) -> bool {
    &&& fits_i32(coord_i32(q.1) - coord_i32(p.1))
    &&& fits_i32(coord_i32(r.0) - coord_i32(q.0))
    &&& fits_i32(coord_i32(q.0) - coord_i32(p.0))
    &&& fits_i32(coord_i32(r.1) - coord_i32(q.1))
    &&& fits_i32(cross_lhs(p, q, r))
    &&& fits_i32(cross_rhs(p, q, r))
    &&& fits_i32(cross(p, q, r))
}

/// The orientation that the sign of the cross product gives.
pub open spec fn orientation_of(p: (usize, usize), q: (usize, usize), r: (usize, usize)) -> Orientation {
    if cross(p, q, r) == 0 {
        Orientation::Collinear
    } else if cross(p, q, r) > 0 {
        Orientation::Clockwise
    } else {
        Orientation::Counterclockwise
    }
}

/// Calculate the orientation of the ordered triple `p, q, r`.
pub fn orientation(p: (usize, usize), q: (usize, usize), r: (usize, usize)) -> (o: Orientation)
    requires
        orientation_defined(p, q, r),
    ensures
        o == orientation_of(p, q, r),
{
    let (px, py) = p;
    let (qx, qy) = q;
    let (rx, ry) = r;
    let a: i32 = (qy as i32) - (py as i32);
    let b: i32 = (rx as i32) - (qx as i32);
    let c: i32 = (qx as i32) - (px as i32);
    let d: i32 = (ry as i32) - (qy as i32);
    let v: i32 = a * b - c * d;
    if v == 0 {
        Orientation::Collinear
    } else if v > 0 {
        Orientation::Clockwise
    } else {
        Orientation::Counterclockwise
    }
}

/// The orientation of the same three points traversed the other way round.
pub open spec fn mirrored(o: Orientation) -> Orientation {
    match o {
        Orientation::Collinear => Orientation::Collinear,
        Orientation::Clockwise => Orientation::Counterclockwise,
        Orientation::Counterclockwise => Orientation::Clockwise,
    }
}

/// Exchanging the last two points reverses the orientation.
pub proof fn lemma_orientation_swap(p: (usize, usize), q: (usize, usize), r: (usize, usize))
    ensures
        cross(p, r, q) == -cross(p, q, r),
        orientation_of(p, r, q) == mirrored(orientation_of(p, q, r)),
{
    let (px, py) = (coord_i32(p.0), coord_i32(p.1));
    let (qx, qy) = (coord_i32(q.0), coord_i32(q.1));
    let (rx, ry) = (coord_i32(r.0), coord_i32(r.1));
    assert((ry - py) * (qx - rx) - (rx - px) * (qy - ry) == -((qy - py) * (rx - qx) - (qx - px) * (
    ry - qy))) by (nonlinear_arith);
}

/// Starting the same cyclic traversal at another point keeps the orientation.
pub proof fn lemma_orientation_rotate(p: (usize, usize), q: (usize, usize), r: (usize, usize))
    ensures
        cross(q, r, p) == cross(p, q, r),
        orientation_of(q, r, p) == orientation_of(p, q, r),
{
    let (px, py) = (coord_i32(p.0), coord_i32(p.1));
    let (qx, qy) = (coord_i32(q.0), coord_i32(q.1));
    let (rx, ry) = (coord_i32(r.0), coord_i32(r.1));
    assert((ry - qy) * (px - rx) - (rx - qx) * (py - ry) == (qy - py) * (rx - qx) - (qx - px) * (
    ry - qy)) by (nonlinear_arith);
}

/// `l` is the first index of a point with the smallest x coordinate.
pub open spec fn is_first_leftmost(pts: Seq<(usize, usize)>, l: int) -> bool {
    &&& 0 <= l < pts.len()
    &&& forall|j: int| 0 <= j < pts.len() ==> pts[l].0 <= #[trigger] pts[j].0
    &&& forall|j: int| 0 <= j < l ==> pts[l].0 < #[trigger] pts[j].0
}

/// Index of the first point with the smallest x coordinate.
pub open spec fn leftmost(pts: Seq<(usize, usize)>) -> int {
    choose|l: int| is_first_leftmost(pts, l)
}

/// Candidate for the next hull point from `p` after scanning the first `k` points.
pub open spec fn wrap_scan(pts: Seq<(usize, usize)>, p: int, k: int) -> int
    decreases k,
{
    if k <= 0 {
        (p + 1) % (pts.len() as int)
    } else {
        let q = wrap_scan(pts, p, k - 1);
        if orientation_of(pts[p], pts[k - 1], pts[q]) == Orientation::Counterclockwise {
            k - 1
        } else {
            q
        }
    }
}

/// The point that gift wrapping moves to from `p`.
pub open spec fn wrap_next(pts: Seq<(usize, usize)>, p: int) -> int {
    wrap_scan(pts, p, pts.len() as int)
}

/// The index gift wrapping stands on after `k` steps from the leftmost point.
pub open spec fn wrap_walk(pts: Seq<(usize, usize)>, k: nat) -> int
    decreases k,
{
    if k == 0 {
        leftmost(pts)
    } else {
        wrap_next(pts, wrap_walk(pts, (k - 1) as nat))
    }
}

/// The walk first comes back to the leftmost point after `k` steps.
pub open spec fn wrap_closes_at(pts: Seq<(usize, usize)>, k: nat) -> bool {
    &&& k >= 1
    &&& wrap_walk(pts, k) == leftmost(pts)
    &&& forall|j: nat| 1 <= j < k ==> #[trigger] wrap_walk(pts, j) != leftmost(pts)
}

/// Gift wrapping comes back to its start, so the hull loop ends.
pub open spec fn wrap_terminates(pts: Seq<(usize, usize)>) -> bool {
    exists|k: nat| wrap_closes_at(pts, k)
}

/// Number of steps after which gift wrapping first comes back to its start.
pub open spec fn wrap_length(pts: Seq<(usize, usize)>) -> nat {
    choose|k: nat| wrap_closes_at(pts, k)
}

/// The hull that gift wrapping produces: the points visited before it returns to the start.
pub open spec fn gift_wrap(pts: Seq<(usize, usize)>) -> Seq<(usize, usize)> {
    Seq::new(wrap_length(pts), |j: int| pts[wrap_walk(pts, j as nat)])
}

/// The orientation test is defined on every triple of the points.
pub open spec fn orientations_defined(pts: Seq<(usize, usize)>) -> bool {
    forall|a: int, b: int, c: int|
        0 <= a < pts.len() && 0 <= b < pts.len() && 0 <= c < pts.len() ==> #[trigger]
        orientation_defined(pts[a], pts[b], pts[c])
}

proof fn lemma_first_leftmost_unique(pts: Seq<(usize, usize)>, l: int)
    requires
        is_first_leftmost(pts, l),
    ensures
        leftmost(pts) == l,
{
    let m = leftmost(pts);
    assert(is_first_leftmost(pts, m));
    if m < l {
        assert(pts[l].0 < pts[m].0);
    } else if l < m {
        assert(pts[m].0 < pts[l].0);
    }
}

proof fn lemma_scan_in_range(pts: Seq<(usize, usize)>, p: int, k: int)
    requires
        pts.len() > 0,
        0 <= p < pts.len(),
        k <= pts.len(),
    ensures
        0 <= wrap_scan(pts, p, k) < pts.len(),
    decreases k,
{
    if k > 0 {
        lemma_scan_in_range(pts, p, k - 1);
    }
}

proof fn lemma_walk_in_range(pts: Seq<(usize, usize)>, k: nat)
    requires
        pts.len() > 0,
        exists|l: int| is_first_leftmost(pts, l),
    ensures
        0 <= wrap_walk(pts, k) < pts.len(),
    decreases k,
{
    if k > 0 {
        lemma_walk_in_range(pts, (k - 1) as nat);
        lemma_scan_in_range(pts, wrap_walk(pts, (k - 1) as nat), pts.len() as int);
    }
}

/// Every coordinate is below 2^15, so that the orientation test never overflows.
pub open spec fn coords_small(pts: Seq<(usize, usize)>) -> bool {
    forall|i: int| 0 <= i < pts.len() ==> (#[trigger] pts[i]).0 < 0x8000 && pts[i].1 < 0x8000
}

proof fn lemma_small_products(a: int, b: int, c: int, d: int)
    by (nonlinear_arith)
    requires
        -0x8000 < a < 0x8000,
        -0x8000 < b < 0x8000,
        -0x8000 < c < 0x8000,
        -0x8000 < d < 0x8000,
    ensures
        -0x3fff_0001 <= a * b <= 0x3fff_0001,
        -0x3fff_0001 <= c * d <= 0x3fff_0001,
{
}

/// Points with small coordinates never overflow the orientation test.
pub proof fn lemma_small_defined(pts: Seq<(usize, usize)>)
    requires
        coords_small(pts),
    ensures
        orientations_defined(pts),
{
    assert forall|a: int, b: int, c: int|
        0 <= a < pts.len() && 0 <= b < pts.len() && 0 <= c < pts.len() implies #[trigger]
        orientation_defined(pts[a], pts[b], pts[c]) by {
        let (p, q, r) = (pts[a], pts[b], pts[c]);
        assert(coord_i32(p.0) == p.0 && coord_i32(p.1) == p.1);
        assert(coord_i32(q.0) == q.0 && coord_i32(q.1) == q.1);
        assert(coord_i32(r.0) == r.0 && coord_i32(r.1) == r.1);
        lemma_small_products(
            coord_i32(q.1) - coord_i32(p.1),
            coord_i32(r.0) - coord_i32(q.0),
            coord_i32(q.0) - coord_i32(p.0),
            coord_i32(r.1) - coord_i32(q.1),
        );
    }
}

/// Following the walk from two equal positions keeps the positions equal.
proof fn lemma_walk_shift(pts: Seq<(usize, usize)>, i: nat, j: nat, t: nat)
    requires
        wrap_walk(pts, i) == wrap_walk(pts, j),
    ensures
        wrap_walk(pts, i + t) == wrap_walk(pts, j + t),
    decreases t,
{
    if t > 0 {
        lemma_walk_shift(pts, i, j, (t - 1) as nat);
        assert(wrap_walk(pts, i + t) == wrap_next(pts, wrap_walk(pts, (i + t - 1) as nat)));
        assert(wrap_walk(pts, j + t) == wrap_next(pts, wrap_walk(pts, (j + t - 1) as nat)));
    }
}

/// Gift wrapping that comes back to its start does so within as many steps as there are
/// points: before that it visits distinct points.
pub proof fn lemma_first_return_bounded(pts: Seq<(usize, usize)>, k: nat)
    requires
        pts.len() > 0,
        exists|l: int| is_first_leftmost(pts, l),
        wrap_closes_at(pts, k),
    ensures
        k <= pts.len(),
{
    let s = Seq::new(k, |i: int| wrap_walk(pts, i as nat));
    assert forall|i: int, j: int| 0 <= i < s.len() && 0 <= j < s.len() && i != j implies s[i]
        != s[j] by {
        let (a, b) = if i < j {
            (i, j)
        } else {
            (j, i)
        };
        if s[a] == s[b] {
            lemma_walk_shift(pts, a as nat, b as nat, (k - b) as nat);
            assert(wrap_walk(pts, (a + k - b) as nat) == wrap_walk(pts, k));
            if a == 0 {
                assert(wrap_walk(pts, b as nat) == wrap_walk(pts, 0));
            } else {
                assert(1 <= a + k - b < k);
            }
        }
    }
    assert(s.no_duplicates());
    s.unique_seq_to_set();
    lemma_int_range(0, pts.len() as int);
    assert forall|x: int| s.to_set().contains(x) implies set_int_range(0, pts.len() as int).contains(
        x,
    ) by {
        let i = choose|i: int| 0 <= i < s.len() && s[i] == x;
        lemma_walk_in_range(pts, i as nat);
    }
    lemma_len_subset(s.to_set(), set_int_range(0, pts.len() as int));
}

/// The walk comes back to the start at one step only.
proof fn lemma_closes_unique(pts: Seq<(usize, usize)>, k1: nat, k2: nat)
    requires
        wrap_closes_at(pts, k1),
        wrap_closes_at(pts, k2),
    ensures
        k1 == k2,
{
    if k1 < k2 {
        assert(wrap_walk(pts, k1) != leftmost(pts));
    } else if k2 < k1 {
        assert(wrap_walk(pts, k2) != leftmost(pts));
    }
}

/// No two points coincide.
pub open spec fn distinct_points(pts: Seq<(usize, usize)>) -> bool {
    forall|i: int, j: int| 0 <= i < pts.len() && 0 <= j < pts.len() && i != j ==> pts[i] != pts[j]
}

/// No three of the points lie on one line.
pub open spec fn no_three_collinear(pts: Seq<(usize, usize)>) -> bool {
    forall|a: int, b: int, c: int|
        0 <= a < pts.len() && 0 <= b < pts.len() && 0 <= c < pts.len() && a != b && b != c && a
            != c ==> #[trigger] cross(pts[a], pts[b], pts[c]) != 0
}

/// Points in general position: at least one, small coordinates, pairwise distinct, no
/// three on a line.
pub open spec fn general_position(pts: Seq<(usize, usize)>) -> bool {
    &&& pts.len() > 0
    &&& coords_small(pts)
    &&& distinct_points(pts)
    &&& no_three_collinear(pts)
}

/// The vector from `p` to `a`.
pub open spec fn vsub(a: (usize, usize), p: (usize, usize)) -> (int, int) {
    (a.0 - p.0, a.1 - p.1)
}

/// The determinant whose sign orders two vectors by turning direction.
pub open spec fn det(u: (int, int), v: (int, int)) -> int {
    u.1 * v.0 - u.0 * v.1
}

/// Dot product.
pub open spec fn dot(n: (int, int), u: (int, int)) -> int {
    n.0 * u.0 + n.1 * u.1
}

proof fn lemma_cross_det(p: (usize, usize), a: (usize, usize), b: (usize, usize))
    requires
        p.0 < 0x8000 && p.1 < 0x8000,
        a.0 < 0x8000 && a.1 < 0x8000,
        b.0 < 0x8000 && b.1 < 0x8000,
    ensures
        cross(p, a, b) == det(vsub(a, p), vsub(b, p)),
        cross(a, p, b) == -cross(p, a, b),
{
    assert(coord_i32(p.0) == p.0 && coord_i32(p.1) == p.1);
    assert(coord_i32(a.0) == a.0 && coord_i32(a.1) == a.1);
    assert(coord_i32(b.0) == b.0 && coord_i32(b.1) == b.1);
    let (p0, p1, a0, a1, b0, b1) = (p.0 as int, p.1 as int, a.0 as int, a.1 as int, b.0 as int, b.1 as int);
    assert((a1 - p1) * (b0 - a0) - (a0 - p0) * (b1 - a1) == (a1 - p1) * (b0 - p0) - (a0 - p0) * (
    b1 - p1)) by (nonlinear_arith);
    assert((p1 - a1) * (b0 - p0) - (p0 - a0) * (b1 - p1) == -((a1 - p1) * (b0 - a0) - (a0 - p0) * (
    b1 - a1))) by (nonlinear_arith);
}

/// Turning direction is transitive among vectors in one open half-plane.
proof fn lemma_det_transitive(n: (int, int), u: (int, int), v: (int, int), w: (int, int))
    requires
        dot(n, u) > 0,
        dot(n, v) > 0,
        dot(n, w) > 0,
        det(u, v) < 0,
        det(v, w) < 0,
    ensures
        det(u, w) < 0,
{
    let (n0, n1, u0, u1, v0, v1, w0, w1) = (n.0, n.1, u.0, u.1, v.0, v.1, w.0, w.1);
    let duv = u1 * v0 - u0 * v1;
    let dvw = v1 * w0 - v0 * w1;
    let dwu = w1 * u0 - w0 * u1;
    let nu = n0 * u0 + n1 * u1;
    let nv = n0 * v0 + n1 * v1;
    let nw = n0 * w0 + n1 * w1;
    assert(duv * w0 + dvw * u0 + dwu * v0 == 0) by (nonlinear_arith)
        requires
            duv == u1 * v0 - u0 * v1,
            dvw == v1 * w0 - v0 * w1,
            dwu == w1 * u0 - w0 * u1,
    ;
    assert(duv * w1 + dvw * u1 + dwu * v1 == 0) by (nonlinear_arith)
        requires
            duv == u1 * v0 - u0 * v1,
            dvw == v1 * w0 - v0 * w1,
            dwu == w1 * u0 - w0 * u1,
    ;
    assert(duv * nw == n0 * (duv * w0) + n1 * (duv * w1)) by (nonlinear_arith)
        requires
            nw == n0 * w0 + n1 * w1,
    ;
    assert(dvw * nu == n0 * (dvw * u0) + n1 * (dvw * u1)) by (nonlinear_arith)
        requires
            nu == n0 * u0 + n1 * u1,
    ;
    assert(dwu * nv == n0 * (dwu * v0) + n1 * (dwu * v1)) by (nonlinear_arith)
        requires
            nv == n0 * v0 + n1 * v1,
    ;
    assert(n0 * (duv * w0) + n0 * (dvw * u0) + n0 * (dwu * v0) == n0 * (duv * w0 + dvw * u0
        + dwu * v0)) by (nonlinear_arith);
    assert(n1 * (duv * w1) + n1 * (dvw * u1) + n1 * (dwu * v1) == n1 * (duv * w1 + dvw * u1
        + dwu * v1)) by (nonlinear_arith);
    assert(duv * nw + dvw * nu + dwu * nv == 0);
    assert(duv * nw < 0) by (nonlinear_arith)
        requires
            duv < 0,
            nw > 0,
    ;
    assert(dvw * nu < 0) by (nonlinear_arith)
        requires
            dvw < 0,
            nu > 0,
    ;
    assert(dwu > 0) by (nonlinear_arith)
        requires
            dwu * nv > 0,
            nv > 0,
    ;
}

/// Every point but `pts[p]` lies strictly on the side of the line through `pts[p]` that
/// `n` points to.
pub open spec fn half_plane(pts: Seq<(usize, usize)>, p: int, n: (int, int)) -> bool {
    forall|k: int| 0 <= k < pts.len() && k != p ==> dot(n, #[trigger] vsub(pts[k], pts[p])) > 0
}

/// No point lies counterclockwise of the directed edge from `pts[p]` to `pts[q]`.
pub open spec fn no_point_ccw(pts: Seq<(usize, usize)>, p: int, q: int) -> bool {
    forall|k: int| 0 <= k < pts.len() ==> #[trigger] cross(pts[p], pts[k], pts[q]) >= 0
}

proof fn lemma_small_at(pts: Seq<(usize, usize)>, i: int)
    requires
        coords_small(pts),
        0 <= i < pts.len(),
    ensures
        pts[i].0 < 0x8000 && pts[i].1 < 0x8000,
{
}

/// When the points other than `pts[p]` lie in an open half-plane around it, scanning the
/// first `j` points leaves no scanned point counterclockwise of the candidate.
proof fn lemma_scan_no_ccw(pts: Seq<(usize, usize)>, p: int, n: (int, int), j: int)
    requires
        pts.len() > 0,
        coords_small(pts),
        0 <= p < pts.len(),
        half_plane(pts, p, n),
        0 <= j <= pts.len(),
    ensures
        0 <= wrap_scan(pts, p, j) < pts.len(),
        forall|k: int|
            0 <= k < j ==> #[trigger] cross(pts[p], pts[k], pts[wrap_scan(pts, p, j)]) >= 0,
    decreases j,
{
    lemma_scan_in_range(pts, p, j);
    if j > 0 {
        lemma_scan_no_ccw(pts, p, n, j - 1);
        let q = wrap_scan(pts, p, j - 1);
        let c = j - 1;
        lemma_small_at(pts, p);
        lemma_small_at(pts, q);
        lemma_small_at(pts, c);
        lemma_cross_det(pts[p], pts[c], pts[q]);
        if orientation_of(pts[p], pts[c], pts[q]) == Orientation::Counterclockwise {
            assert(wrap_scan(pts, p, j) == c);
            assert forall|k: int| 0 <= k < j implies #[trigger] cross(pts[p], pts[k], pts[c])
                >= 0 by {
                lemma_small_at(pts, k);
                lemma_cross_det(pts[p], pts[k], pts[c]);
                lemma_cross_det(pts[p], pts[k], pts[q]);
                lemma_cross_det(pts[p], pts[c], pts[c]);
                if k < c && cross(pts[p], pts[k], pts[c]) < 0 {
                    let vk = vsub(pts[k], pts[p]);
                    let vc = vsub(pts[c], pts[p]);
                    let vq = vsub(pts[q], pts[p]);
                    assert(k != p && c != p && q != p);
                    lemma_det_transitive(n, vk, vc, vq);
                    assert(cross(pts[p], pts[k], pts[q]) >= 0);
                }
            }
        } else {
            assert(wrap_scan(pts, p, j) == q);
            assert(cross(pts[p], pts[c], pts[q]) >= 0);
        }
    }
}

/// Where the points lie in a half-plane around `pts[p]`, no point is counterclockwise of the
/// hull edge from `pts[p]` to the point gift wrapping moves to.
proof fn lemma_step_no_ccw(pts: Seq<(usize, usize)>, p: int, n: (int, int))
    requires
        pts.len() > 0,
        coords_small(pts),
        0 <= p < pts.len(),
        half_plane(pts, p, n),
    ensures
        0 <= wrap_next(pts, p) < pts.len(),
        no_point_ccw(pts, p, wrap_next(pts, p)),
{
    lemma_scan_no_ccw(pts, p, n, pts.len() as int);
}

/// The candidate never stays on `p` once a second point exists.
proof fn lemma_scan_moves(pts: Seq<(usize, usize)>, p: int, j: int)
    requires
        pts.len() >= 2,
        coords_small(pts),
        0 <= p < pts.len(),
        0 <= j <= pts.len(),
    ensures
        wrap_scan(pts, p, j) != p,
    decreases j,
{
    lemma_scan_in_range(pts, p, j);
    if j > 0 {
        lemma_scan_moves(pts, p, j - 1);
        let q = wrap_scan(pts, p, j - 1);
        lemma_scan_in_range(pts, p, j - 1);
        lemma_small_at(pts, p);
        lemma_small_at(pts, q);
        lemma_cross_det(pts[p], pts[p], pts[q]);
    } else {
        assert((p + 1) % (pts.len() as int) != p) by (nonlinear_arith)
            requires
                pts.len() >= 2,
                0 <= p < pts.len(),
        ;
    }
}

/// A normal that puts every point but `pts[q]` strictly on one side of `pts[q]`, built from
/// the hull edge from `pts[p]` to `pts[q]`.
pub open spec fn edge_normal(pts: Seq<(usize, usize)>, p: int, q: int) -> (int, int) {
    let d = vsub(pts[q], pts[p]);
    (0x1_0000_0000 * (-d.1) - d.0, 0x1_0000_0000 * d.0 - d.1)
}

proof fn lemma_edge_normal_dot(d0: int, d1: int, u0: int, u1: int, c: int)
    by (nonlinear_arith)
    requires
        -0x8000 < d0 < 0x8000,
        -0x8000 < d1 < 0x8000,
        -0x8000 < u0 < 0x8000,
        -0x8000 < u1 < 0x8000,
        c == u1 * d0 - u0 * d1,
        c >= 1 || (c == 0 && u0 == -d0 && u1 == -d1 && (d0 != 0 || d1 != 0)),
    ensures
        (0x1_0000_0000 * (-d1) - d0) * u0 + (0x1_0000_0000 * d0 - d1) * u1 > 0,
{
    assert((0x1_0000_0000 * (-d1) - d0) * u0 + (0x1_0000_0000 * d0 - d1) * u1
        == 0x1_0000_0000 * c - (d0 * u0 + d1 * u1));
    assert(-0x4000_0000 < d0 * u0 < 0x4000_0000);
    assert(-0x4000_0000 < d1 * u1 < 0x4000_0000);
    if c == 0 {
        assert(d0 * u0 + d1 * u1 == -(d0 * d0 + d1 * d1));
        assert(d0 * d0 + d1 * d1 > 0);
    }
}

/// When no point is counterclockwise of the hull edge from `pts[p]` to `pts[q]`, every point
/// but `pts[q]` lies strictly on one side of `pts[q]`.
proof fn lemma_edge_half_plane(pts: Seq<(usize, usize)>, p: int, q: int)
    requires
        general_position(pts),
        0 <= p < pts.len(),
        0 <= q < pts.len(),
        p != q,
        no_point_ccw(pts, p, q),
    ensures
        half_plane(pts, q, edge_normal(pts, p, q)),
{
    let d = vsub(pts[q], pts[p]);
    lemma_small_at(pts, p);
    lemma_small_at(pts, q);
    assert(pts[p] != pts[q]);
    assert forall|k: int| 0 <= k < pts.len() && k != q implies dot(
        edge_normal(pts, p, q),
        #[trigger] vsub(pts[k], pts[q]),
    ) > 0 by {
        lemma_small_at(pts, k);
        let u = vsub(pts[k], pts[q]);
        lemma_cross_det(pts[p], pts[k], pts[q]);
        let c = u.1 * d.0 - u.0 * d.1;
        assert(cross(pts[p], pts[k], pts[q]) >= 0);
        assert(det(vsub(pts[k], pts[p]), d) == c) by (nonlinear_arith)
            requires
                vsub(pts[k], pts[p]) == (u.0 + d.0, u.1 + d.1),
                c == u.1 * d.0 - u.0 * d.1,
        {
        }
        if k != p {
            assert(cross(pts[p], pts[k], pts[q]) != 0);
        }
        lemma_edge_normal_dot(d.0, d.1, u.0, u.1, c);
    }
}

/// The normal at the first leftmost point: mostly to the right, tilted towards the one other
/// point, if any, straight above or below it.
pub open spec fn leftmost_normal(pts: Seq<(usize, usize)>) -> (int, int) {
    let l = leftmost(pts);
    if exists|b: int| 0 <= b < pts.len() && pts[b].0 == pts[l].0 && pts[b].1 > pts[l].1 {
        (0x1_0000_0000, 1)
    } else {
        (0x1_0000_0000, -1)
    }
}

/// Every point but the first leftmost one lies strictly on one side of it.
proof fn lemma_leftmost_half_plane(pts: Seq<(usize, usize)>)
    requires
        general_position(pts),
    ensures
        0 <= leftmost(pts) < pts.len(),
        half_plane(pts, leftmost(pts), leftmost_normal(pts)),
{
    lemma_leftmost_exists(pts);
    let l = leftmost(pts);
    let n = leftmost_normal(pts);
    lemma_small_at(pts, l);
    assert forall|k: int| 0 <= k < pts.len() && k != l implies dot(
        n,
        #[trigger] vsub(pts[k], pts[l]),
    ) > 0 by {
        lemma_small_at(pts, k);
        let u = vsub(pts[k], pts[l]);
        assert(pts[k] != pts[l]);
        assert(u.0 >= 0);
        if u.0 == 0 {
            assert(u.1 != 0);
            if u.1 > 0 {
                assert(n == (0x1_0000_0000int, 1int));
            } else {
                if n == (0x1_0000_0000int, 1int) {
                    let b = choose|b: int|
                        0 <= b < pts.len() && pts[b].0 == pts[l].0 && pts[b].1 > pts[l].1;
                    lemma_small_at(pts, b);
                    lemma_cross_det(pts[l], pts[k], pts[b]);
                    assert(cross(pts[l], pts[k], pts[b]) == 0);
                    assert(b != k && b != l);
                }
                assert(n == (0x1_0000_0000int, -1int));
            }
        } else {
            assert(n.1 == 1 || n.1 == -1);
            assert(n.0 * u.0 + n.1 * u.1 > 0) by (nonlinear_arith)
                requires
                    n.0 == 0x1_0000_0000,
                    n.1 == 1 || n.1 == -1,
                    u.0 >= 1,
                    -0x8000 < u.1 < 0x8000,
            ;
        }
    }
}

proof fn lemma_leftmost_upto(pts: Seq<(usize, usize)>, i: int) -> (l: int)
    requires
        1 <= i <= pts.len(),
    ensures
        0 <= l < i,
        forall|j: int| 0 <= j < i ==> pts[l].0 <= #[trigger] pts[j].0,
        forall|j: int| 0 <= j < l ==> pts[l].0 < #[trigger] pts[j].0,
    decreases i,
{
    if i == 1 {
        0
    } else {
        let l0 = lemma_leftmost_upto(pts, i - 1);
        if pts[i - 1].0 < pts[l0].0 {
            i - 1
        } else {
            l0
        }
    }
}

/// A first leftmost point exists.
proof fn lemma_leftmost_exists(pts: Seq<(usize, usize)>)
    requires
        pts.len() > 0,
    ensures
        is_first_leftmost(pts, leftmost(pts)),
        0 <= leftmost(pts) < pts.len(),
{
    let l = lemma_leftmost_upto(pts, pts.len() as int);
    lemma_first_leftmost_unique(pts, l);
}

/// The normal that puts every other point on one side of the point gift wrapping stands on
/// after `t` steps.
pub open spec fn walk_normal(pts: Seq<(usize, usize)>, t: nat) -> (int, int) {
    if t == 0 {
        leftmost_normal(pts)
    } else {
        edge_normal(pts, wrap_walk(pts, (t - 1) as nat), wrap_walk(pts, t))
    }
}

/// Along the walk, every point but the current one lies on one side of it, the walk moves
/// on at each step, and no point is counterclockwise of the edge it walks.
proof fn lemma_walk_edges(pts: Seq<(usize, usize)>, t: nat)
    requires
        general_position(pts),
        pts.len() >= 2,
    ensures
        0 <= wrap_walk(pts, t) < pts.len(),
        0 <= wrap_walk(pts, t + 1) < pts.len(),
        half_plane(pts, wrap_walk(pts, t), walk_normal(pts, t)),
        no_point_ccw(pts, wrap_walk(pts, t), wrap_walk(pts, t + 1)),
        wrap_walk(pts, t + 1) != wrap_walk(pts, t),
    decreases t,
{
    lemma_leftmost_exists(pts);
    if t == 0 {
        lemma_leftmost_half_plane(pts);
    } else {
        lemma_walk_edges(pts, (t - 1) as nat);
        assert(wrap_walk(pts, ((t - 1) as nat + 1) as nat) == wrap_walk(pts, t));
        lemma_edge_half_plane(pts, wrap_walk(pts, (t - 1) as nat), wrap_walk(pts, t));
    }
    let p = wrap_walk(pts, t);
    assert(wrap_walk(pts, t + 1) == wrap_next(pts, p));
    lemma_step_no_ccw(pts, p, walk_normal(pts, t));
    lemma_scan_moves(pts, p, pts.len() as int);
}

/// Two steps of the walk that arrive at the same point leave from the same point.
proof fn lemma_walk_injective(pts: Seq<(usize, usize)>, i: nat, j: nat)
    requires
        general_position(pts),
        pts.len() >= 2,
        wrap_walk(pts, i + 1) == wrap_walk(pts, j + 1),
    ensures
        wrap_walk(pts, i) == wrap_walk(pts, j),
{
    lemma_walk_edges(pts, i);
    lemma_walk_edges(pts, j);
    let a = wrap_walk(pts, i);
    let b = wrap_walk(pts, j);
    let c = wrap_walk(pts, i + 1);
    if a != b {
        lemma_small_at(pts, a);
        lemma_small_at(pts, b);
        lemma_small_at(pts, c);
        assert(cross(pts[a], pts[b], pts[c]) >= 0);
        assert(cross(pts[b], pts[a], pts[c]) >= 0);
        assert(cross(pts[a], pts[b], pts[c]) != 0);
        lemma_cross_det(pts[a], pts[b], pts[c]);
    }
}

/// Before it first comes back to its start, the walk visits no point twice.
proof fn lemma_walk_distinct(pts: Seq<(usize, usize)>, j: nat)
    requires
        general_position(pts),
        pts.len() >= 2,
        forall|m: nat| 1 <= m <= j ==> #[trigger] wrap_walk(pts, m) != wrap_walk(pts, 0),
    ensures
        forall|a: nat, b: nat|
            a < b <= j ==> #[trigger] wrap_walk(pts, a) != #[trigger] wrap_walk(pts, b),
    decreases j,
{
    if j > 0 {
        lemma_walk_distinct(pts, (j - 1) as nat);
        assert forall|a: nat, b: nat| a < b <= j implies #[trigger] wrap_walk(pts, a)
            != #[trigger] wrap_walk(pts, b) by {
            if b == j && a > 0 && wrap_walk(pts, a) == wrap_walk(pts, b) {
                lemma_walk_injective(pts, (a - 1) as nat, (b - 1) as nat);
                assert(wrap_walk(pts, (a - 1) as nat) != wrap_walk(pts, (b - 1) as nat));
            }
        }
    }
}

/// A walk that is back at its start after `j` steps comes back a first time.
proof fn lemma_closes(pts: Seq<(usize, usize)>, j: nat)
    requires
        j >= 1,
        wrap_walk(pts, j) == leftmost(pts),
    ensures
        wrap_terminates(pts),
    decreases j,
{
    if exists|m: nat| 1 <= m < j && #[trigger] wrap_walk(pts, m) == leftmost(pts) {
        let m = choose|m: nat| 1 <= m < j && #[trigger] wrap_walk(pts, m) == leftmost(pts);
        lemma_closes(pts, m);
    } else {
        assert(wrap_closes_at(pts, j));
    }
}

/// For points in general position the walk comes back to its start.
proof fn lemma_walk_returns(pts: Seq<(usize, usize)>)
    requires
        general_position(pts),
    ensures
        wrap_terminates(pts),
{
    lemma_leftmost_exists(pts);
    let n = pts.len();
    if n == 1 {
        lemma_small_at(pts, 0);
        lemma_cross_det(pts[0], pts[0], pts[0]);
        assert(wrap_scan(pts, 0, 0) == 0);
        assert(wrap_scan(pts, 0, 1) == 0);
        assert(wrap_walk(pts, 1) == wrap_next(pts, wrap_walk(pts, 0)));
        lemma_closes(pts, 1);
    } else if exists|m: nat| 1 <= m <= n && #[trigger] wrap_walk(pts, m) == wrap_walk(pts, 0) {
        let m = choose|m: nat| 1 <= m <= n && #[trigger] wrap_walk(pts, m) == wrap_walk(pts, 0);
        lemma_closes(pts, m);
    } else {
        lemma_walk_distinct(pts, n as nat);
        let s = Seq::new((n + 1) as nat, |i: int| wrap_walk(pts, i as nat));
        assert forall|i: int, j: int| 0 <= i < s.len() && 0 <= j < s.len() && i != j implies s[i]
            != s[j] by {
            if i < j {
                assert(wrap_walk(pts, i as nat) != wrap_walk(pts, j as nat));
            } else {
                assert(wrap_walk(pts, j as nat) != wrap_walk(pts, i as nat));
            }
        }
        assert(s.no_duplicates());
        s.unique_seq_to_set();
        lemma_int_range(0, n as int);
        assert forall|x: int| s.to_set().contains(x) implies set_int_range(0, n as int).contains(
            x,
        ) by {
            let i = choose|i: int| 0 <= i < s.len() && s[i] == x;
            lemma_walk_in_range(pts, i as nat);
        }
        lemma_len_subset(s.to_set(), set_int_range(0, n as int));
    }
}

/// The hull of points in general position holds no point twice.
proof fn lemma_hull_no_duplicates(pts: Seq<(usize, usize)>)
    requires
        general_position(pts),
        wrap_terminates(pts),
    ensures
        gift_wrap(pts).no_duplicates(),
{
    lemma_leftmost_exists(pts);
    let k_end = wrap_length(pts);
    assert(wrap_closes_at(pts, k_end));
    let hull = gift_wrap(pts);
    if pts.len() == 1 {
        lemma_first_return_bounded(pts, k_end);
        assert(hull.len() == 1);
    } else {
        lemma_walk_distinct(pts, (k_end - 1) as nat);
        assert forall|i: int, j: int| 0 <= i < hull.len() && 0 <= j < hull.len() && i != j implies hull[i]
            != hull[j] by {
            lemma_walk_in_range(pts, i as nat);
            lemma_walk_in_range(pts, j as nat);
            if i < j {
                assert(wrap_walk(pts, i as nat) != wrap_walk(pts, j as nat));
            } else {
                assert(wrap_walk(pts, j as nat) != wrap_walk(pts, i as nat));
            }
        }
    }
}

/// No point of a general-position input lies counterclockwise of the `j`-th hull edge.
proof fn lemma_hull_edge(pts: Seq<(usize, usize)>, j: int, k: int)
    requires
        general_position(pts),
        wrap_terminates(pts),
        0 <= j < gift_wrap(pts).len(),
        0 <= k < pts.len(),
    ensures
        orientation_of(
            gift_wrap(pts)[j],
            pts[k],
            gift_wrap(pts)[(j + 1) % (gift_wrap(pts).len() as int)],
        ) != Orientation::Counterclockwise,
{
    lemma_leftmost_exists(pts);
    let k_end = wrap_length(pts);
    assert(wrap_closes_at(pts, k_end));
    let hull = gift_wrap(pts);
    let len = hull.len() as int;
    let next = (j + 1) % len;
    if j + 1 < len {
        lemma_small_mod((j + 1) as nat, len as nat);
    } else {
        lemma_mod_self_0(len);
    }
    if pts.len() == 1 {
        lemma_walk_in_range(pts, j as nat);
        lemma_walk_in_range(pts, next as nat);
        lemma_small_at(pts, 0);
        lemma_cross_det(pts[0], pts[0], pts[0]);
    } else {
        lemma_walk_edges(pts, j as nat);
        let a = wrap_walk(pts, j as nat);
        let b = wrap_walk(pts, (j + 1) as nat);
        assert(cross(pts[a], pts[k], pts[b]) >= 0);
        assert(hull[j] == pts[a]);
        if j + 1 < len {
            assert(hull[next] == pts[b]);
        } else {
            assert(b == wrap_walk(pts, 0));
            assert(hull[next] == pts[b]);
        }
    }
}

/// Gift wrapping of points in general position (small, pairwise distinct, no three on a
/// line) comes back to its start, so `find_convex_hull` ends on them; the hull it walks holds
/// no point twice; and no input point lies counterclockwise of any edge of the hull, the
/// closing edge from the last hull point back to the first included.
pub proof fn lemma_gift_wrap_general_position(pts: Seq<(usize, usize)>)
    requires
        general_position(pts),
    ensures
        wrap_terminates(pts),
        orientations_defined(pts),
        gift_wrap(pts).no_duplicates(),
        forall|j: int, k: int|
            #![trigger gift_wrap(pts)[j], pts[k]]
            0 <= j < gift_wrap(pts).len() && 0 <= k < pts.len() ==> orientation_of(
                gift_wrap(pts)[j],
                pts[k],
                gift_wrap(pts)[(j + 1) % (gift_wrap(pts).len() as int)],
            ) != Orientation::Counterclockwise,
{
    lemma_small_defined(pts);
    lemma_walk_returns(pts);
    lemma_hull_no_duplicates(pts);
    assert forall|j: int, k: int|
        #![trigger gift_wrap(pts)[j], pts[k]]
        0 <= j < gift_wrap(pts).len() && 0 <= k < pts.len() implies orientation_of(
            gift_wrap(pts)[j],
            pts[k],
            gift_wrap(pts)[(j + 1) % (gift_wrap(pts).len() as int)],
        ) != Orientation::Counterclockwise by {
        lemma_hull_edge(pts, j, k);
    }
}

/// Index of the first point with the smallest x coordinate.
fn leftmost_index(points: &[(usize, usize)]) -> (l: usize)
    requires
        points.len() > 0,
    ensures
        is_first_leftmost(points@, l as int),
        leftmost(points@) == l,
{
    let n = points.len();
    let ghost pts = points@;
    let mut l: usize = 0;
    let mut i: usize = 0;
    while i < n
        invariant
            n == pts.len(),
            pts == points@,
            l < n,
            i <= n,
            forall|j: int| 0 <= j < i ==> pts[l as int].0 <= #[trigger] pts[j].0,
            forall|j: int| 0 <= j < l ==> pts[l as int].0 < #[trigger] pts[j].0,
        decreases n - i,
    {
        if points[i].0 < points[l].0 {
            l = i;
        }
        i = i + 1;
    }
    proof {
        lemma_first_leftmost_unique(pts, l as int);
    }
    l
}

/// The point gift wrapping moves to from `p`: the most counterclockwise one.
fn wrap_step(points: &[(usize, usize)], p: usize) -> (q: usize)
    requires
        points.len() > 0,
        p < points.len(),
        orientations_defined(points@),
    ensures
        q == wrap_next(points@, p as int),
        q < points.len(),
{
    let n = points.len();
    let ghost pts = points@;
    let mut q: usize = (p + 1) % n;
    let mut i: usize = 0;
    while i < n
        invariant
            n == pts.len(),
            n > 0,
            pts == points@,
            orientations_defined(pts),
            p < n,
            q < n,
            i <= n,
            q == wrap_scan(pts, p as int, i as int),
        decreases n - i,
    {
        assert(orientation_defined(pts[p as int], pts[i as int], pts[q as int]));
        if orientation(points[p], points[i], points[q]) == Orientation::Counterclockwise {
            q = i;
        }
        i = i + 1;
    }
    q
}

/// Gift wrapping (Jarvis march) from the leftmost point.
pub struct PresentWrapper {}

impl PresentWrapper {
    /// Walk the convex hull of `points`, starting at the first leftmost point.
    pub fn find_convex_hull(points: &[(usize, usize)]) -> (hull: Vec<(usize, usize)>)
        requires
            points.len() > 0,
            orientations_defined(points@),
            wrap_terminates(points@),
        ensures
            hull@ == gift_wrap(points@),
            1 <= hull@.len() <= points.len(),
            is_first_leftmost(points@, leftmost(points@)),
            hull@[0] == points@[leftmost(points@)],
            forall|k: int| 0 <= k < hull@.len() ==> points@.contains(#[trigger] hull@[k]),
    {
        let n = points.len();
        let ghost pts = points@;

        // Find leftmost point
        let l = leftmost_index(points);
        let ghost k_end: nat = wrap_length(pts);
        assert(wrap_closes_at(pts, k_end));

        let mut hull: Vec<(usize, usize)> = Vec::new();
        let mut p: usize = l;
        let ghost mut t: nat = 0;
        while p != l || hull.len() == 0
            invariant
                n == pts.len(),
                n > 0,
                pts == points@,
                orientations_defined(pts),
                is_first_leftmost(pts, l as int),
                leftmost(pts) == l,
                wrap_closes_at(pts, k_end),
                k_end == wrap_length(pts),
                p < n,
                p == wrap_walk(pts, t),
                t <= k_end,
                hull.len() == t,
                hull@ == Seq::new(t, |j: int| pts[wrap_walk(pts, j as nat)]),
            decreases k_end - t,
        {
            assert(t < k_end) by {
                if t >= 1 {
                    assert(wrap_walk(pts, t) != leftmost(pts));
                }
            }
            hull.push(points[p]);
            let q = wrap_step(points, p);
            proof {
                assert(hull@ =~= Seq::new((t + 1) as nat, |j: int| pts[wrap_walk(pts, j as nat)]));
                t = t + 1;
            }
            p = q;
        }
        proof {
            if t < k_end {
                assert(wrap_walk(pts, t) != leftmost(pts));
            }
            lemma_first_return_bounded(pts, k_end);
            assert forall|k: int| 0 <= k < hull@.len() implies pts.contains(#[trigger] hull@[k]) by {
                lemma_walk_in_range(pts, k as nat);
                assert(hull@[k] == pts[wrap_walk(pts, k as nat)]);
            }
        }
        hull
    }

    /// Gift wrapping for any input: `None` when there are no points, when a coordinate is
    /// 2^15 or more, or when the walk never comes back to the leftmost point (checked by
    /// giving up after as many steps as there are points); else the hull that
    /// `find_convex_hull` returns.
    pub fn try_find_convex_hull(points: &[(usize, usize)]) -> (r: Option<Vec<(usize, usize)>>)
        ensures
            r is Some <==> (points.len() > 0 && coords_small(points@) && wrap_terminates(points@)),
            r matches Some(hull) ==> hull@ == gift_wrap(points@) && 1 <= hull@.len() <= points.len(),
    {
        let n = points.len();
        let ghost pts = points@;
        if n == 0 {
            return None;
        }
        let mut i: usize = 0;
        while i < n
            invariant
                n == pts.len(),
                pts == points@,
                i <= n,
                forall|j: int| 0 <= j < i ==> (#[trigger] pts[j]).0 < 0x8000 && pts[j].1 < 0x8000,
            decreases n - i,
        {
            if points[i].0 >= 0x8000 || points[i].1 >= 0x8000 {
                proof {
                    assert(!coords_small(pts)) by {
                        assert(!(pts[i as int].0 < 0x8000 && pts[i as int].1 < 0x8000));
                    }
                }
                return None;
            }
            i = i + 1;
        }
        proof {
            lemma_small_defined(pts);
        }
        let l = leftmost_index(points);
        let mut hull: Vec<(usize, usize)> = Vec::new();
        let mut p: usize = l;
        let ghost mut t: nat = 0;
        while hull.len() < n
            invariant
                n == pts.len(),
                n > 0,
                pts == points@,
                coords_small(pts),
                orientations_defined(pts),
                is_first_leftmost(pts, l as int),
                leftmost(pts) == l,
                p < n,
                p == wrap_walk(pts, t),
                t <= n,
                hull.len() == t,
                hull@ == Seq::new(t, |j: int| pts[wrap_walk(pts, j as nat)]),
                forall|j: nat| 1 <= j <= t ==> #[trigger] wrap_walk(pts, j) != l,
            decreases n - t,
        {
            hull.push(points[p]);
            let q = wrap_step(points, p);
            proof {
                assert(hull@ =~= Seq::new((t + 1) as nat, |j: int| pts[wrap_walk(pts, j as nat)]));
                t = t + 1;
                assert(q == wrap_walk(pts, t));
            }
            p = q;
            if p == l {
                proof {
                    assert(wrap_closes_at(pts, t));
                    assert(wrap_terminates(pts));
                    lemma_closes_unique(pts, t, wrap_length(pts));
                    assert(hull@ =~= gift_wrap(pts));
                }
                return Some(hull);
            }
        }
        proof {
            if wrap_terminates(pts) {
                let k = choose|k: nat| wrap_closes_at(pts, k);
                lemma_first_return_bounded(pts, k);
                assert(wrap_walk(pts, k) == leftmost(pts));
            }
        }
        None
    }
}

} // verus!
