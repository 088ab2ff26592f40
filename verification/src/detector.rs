use vstd::prelude::*;
use vstd::relations::*;
use vstd::seq_lib::*;

use crate::union_find::UnionFind;
use crate::utils::{px_spec, Color};

verus! {

/// Fold the high half of a 64-bit value onto its low half.
pub fn u64hash_2(x: u64) -> (h: u32)
    ensures
        h == (x as u32) ^ ((x >> 32u64) as u32),
{
    let r = ((x >> 32u64) ^ x) as u32;
    assert(((x >> 32u64) ^ x) as u32 == (x as u32) ^ ((x >> 32u64) as u32)) by (bit_vector);
    r
}

/// Color of the pixel at (`x`, `y`) of a row-major buffer `w` pixels wide, read the way
/// the detector reads it: a coordinate below zero, or an index past the end of the buffer,
/// reads as `Other`.
pub open spec fn color_at(buf: Seq<Color>, w: int, x: int, y: int) -> Color {
    if 0 <= x && 0 <= y && y * w + x < buf.len() {
        buf[y * w + x]
    } else {
        Color::Other
    }
}

/// `a ^ b ^ c ^ d` on booleans.
pub open spec fn xor4(a: bool, b: bool, c: bool, d: bool) -> bool {
    ((a != b) != c) != d
}

/// The corner test of the FAST-like detector, over a pixel classification given as
/// "is black" and "is good" (black or white) predicates on coordinates.
pub open spec fn corner_rule(
    black: spec_fn(int, int) -> bool,
    good: spec_fn(int, int) -> bool,
    x: int,
    y: int,
) -> bool {
    &&& black(x, y)
    // exactly an odd number of the diagonal neighbours is black
    &&& xor4(black(x - 1, y - 1), black(x + 1, y - 1), black(x - 1, y + 1), black(x + 1, y + 1))
    // the far diagonal points are all black or white ...
    &&& good(x + 3, y - 3) && good(x + 3, y + 3) && good(x - 3, y + 3) && good(x - 3, y - 3)
    // ... and an odd number of them is black
    &&& xor4(black(x + 3, y - 3), black(x + 3, y + 3), black(x - 3, y + 3), black(x - 3, y - 3))
}

/// Corners of column `x` with `3 <= y < y_end`, in increasing `y`.
pub open spec fn corner_column(corner: spec_fn(int, int) -> bool, x: int, y_end: int) -> Seq<
    (usize, usize),
>
    decreases y_end - 3,
{
    if y_end <= 3 {
        seq![]
    } else {
        let prev = corner_column(corner, x, y_end - 1);
        if corner(x, y_end - 1) {
            prev.push((x as usize, (y_end - 1) as usize))
        } else {
            prev
        }
    }
}

/// Corners of the columns `3 <= x < x_end`, column by column, each with `3 <= y <= y_last`.
pub open spec fn corners_before(corner: spec_fn(int, int) -> bool, x_end: int, y_last: int) -> Seq<
    (usize, usize),
>
    decreases x_end - 3,
{
    if x_end <= 3 {
        seq![]
    } else {
        corners_before(corner, x_end - 1, y_last) + corner_column(corner, x_end - 1, y_last + 1)
    }
}

/// All corners of a `w` by `h` image inside its 3-pixel padding, in scan order: `x` from 3
/// up to but excluding `w - 3`, and within each column `y` from 3 up to but excluding `h - 3`.
pub open spec fn corner_scan(corner: spec_fn(int, int) -> bool, w: int, h: int) -> Seq<
    (usize, usize),
> {
    corners_before(corner, w - 3, h - 4)
}

/// Every point lies inside the 3-pixel padding of a `w` by `h` frame.
pub open spec fn points_in_padding(pts: Seq<(usize, usize)>, w: int, h: int) -> bool {
    forall|k: int|
        0 <= k < pts.len() ==> 3 <= (#[trigger] pts[k]).0 < w - 3 && 3 <= pts[k].1 < h - 3
}

/// The corner predicate of a thresholded buffer.
pub open spec fn buf_corner(buf: Seq<Color>, w: int) -> spec_fn(int, int) -> bool {
    |x: int, y: int|
        corner_rule(
            |a: int, b: int| color_at(buf, w, a, b) == Color::Black,
            |a: int, b: int| color_at(buf, w, a, b) != Color::Other,
            x,
            y,
        )
}

/// The four checking points on either side of an edge agree on it: all are black or white,
/// the sides differ crosswise, and the two points on the first side match.
pub open spec fn edge_split(a1: Color, a2: Color, b1: Color, b2: Color) -> bool {
    &&& a1 != Color::Other && a2 != Color::Other && b1 != Color::Other && b2 != Color::Other
    &&& ((a1 == Color::Black) != (b2 == Color::Black))
    &&& ((a2 == Color::Black) != (b1 == Color::Black))
    &&& a1 == a2
}

/// Distance between two checking points and the edge they probe.
pub open spec fn check_offset() -> int {
    5
}

/// The two midway points between `p` and their midpoint, and `q` and their midpoint.
pub open spec fn midways(p: (usize, usize), q: (usize, usize)) -> (int, int, int, int) {
    let (x1, y1, x2, y2) = (p.0 as int, p.1 as int, q.0 as int, q.1 as int);
    let mx = (x1 + x2) / 2;
    let my = (y1 + y2) / 2;
    ((mx + x1) / 2, (my + y1) / 2, (mx + x2) / 2, (my + y2) / 2)
}

/// Distance between two integers.
pub open spec fn abs_diff(a: int, b: int) -> int {
    if a >= b {
        a - b
    } else {
        b - a
    }
}

/// The edge from `p` to `q` is vertical or closer to vertical than to horizontal.
pub open spec fn closer_to_vertical(p: (usize, usize), q: (usize, usize)) -> bool {
    p.0 == q.0 || abs_diff(p.0 as int, q.0 as int) < abs_diff(p.1 as int, q.1 as int)
}

/// The edge from `p` to `q` is horizontal or closer to horizontal than to vertical.
pub open spec fn closer_to_horizontal(p: (usize, usize), q: (usize, usize)) -> bool {
    p.1 == q.1 || abs_diff(p.1 as int, q.1 as int) < abs_diff(p.0 as int, q.0 as int)
}

/// The checks of the edge from `p` to `q` place no checking point below coordinate zero: the
/// checking points lie the check offset left of the midway points for a vertical check, and
/// above them for a horizontal one, and their coordinates are computed unsigned.
pub open spec fn checks_in_range(p: (usize, usize), q: (usize, usize)) -> bool {
    let (m1x, m1y, m2x, m2y) = midways(p, q);
    &&& closer_to_vertical(p, q) ==> m1x >= check_offset() && m2x >= check_offset()
    &&& closer_to_horizontal(p, q) ==> m1y >= check_offset() && m2y >= check_offset()
}

/// Checking every ordered pair of `pts` places no checking point below coordinate zero.
pub open spec fn edges_checkable(pts: Seq<(usize, usize)>) -> bool {
    forall|i: int, j: int|
        0 <= i < pts.len() && 0 <= j < pts.len() ==> #[trigger] checks_in_range(pts[i], pts[j])
}

/// The edge from `p` to `q` is closer to vertical and passes the left/right check.
pub open spec fn vertical_edge(buf: Seq<Color>, w: int, p: (usize, usize), q: (usize, usize)) -> bool {
    let (m1x, m1y, m2x, m2y) = midways(p, q);
    let d = check_offset();
    &&& closer_to_vertical(p, q)
    &&& edge_split(
        color_at(buf, w, m1x - d, m1y),
        color_at(buf, w, m2x - d, m2y),
        color_at(buf, w, m1x + d, m1y),
        color_at(buf, w, m2x + d, m2y),
    )
}

/// The edge from `p` to `q` is closer to horizontal and passes the top/bottom check.
pub open spec fn horizontal_edge(buf: Seq<Color>, w: int, p: (usize, usize), q: (usize, usize)) -> bool {
    let (m1x, m1y, m2x, m2y) = midways(p, q);
    let d = check_offset();
    &&& closer_to_horizontal(p, q)
    &&& edge_split(
        color_at(buf, w, m1x, m1y - d),
        color_at(buf, w, m2x, m2y - d),
        color_at(buf, w, m1x, m1y + d),
        color_at(buf, w, m2x, m2y + d),
    )
}

/// The lines that checking the edge from `p` to `q` records: the edge once if it passes the
/// vertical check, and once more if it passes the horizontal check.
pub open spec fn edge_lines(buf: Seq<Color>, w: int, p: (usize, usize), q: (usize, usize)) -> Seq<
    (usize, usize, usize, usize),
> {
    let line = (p.0, p.1, q.0, q.1);
    (if vertical_edge(buf, w, p, q) {
        seq![line]
    } else {
        seq![]
    }) + (if horizontal_edge(buf, w, p, q) {
        seq![line]
    } else {
        seq![]
    })
}

/// Checking the edge from `q` to `p` gives the same verdicts as from `p` to `q`.
pub proof fn lemma_edge_checks_symmetric(buf: Seq<Color>, w: int, p: (usize, usize), q: (usize, usize))
    ensures
        vertical_edge(buf, w, p, q) == vertical_edge(buf, w, q, p),
        horizontal_edge(buf, w, p, q) == horizontal_edge(buf, w, q, p),
        edge_lines(buf, w, p, q).len() == edge_lines(buf, w, q, p).len(),
{
    assert(midways(p, q) == {
        let m = midways(q, p);
        (m.2, m.3, m.0, m.1)
    });
}

/// Lines recorded while checking corner `i` against the last `k` corners, last first.
pub open spec fn edges_from(buf: Seq<Color>, w: int, pts: Seq<(usize, usize)>, i: int, k: int) -> Seq<
    (usize, usize, usize, usize),
>
    decreases k,
{
    if k <= 0 {
        seq![]
    } else {
        edges_from(buf, w, pts, i, k - 1) + edge_lines(buf, w, pts[i], pts[pts.len() - k])
    }
}

/// Lines recorded while checking the first `m` corners against every corner.
pub open spec fn edges_before(buf: Seq<Color>, w: int, pts: Seq<(usize, usize)>, m: int) -> Seq<
    (usize, usize, usize, usize),
>
    decreases m,
{
    if m <= 0 {
        seq![]
    } else {
        edges_before(buf, w, pts, m - 1) + edges_from(buf, w, pts, m - 1, pts.len() as int)
    }
}

/// Lines recorded by checking every ordered pair of corners.
pub open spec fn all_edges(buf: Seq<Color>, w: int, pts: Seq<(usize, usize)>) -> Seq<
    (usize, usize, usize, usize),
> {
    edges_before(buf, w, pts, pts.len() as int)
}

/// Every point lies inside a `w` by `h` frame.
pub open spec fn points_in_frame(pts: Seq<(usize, usize)>, w: int, h: int) -> bool {
    forall|k: int| 0 <= k < pts.len() ==> (#[trigger] pts[k]).0 < w && pts[k].1 < h
}

/// Ascending order on bytes.
pub open spec fn byte_leq() -> spec_fn(u8, u8) -> bool {
    |a: u8, b: u8| a <= b
}

proof fn lemma_byte_leq_total()
    ensures
        total_ordering(byte_leq()),
{
    assert(reflexive(byte_leq()));
    assert(antisymmetric(byte_leq()));
    assert(transitive(byte_leq()));
    assert(strongly_connected(byte_leq()));
}

/// The values of `v` in ascending order.
fn sort_bytes(v: &Vec<u8>) -> (s: Vec<u8>)
    ensures
        s@ == v@.sort_by(byte_leq()),
        s@.len() == v@.len(),
{
    broadcast use group_to_multiset_ensures;

    let n = v.len();
    let mut s: Vec<u8> = Vec::new();
    let mut i: usize = 0;
    while i < n
        invariant
            n == v.len(),
            i <= n,
            sorted_by(s@, byte_leq()),
            s@.to_multiset() == v@.take(i as int).to_multiset(),
        decreases n - i,
    {
        let e = v[i];
        let mut j: usize = 0;
        while j < s.len() && s[j] <= e
            invariant
                j <= s.len(),
                forall|k: int| 0 <= k < j ==> #[trigger] s@[k] <= e,
            decreases s.len() - j,
        {
            j = j + 1;
        }
        let ghost s_old = s@;
        s.insert(j, e);
        proof {
            assert forall|a: int, b: int| 0 <= a < b < s@.len() implies #[trigger] byte_leq()(
                s@[a],
                s@[b],
            ) by {
                if b < j {
                    assert(byte_leq()(s_old[a], s_old[b]));
                } else if b == j {
                    assert(s_old[a] <= e);
                } else if a == j {
                    assert(j < s_old.len());
                    assert(s_old[j as int] > e);
                    if b - 1 > j {
                        assert(byte_leq()(s_old[j as int], s_old[b - 1]));
                    }
                } else if a < j {
                    assert(byte_leq()(s_old[a], s_old[b - 1]));
                } else {
                    assert(byte_leq()(s_old[a - 1], s_old[b - 1]));
                }
            }
            assert(v@.take(i + 1) =~= v@.take(i as int).push(e));
            assert(s@ == s_old.insert(j as int, e));
            to_multiset_insert(s_old, j as int, e);
            to_multiset_build(v@.take(i as int), e);
            assert(v@.take(i + 1).to_multiset() == v@.take(i as int).to_multiset().insert(e));
        }
        i = i + 1;
    }
    proof {
        assert(v@.take(n as int) =~= v@);
        lemma_byte_leq_total();
        v@.lemma_sort_by_ensures(byte_leq());
        lemma_sorted_unique(s@, v@.sort_by(byte_leq()), byte_leq());
        to_multiset_len(s@);
        to_multiset_len(v@);
    }
    s
}

/// `v - 2`, or 0 below 2.
pub open spec fn minus_two_sat(v: int) -> int {
    if v >= 2 {
        v - 2
    } else {
        0
    }
}

/// The smaller of two integers.
pub open spec fn min_int(a: int, b: int) -> int {
    if a <= b {
        a
    } else {
        b
    }
}

/// Gray values of column `xx`, rows `y0 .. y0 + ny`.
pub open spec fn window_column(gray: Seq<u8>, w: int, xx: int, y0: int, ny: int) -> Seq<u8> {
    Seq::new(ny as nat, |j: int| gray[(y0 + j) * w + xx])
}

/// Gray values of the first `c` columns of a window, column by column.
pub open spec fn window_cols(gray: Seq<u8>, w: int, x0: int, y0: int, ny: int, c: int) -> Seq<u8>
    decreases c,
{
    if c <= 0 {
        seq![]
    } else {
        window_cols(gray, w, x0, y0, ny, c - 1) + window_column(gray, w, x0 + c - 1, y0, ny)
    }
}

/// The gray values of the window of up to five by five pixels around (`x`, `y`), clipped to
/// the frame, column by column.
pub open spec fn window(gray: Seq<u8>, w: int, h: int, x: int, y: int) -> Seq<u8> {
    let x0 = minus_two_sat(x);
    let x1 = min_int(x + 2, w - 1);
    let y0 = minus_two_sat(y);
    let y1 = min_int(y + 2, h - 1);
    window_cols(gray, w, x0, y0, y1 - y0 + 1, x1 - x0 + 1)
}

/// Twice the median of an ascending sequence: twice the middle value, or the sum of the two
/// middle values when the length is even.
pub open spec fn twice_median(s: Seq<u8>) -> int {
    let k = s.len() / 2;
    if s.len() % 2 != 0 {
        2 * s[k as int]
    } else {
        s[k - 1] + s[k as int]
    }
}

/// Adaptive threshold of the pixel (`x`, `y`) into black or white. A flat window (values
/// within 5 of each other, away from the top and left border) is black when its median is
/// below 110, halfway between the dark level 60 and the light level 160. Any other pixel is
/// white at or above the window's upper quartile `q.1`, black at or below its lower quartile
/// `q.0`, and in between takes the class of the nearer quartile (black on a tie only when
/// strictly nearer the lower one).
pub open spec fn otsu_class(gray: Seq<u8>, w: int, h: int, x: int, y: int, q: (u8, u8)) -> Color {
    let s = window(gray, w, h, x, y).sort_by(byte_leq());
    let n = s.len() as int;
    let p = gray[y * w + x];
    if y > 0 && x > 0 && s[n - 1] - s[0] < 5 {
        if twice_median(s) < 220 {
            Color::Black
        } else {
            Color::White
        }
    } else if p >= q.1 {
        Color::White
    } else if p <= q.0 {
        Color::Black
    } else if 2 * p < q.0 + q.1 {
        Color::Black
    } else {
        Color::White
    }
}

/// The adaptive threshold of the `w` by `h` gray frame with per-pixel quartiles `qs`.
pub open spec fn otsu_buf(gray: Seq<u8>, w: int, h: int, qs: Seq<(u8, u8)>) -> Seq<Color> {
    Seq::new((w * h) as nat, |i: int| otsu_class(gray, w, h, i % w, i / w, qs[i]))
}

/// Every pixel of `buf` is black or white.
pub open spec fn is_binary(buf: Seq<Color>) -> bool {
    forall|i: int| 0 <= i < buf.len() ==> #[trigger] buf[i] != Color::Other
}

/// `buf` is the adaptive threshold of the `w` by `h` gray frame with per-pixel quartiles `qs`.
pub open spec fn otsu_thresholded(
    buf: Seq<Color>,
    gray: Seq<u8>,
    w: int,
    h: int,
    qs: Seq<(u8, u8)>,
) -> bool {
    &&& buf.len() == w * h
    &&& forall|x: int, y: int|
        0 <= x < w && 0 <= y < h ==> #[trigger] buf[y * w + x] == otsu_class(
            gray,
            w,
            h,
            x,
            y,
            qs[y * w + x],
        )
}

/// An adaptively thresholded buffer is `otsu_buf` and holds only black and white pixels.
pub proof fn lemma_thresholded_binary(
    buf: Seq<Color>,
    gray: Seq<u8>,
    w: int,
    h: int,
    qs: Seq<(u8, u8)>,
)
    requires
        w >= 0,
        h >= 0,
        otsu_thresholded(buf, gray, w, h, qs),
    ensures
        is_binary(buf),
        buf == otsu_buf(gray, w, h, qs),
{
    assert forall|i: int| 0 <= i < buf.len() implies #[trigger] buf[i] != Color::Other && buf[i]
        == otsu_buf(gray, w, h, qs)[i] by {
        let x = i % w;
        let y = i / w;
        assert(w > 0) by (nonlinear_arith)
            requires
                0 <= i < w * h,
                h >= 0,
        ;
        assert(0 <= x < w && 0 <= y < h && y * w + x == i) by (nonlinear_arith)
            requires
                w > 0,
                0 <= i < w * h,
                x == i % w,
                y == i / w,
        ;
        assert(buf[y * w + x] == otsu_class(gray, w, h, x, y, qs[y * w + x]));
    }
    assert(buf =~= otsu_buf(gray, w, h, qs));
}

/// Fixed threshold of a gray value: below 60 is black, above 160 is white.
pub open spec fn fixed_class(g: u8) -> Color {
    if g < 60 {
        Color::Black
    } else if g > 160 {
        Color::White
    } else {
        Color::Other
    }
}

/// Rank of a class from dark to bright: black, then other, then white.
pub open spec fn brightness_rank(c: Color) -> int {
    match c {
        Color::Black => 0,
        Color::Other => 1,
        Color::White => 2,
    }
}

/// The fixed threshold never classifies a darker pixel brighter than a lighter one.
pub proof fn lemma_fixed_class_monotone(g1: u8, g2: u8)
    requires
        g1 <= g2,
    ensures
        brightness_rank(fixed_class(g1)) <= brightness_rank(fixed_class(g2)),
{
}

/// A pixel before (`x`, `y`) in row-major order has a smaller, nonnegative index.
pub proof fn lemma_row_major(xx: int, yy: int, x: int, y: int, w: int)
    by (nonlinear_arith)
    requires
        0 <= xx < w,
        0 <= yy,
        0 <= x,
        yy < y || (yy == y && xx < x),
    ensures
        yy * w + xx < y * w + x,
        0 <= yy * w + xx,
{
}

/// A pixel inside a `w` by `h` frame has an index inside its buffer.
pub proof fn lemma_in_frame(x: int, y: int, w: int, h: int)
    by (nonlinear_arith)
    requires
        0 <= x < w,
        0 <= y < h,
    ensures
        y * w + x < w * h,
        0 <= y * w + x,
{
}

proof fn lemma_window_cols_len(gray: Seq<u8>, w: int, x0: int, y0: int, ny: int, c: int)
    requires
        c >= 0,
        ny >= 0,
    ensures
        window_cols(gray, w, x0, y0, ny, c).len() == c * ny,
    decreases c,
{
    if c > 0 {
        lemma_window_cols_len(gray, w, x0, y0, ny, c - 1);
        assert(window_cols(gray, w, x0, y0, ny, c).len() == window_cols(
            gray,
            w,
            x0,
            y0,
            ny,
            c - 1,
        ).len() + ny);
        assert(c * ny == (c - 1) * ny + ny) by (nonlinear_arith);
    } else {
        assert(c * ny == 0) by (nonlinear_arith)
            requires
                c == 0,
        ;
    }
}

/// `i` and `j` are connected by the links in `edges`: the equivalence that merging along the
/// links one after another produces.
pub open spec fn joined(edges: Seq<(int, int)>, i: int, j: int) -> bool
    decreases edges.len(),
{
    if edges.len() == 0 {
        i == j
    } else {
        let e = edges.last();
        let rest = edges.drop_last();
        joined(rest, i, j) || (joined(rest, i, e.0) && joined(rest, j, e.1)) || (joined(
            rest,
            i,
            e.1,
        ) && joined(rest, j, e.0))
    }
}

/// The link from `a` to `b` when `cond` holds, else no link.
pub open spec fn link_if(cond: bool, a: int, b: int) -> Seq<(int, int)> {
    if cond {
        seq![(a, b)]
    } else {
        seq![]
    }
}

/// The links that connected-component labelling makes at pixel (`x`, `y`): a black or white
/// pixel joins its left and top neighbours of the same color, and a white pixel also its
/// top-left and top-right neighbours.
pub open spec fn pixel_links(buf: Seq<Color>, w: int, x: int, y: int) -> Seq<(int, int)> {
    let i = y * w + x;
    let p = buf[i];
    if p == Color::Other {
        seq![]
    } else {
        let left = y * w + (x - 1);
        let top = (y - 1) * w + x;
        let top_left = (y - 1) * w + (x - 1);
        let top_right = (y - 1) * w + (x + 1);
        link_if(x > 0 && buf[left] == p, i, left) + link_if(y > 0 && buf[top] == p, i, top)
            + link_if(y > 0 && p == Color::White && x > 0 && buf[top_left] == p, i, top_left)
            + link_if(y > 0 && p == Color::White && x < w - 1 && buf[top_right] == p, i, top_right)
    }
}

/// Links of row `y` for the columns `1 <= x < x_end`.
pub open spec fn row_links(buf: Seq<Color>, w: int, y: int, x_end: int) -> Seq<(int, int)>
    decreases x_end - 1,
{
    if x_end <= 1 {
        seq![]
    } else {
        row_links(buf, w, y, x_end - 1) + pixel_links(buf, w, x_end - 1, y)
    }
}

/// Links of the rows `0 <= y < y_end`, each over the columns `1 <= x < w - 1`.
pub open spec fn rows_links(buf: Seq<Color>, w: int, y_end: int) -> Seq<(int, int)>
    decreases y_end,
{
    if y_end <= 0 {
        seq![]
    } else {
        rows_links(buf, w, y_end - 1) + row_links(buf, w, y_end - 1, w - 1)
    }
}

/// All links of a `w` by `h` thresholded frame, in scan order.
pub open spec fn component_links(buf: Seq<Color>, w: int, h: int) -> Seq<(int, int)> {
    rows_links(buf, w, h)
}

/// A checked line is drawn when both of its ends lie in the frame and in one connected
/// component of the thresholded buffer.
pub open spec fn line_shown(buf: Seq<Color>, w: int, h: int, l: (usize, usize, usize, usize)) -> bool {
    &&& l.0 < w && l.1 < h && l.2 < w && l.3 < h
    &&& joined(component_links(buf, w, h), l.1 * w + l.0, l.3 * w + l.2)
}

/// On a flat window (every value `v`) away from the top and left border, the adaptive
/// threshold is black exactly when `v` is below 110, whatever the quartiles; so it agrees with
/// the fixed threshold wherever that one is black or white.
pub proof fn lemma_flat_window_fixed(
    gray: Seq<u8>,
    w: int,
    h: int,
    x: int,
    y: int,
    q: (u8, u8),
    v: u8,
)
    requires
        0 < x < w,
        0 < y < h,
        forall|k: int|
            0 <= k < window(gray, w, h, x, y).len() ==> #[trigger] window(gray, w, h, x, y)[k] == v,
    ensures
        otsu_class(gray, w, h, x, y, q) == if v < 110 {
            Color::Black
        } else {
            Color::White
        },
        fixed_class(v) != Color::Other ==> otsu_class(gray, w, h, x, y, q) == fixed_class(v),
{
    let win = window(gray, w, h, x, y);
    let x0 = minus_two_sat(x);
    let x1 = min_int(x + 2, w - 1);
    let y0 = minus_two_sat(y);
    let y1 = min_int(y + 2, h - 1);
    lemma_window_cols_len(gray, w, x0, y0, y1 - y0 + 1, x1 - x0 + 1);
    assert((x1 - x0 + 1) * (y1 - y0 + 1) >= 1) by (nonlinear_arith)
        requires
            x1 - x0 + 1 >= 1,
            y1 - y0 + 1 >= 1,
    ;
    lemma_byte_leq_total();
    win.lemma_sort_by_ensures(byte_leq());
    assert(sorted_by(win, byte_leq()));
    lemma_sorted_unique(win, win.sort_by(byte_leq()), byte_leq());
    let s = win.sort_by(byte_leq());
    assert(s == win);
    let n = s.len() as int;
    assert(s[0] == v);
    assert(s[n - 1] == v);
    assert(s[n / 2] == v);
    if n % 2 == 0 {
        assert(s[n / 2 - 1] == v);
    }
}

/// Every element is connected to itself.
pub proof fn lemma_joined_reflexive(edges: Seq<(int, int)>, i: int)
    ensures
        joined(edges, i, i),
    decreases edges.len(),
{
    if edges.len() > 0 {
        lemma_joined_reflexive(edges.drop_last(), i);
    }
}

/// Connection does not depend on the direction.
pub proof fn lemma_joined_symmetric(edges: Seq<(int, int)>, i: int, j: int)
    ensures
        joined(edges, i, j) == joined(edges, j, i),
    decreases edges.len(),
{
    if edges.len() > 0 {
        let rest = edges.drop_last();
        let e = edges.last();
        lemma_joined_symmetric(rest, i, j);
        lemma_joined_symmetric(rest, i, e.0);
        lemma_joined_symmetric(rest, j, e.0);
        lemma_joined_symmetric(rest, i, e.1);
        lemma_joined_symmetric(rest, j, e.1);
    }
}

/// Connections chain.
pub proof fn lemma_joined_transitive(edges: Seq<(int, int)>, i: int, j: int, k: int)
    requires
        joined(edges, i, j),
        joined(edges, j, k),
    ensures
        joined(edges, i, k),
    decreases edges.len(),
{
    if edges.len() > 0 {
        let rest = edges.drop_last();
        let (a, b) = edges.last();
        // every connection is a chain through at most one use of the last link
        lemma_joined_symmetric(rest, i, j);
        lemma_joined_symmetric(rest, j, k);
        lemma_joined_symmetric(rest, i, a);
        lemma_joined_symmetric(rest, i, b);
        lemma_joined_symmetric(rest, j, a);
        lemma_joined_symmetric(rest, j, b);
        lemma_joined_symmetric(rest, k, a);
        lemma_joined_symmetric(rest, k, b);
        lemma_joined_symmetric(rest, a, b);
        if joined(rest, i, j) {
            if joined(rest, j, k) {
                lemma_joined_transitive(rest, i, j, k);
            } else if joined(rest, j, a) && joined(rest, k, b) {
                lemma_joined_transitive(rest, i, j, a);
            } else {
                lemma_joined_transitive(rest, i, j, b);
            }
        } else if joined(rest, i, a) && joined(rest, j, b) {
            if joined(rest, j, k) {
                lemma_joined_transitive(rest, b, j, k);
            } else if joined(rest, j, a) && joined(rest, k, b) {
                lemma_joined_transitive(rest, i, a, j);
                lemma_joined_transitive(rest, i, j, k);
            } else {
                lemma_joined_transitive(rest, i, a, k);
            }
        } else {
            if joined(rest, j, k) {
                lemma_joined_transitive(rest, a, j, k);
            } else if joined(rest, j, a) && joined(rest, k, b) {
                lemma_joined_transitive(rest, i, b, k);
            } else {
                lemma_joined_transitive(rest, i, b, j);
                lemma_joined_transitive(rest, i, j, k);
            }
        }
    }
}

/// A link of a sequence connects its two ends.
proof fn lemma_link_joined(edges: Seq<(int, int)>, k: int)
    requires
        0 <= k < edges.len(),
    ensures
        joined(edges, edges[k].0, edges[k].1),
    decreases edges.len(),
{
    let e = edges.last();
    let rest = edges.drop_last();
    if k == edges.len() - 1 {
        lemma_joined_reflexive(rest, e.0);
        lemma_joined_reflexive(rest, e.1);
    } else {
        assert(rest[k] == edges[k]);
        lemma_link_joined(rest, k);
    }
}

/// A pixel's links are among the links of its row.
proof fn lemma_row_links_has(buf: Seq<Color>, w: int, y: int, x_end: int, x: int)
    requires
        1 <= x < x_end,
    ensures
        forall|e: (int, int)| #[trigger] pixel_links(buf, w, x, y).contains(e) ==> row_links(
            buf,
            w,
            y,
            x_end,
        ).contains(e),
    decreases x_end,
{
    let a = row_links(buf, w, y, x_end - 1);
    let b = pixel_links(buf, w, x_end - 1, y);
    assert(row_links(buf, w, y, x_end) == a + b);
    if x < x_end - 1 {
        lemma_row_links_has(buf, w, y, x_end - 1, x);
        assert forall|e: (int, int)| #[trigger] pixel_links(buf, w, x, y).contains(e) implies (a
            + b).contains(e) by {
            let k = choose|k: int| 0 <= k < a.len() && a[k] == e;
            assert((a + b)[k] == e);
        }
    } else {
        assert forall|e: (int, int)| #[trigger] pixel_links(buf, w, x, y).contains(e) implies (a
            + b).contains(e) by {
            let k = choose|k: int| 0 <= k < b.len() && b[k] == e;
            assert((a + b)[a.len() + k] == e);
        }
    }
}

/// A row's links are among the links of the frame.
proof fn lemma_rows_links_has(buf: Seq<Color>, w: int, y_end: int, y: int)
    requires
        0 <= y < y_end,
    ensures
        forall|e: (int, int)| #[trigger] row_links(buf, w, y, w - 1).contains(e) ==> rows_links(
            buf,
            w,
            y_end,
        ).contains(e),
    decreases y_end,
{
    let a = rows_links(buf, w, y_end - 1);
    let b = row_links(buf, w, y_end - 1, w - 1);
    assert(rows_links(buf, w, y_end) == a + b);
    if y < y_end - 1 {
        lemma_rows_links_has(buf, w, y_end - 1, y);
        assert forall|e: (int, int)| #[trigger] row_links(buf, w, y, w - 1).contains(e) implies (a
            + b).contains(e) by {
            let k = choose|k: int| 0 <= k < a.len() && a[k] == e;
            assert((a + b)[k] == e);
        }
    } else {
        assert forall|e: (int, int)| #[trigger] row_links(buf, w, y, w - 1).contains(e) implies (a
            + b).contains(e) by {
            let k = choose|k: int| 0 <= k < b.len() && b[k] == e;
            assert((a + b)[a.len() + k] == e);
        }
    }
}

/// Labelling links each scanned pixel (columns `1 <= x < w - 1`) to its left and top
/// neighbours of the same class, and a white pixel also to its top-left and top-right white
/// neighbours.
pub proof fn lemma_neighbour_links(buf: Seq<Color>, w: int, h: int, x: int, y: int)
    requires
        1 <= x < w - 1,
        0 <= y < h,
    ensures
        ({
            let i = px_spec(x, y, w);
            let links = component_links(buf, w, h);
            &&& buf[i] != Color::Other && buf[px_spec(x - 1, y, w)] == buf[i] ==> links.contains(
                (i, px_spec(x - 1, y, w)),
            )
            &&& y >= 1 && buf[i] != Color::Other && buf[px_spec(x, y - 1, w)] == buf[i]
                ==> links.contains((i, px_spec(x, y - 1, w)))
            &&& y >= 1 && buf[i] == Color::White && buf[px_spec(x - 1, y - 1, w)] == Color::White
                ==> links.contains((i, px_spec(x - 1, y - 1, w)))
            &&& y >= 1 && buf[i] == Color::White && buf[px_spec(x + 1, y - 1, w)] == Color::White
                ==> links.contains((i, px_spec(x + 1, y - 1, w)))
        }),
{
    let i = y * w + x;
    let p = buf[i];
    let left = y * w + (x - 1);
    let top = (y - 1) * w + x;
    let tl = (y - 1) * w + (x - 1);
    let tr = (y - 1) * w + (x + 1);
    let la = link_if(x > 0 && buf[left] == p, i, left);
    let lb = link_if(y > 0 && buf[top] == p, i, top);
    let lc = link_if(y > 0 && p == Color::White && x > 0 && buf[tl] == p, i, tl);
    let ld = link_if(y > 0 && p == Color::White && x < w - 1 && buf[tr] == p, i, tr);
    let pl = pixel_links(buf, w, x, y);
    lemma_row_links_has(buf, w, y, w - 1, x);
    lemma_rows_links_has(buf, w, h, y);
    let links = component_links(buf, w, h);
    assert(i == px_spec(x, y, w));
    assert(left == px_spec(x - 1, y, w));
    assert(top == px_spec(x, y - 1, w));
    assert(tl == px_spec(x - 1, y - 1, w));
    assert(tr == px_spec(x + 1, y - 1, w));
    if p != Color::Other {
        let s = la + lb + lc + ld;
        assert(pl == s);
        if buf[left] == p {
            assert(la.len() == 1);
            assert(s[0] == (i, left));
            assert(pl.contains((i, left)));
            assert(row_links(buf, w, y, w - 1).contains((i, left)));
            assert(links.contains((i, left)));
        }
        if y >= 1 && buf[top] == p {
            assert(lb.len() == 1);
            assert(s[la.len() as int] == (i, top));
            assert(pl.contains((i, top)));
            assert(row_links(buf, w, y, w - 1).contains((i, top)));
            assert(links.contains((i, top)));
        }
        if y >= 1 && p == Color::White && buf[tl] == Color::White {
            assert(lc.len() == 1);
            assert(s[(la.len() + lb.len()) as int] == (i, tl));
            assert(pl.contains((i, tl)));
            assert(row_links(buf, w, y, w - 1).contains((i, tl)));
            assert(links.contains((i, tl)));
        }
        if y >= 1 && p == Color::White && buf[tr] == Color::White {
            assert(ld.len() == 1);
            assert(s[(la.len() + lb.len() + lc.len()) as int] == (i, tr));
            assert(pl.contains((i, tr)));
            assert(row_links(buf, w, y, w - 1).contains((i, tr)));
            assert(links.contains((i, tr)));
        }
    }
}

/// Every link of a scanned pixel joins two pixels of the frame of one class, black or white.
proof fn lemma_pixel_links_same_class(buf: Seq<Color>, w: int, h: int, x: int, y: int)
    requires
        buf.len() == w * h,
        1 <= x < w - 1,
        0 <= y < h,
    ensures
        forall|k: int|
            0 <= k < pixel_links(buf, w, x, y).len() ==> {
                let e = #[trigger] pixel_links(buf, w, x, y)[k];
                &&& 0 <= e.0 < buf.len() && 0 <= e.1 < buf.len()
                &&& buf[e.0] == buf[e.1] && buf[e.0] != Color::Other
            },
{
    lemma_in_frame(x, y, w, h);
    lemma_in_frame(x - 1, y, w, h);
    if y > 0 {
        lemma_in_frame(x, y - 1, w, h);
        lemma_in_frame(x - 1, y - 1, w, h);
        lemma_in_frame(x + 1, y - 1, w, h);
    }
    let i = y * w + x;
    let p = buf[i];
    let left = y * w + (x - 1);
    let top = (y - 1) * w + x;
    let tl = (y - 1) * w + (x - 1);
    let tr = (y - 1) * w + (x + 1);
    let la = link_if(x > 0 && buf[left] == p, i, left);
    let lb = link_if(y > 0 && buf[top] == p, i, top);
    let lc = link_if(y > 0 && p == Color::White && x > 0 && buf[tl] == p, i, tl);
    let ld = link_if(y > 0 && p == Color::White && x < w - 1 && buf[tr] == p, i, tr);
    if p != Color::Other {
        let pl = la + lb + lc + ld;
        assert(pixel_links(buf, w, x, y) == pl);
        assert forall|k: int| 0 <= k < pl.len() implies {
            let e = #[trigger] pl[k];
            &&& 0 <= e.0 < buf.len() && 0 <= e.1 < buf.len()
            &&& buf[e.0] == buf[e.1] && buf[e.0] != Color::Other
        } by {
            if k < la.len() {
                assert(pl[k] == la[k]);
            } else if k < la.len() + lb.len() {
                assert(pl[k] == lb[k - la.len()]);
            } else if k < la.len() + lb.len() + lc.len() {
                assert(pl[k] == lc[k - la.len() - lb.len()]);
            } else {
                assert(pl[k] == ld[k - la.len() - lb.len() - lc.len()]);
            }
        }
    } else {
        assert(pixel_links(buf, w, x, y).len() == 0);
    }
}

/// Links join two pixels of the frame of one class, black or white.
pub open spec fn links_same_class(buf: Seq<Color>, edges: Seq<(int, int)>) -> bool {
    forall|k: int|
        0 <= k < edges.len() ==> {
            let e = #[trigger] edges[k];
            &&& 0 <= e.0 < buf.len() && 0 <= e.1 < buf.len()
            &&& buf[e.0] == buf[e.1] && buf[e.0] != Color::Other
        }
}

proof fn lemma_row_links_same_class(buf: Seq<Color>, w: int, h: int, y: int, x_end: int)
    requires
        buf.len() == w * h,
        0 <= y < h,
        x_end <= w - 1,
    ensures
        links_same_class(buf, row_links(buf, w, y, x_end)),
    decreases x_end,
{
    if x_end > 1 {
        lemma_row_links_same_class(buf, w, h, y, x_end - 1);
        lemma_pixel_links_same_class(buf, w, h, x_end - 1, y);
        let a = row_links(buf, w, y, x_end - 1);
        let b = pixel_links(buf, w, x_end - 1, y);
        assert forall|k: int| 0 <= k < (a + b).len() implies {
            let e = #[trigger] (a + b)[k];
            &&& 0 <= e.0 < buf.len() && 0 <= e.1 < buf.len()
            &&& buf[e.0] == buf[e.1] && buf[e.0] != Color::Other
        } by {
            if k < a.len() {
                assert((a + b)[k] == a[k]);
            } else {
                assert((a + b)[k] == b[k - a.len()]);
            }
        }
        assert(row_links(buf, w, y, x_end) == a + b);
    }
}

proof fn lemma_rows_links_same_class(buf: Seq<Color>, w: int, h: int, y_end: int)
    requires
        buf.len() == w * h,
        y_end <= h,
    ensures
        links_same_class(buf, rows_links(buf, w, y_end)),
    decreases y_end,
{
    if y_end > 0 {
        lemma_rows_links_same_class(buf, w, h, y_end - 1);
        lemma_row_links_same_class(buf, w, h, y_end - 1, w - 1);
        let a = rows_links(buf, w, y_end - 1);
        let b = row_links(buf, w, y_end - 1, w - 1);
        assert forall|k: int| 0 <= k < (a + b).len() implies {
            let e = #[trigger] (a + b)[k];
            &&& 0 <= e.0 < buf.len() && 0 <= e.1 < buf.len()
            &&& buf[e.0] == buf[e.1] && buf[e.0] != Color::Other
        } by {
            if k < a.len() {
                assert((a + b)[k] == a[k]);
            } else {
                assert((a + b)[k] == b[k - a.len()]);
            }
        }
        assert(rows_links(buf, w, y_end) == a + b);
    }
}

/// Links that each join two pixels of one class connect only pixels of one class.
proof fn lemma_joined_same_class(buf: Seq<Color>, edges: Seq<(int, int)>, i: int, j: int)
    requires
        links_same_class(buf, edges),
        joined(edges, i, j),
    ensures
        i == j || (0 <= i < buf.len() && 0 <= j < buf.len() && buf[i] == buf[j] && buf[i]
            != Color::Other),
    decreases edges.len(),
{
    if edges.len() > 0 {
        let e = edges.last();
        let rest = edges.drop_last();
        assert(links_same_class(buf, rest)) by {
            assert forall|k: int| 0 <= k < rest.len() implies {
                let f = #[trigger] rest[k];
                &&& 0 <= f.0 < buf.len() && 0 <= f.1 < buf.len()
                &&& buf[f.0] == buf[f.1] && buf[f.0] != Color::Other
            } by {
                assert(rest[k] == edges[k]);
            }
        }
        assert(edges[edges.len() - 1] == e);
        if joined(rest, i, j) {
            lemma_joined_same_class(buf, rest, i, j);
        } else if joined(rest, i, e.0) && joined(rest, j, e.1) {
            lemma_joined_same_class(buf, rest, i, e.0);
            lemma_joined_same_class(buf, rest, j, e.1);
        } else {
            lemma_joined_same_class(buf, rest, i, e.1);
            lemma_joined_same_class(buf, rest, j, e.0);
        }
    }
}

/// `uf` joins every scanned pixel (columns `1 <= x < w - 1`) of a `w` by `h` frame with its
/// left and top neighbours of the same class, black or white, and a white pixel also with its
/// white top-left and top-right neighbours.
#[verifier::opaque]
pub open spec fn joins_neighbours(uf: UnionFind, buf: Seq<Color>, w: int, h: int) -> bool {
    forall|x: int, y: int|
        1 <= x < w - 1 && 0 <= y < h ==> #[trigger] neighbours_joined(uf, buf, w, x, y)
}

/// `uf` joins pixel (`x`, `y`) with its left and top neighbours of its class, black or white,
/// and a white pixel also with its white top-left and top-right neighbours.
pub open spec fn neighbours_joined(uf: UnionFind, buf: Seq<Color>, w: int, x: int, y: int) -> bool {
            let i = px_spec(x, y, w);
            &&& buf[i] != Color::Other && buf[px_spec(x - 1, y, w)] == buf[i] ==> uf.same_set(
                i,
                px_spec(x - 1, y, w),
            )
            &&& y >= 1 && buf[i] != Color::Other && buf[px_spec(x, y - 1, w)] == buf[i]
                ==> uf.same_set(i, px_spec(x, y - 1, w))
            &&& y >= 1 && buf[i] == Color::White && buf[px_spec(x - 1, y - 1, w)] == Color::White
                ==> uf.same_set(i, px_spec(x - 1, y - 1, w))
            &&& y >= 1 && buf[i] == Color::White && buf[px_spec(x + 1, y - 1, w)] == Color::White
                ==> uf.same_set(i, px_spec(x + 1, y - 1, w))
}

/// Each set of `uf` over the `n` pixels holds a single pixel, or pixels of one class, black
/// or white.
#[verifier::opaque]
pub open spec fn joins_only_like(uf: UnionFind, buf: Seq<Color>, n: int) -> bool {
    forall|i: int, j: int|
        0 <= i < n && 0 <= j < n && #[trigger] uf.same_set(i, j) ==> i == j || (buf[i] == buf[j]
            && buf[i] != Color::Other)
}

/// Labelling joins neighbours: a partition along the links of a thresholded frame puts each
/// scanned pixel in one set with its left and top neighbours of its class, and a white pixel
/// with its white top-left and top-right neighbours too (8-connectivity upwards for white);
/// and it never joins two pixels of different classes, nor a pixel that is neither black nor
/// white with any other.
pub proof fn lemma_components_join_neighbours(uf: UnionFind, buf: Seq<Color>, w: int, h: int)
    requires
        buf.len() == w * h,
        partition_matches(uf, w * h, component_links(buf, w, h)),
    ensures
        joins_neighbours(uf, buf, w, h),
        joins_only_like(uf, buf, w * h),
{
    lemma_components_only_like(uf, buf, w, h);
    reveal(joins_neighbours);
    assert forall|x: int, y: int| 1 <= x < w - 1 && 0 <= y < h implies #[trigger] neighbours_joined(
        uf,
        buf,
        w,
        x,
        y,
    ) by {
        lemma_pixel_joins(uf, buf, w, h, x, y);
    }
}

/// A partition along the frame's links joins only pixels of one class.
proof fn lemma_components_only_like(uf: UnionFind, buf: Seq<Color>, w: int, h: int)
    requires
        buf.len() == w * h,
        partition_matches(uf, w * h, component_links(buf, w, h)),
    ensures
        joins_only_like(uf, buf, w * h),
{
    reveal(joins_only_like);
    let links = component_links(buf, w, h);
    lemma_rows_links_same_class(buf, w, h, h);
    assert forall|i: int, j: int|
        0 <= i < w * h && 0 <= j < w * h && #[trigger] uf.same_set(i, j) implies i == j || (
    buf[i] == buf[j] && buf[i] != Color::Other) by {
        lemma_joined_same_class(buf, links, i, j);
    }
}

/// A pair linked in the frame's links shares a set of a partition along them.
proof fn lemma_linked_same_set(uf: UnionFind, n: int, links: Seq<(int, int)>, a: int, b: int)
    requires
        partition_matches(uf, n, links),
        links.contains((a, b)),
        0 <= a < n,
        0 <= b < n,
    ensures
        uf.same_set(a, b),
{
    let k = choose|k: int| 0 <= k < links.len() && links[k] == (a, b);
    lemma_link_joined(links, k);
}

/// One scanned pixel shares a set with each neighbour that labelling links it to.
proof fn lemma_pixel_joins(uf: UnionFind, buf: Seq<Color>, w: int, h: int, x: int, y: int)
    requires
        partition_matches(uf, w * h, component_links(buf, w, h)),
        1 <= x < w - 1,
        0 <= y < h,
    ensures
        neighbours_joined(uf, buf, w, x, y),
{
    let links = component_links(buf, w, h);
    let n = w * h;
    let i = px_spec(x, y, w);
    lemma_neighbour_links(buf, w, h, x, y);
    lemma_in_frame(x, y, w, h);
    lemma_in_frame(x - 1, y, w, h);
    if buf[i] != Color::Other && buf[px_spec(x - 1, y, w)] == buf[i] {
        lemma_linked_same_set(uf, n, links, i, px_spec(x - 1, y, w));
    }
    if y >= 1 {
        lemma_in_frame(x, y - 1, w, h);
        lemma_in_frame(x - 1, y - 1, w, h);
        lemma_in_frame(x + 1, y - 1, w, h);
        if buf[i] != Color::Other && buf[px_spec(x, y - 1, w)] == buf[i] {
            lemma_linked_same_set(uf, n, links, i, px_spec(x, y - 1, w));
        }
        if buf[i] == Color::White && buf[px_spec(x - 1, y - 1, w)] == Color::White {
            lemma_linked_same_set(uf, n, links, i, px_spec(x - 1, y - 1, w));
        }
        if buf[i] == Color::White && buf[px_spec(x + 1, y - 1, w)] == Color::White {
            lemma_linked_same_set(uf, n, links, i, px_spec(x + 1, y - 1, w));
        }
    }
}

/// `uf` partitions `0..n` exactly as the links `edges` connect them.
pub open spec fn partition_matches(uf: UnionFind, n: int, edges: Seq<(int, int)>) -> bool {
    &&& uf.wf()
    &&& uf.size_spec() == n
    &&& forall|i: int, j: int|
        0 <= i < n && 0 <= j < n ==> (#[trigger] uf.same_set(i, j) <==> joined(edges, i, j))
}

/// Merge along one more link.
fn union_link(uf: &mut UnionFind, a: usize, b: usize, Ghost(edges): Ghost<Seq<(int, int)>>)
    requires
        partition_matches(*old(uf), old(uf).size_spec() as int, edges),
        a < old(uf).size_spec(),
        b < old(uf).size_spec(),
    ensures
        partition_matches(*final(uf), old(uf).size_spec() as int, edges.push((a as int, b as int))),
{
    let ghost n = uf.size_spec() as int;
    uf.union(a, b);
    proof {
        let e2 = edges.push((a as int, b as int));
        assert(e2.drop_last() =~= edges);
        assert(e2.last() == (a as int, b as int));
        assert forall|i: int, j: int| 0 <= i < n && 0 <= j < n implies (#[trigger] uf.same_set(i, j)
            <==> joined(e2, i, j)) by {
            assert(old(uf).same_set(i, j) <==> joined(edges, i, j));
            assert(old(uf).same_set(i, a as int) <==> joined(edges, i, a as int));
            assert(old(uf).same_set(j, b as int) <==> joined(edges, j, b as int));
            assert(old(uf).same_set(i, b as int) <==> joined(edges, i, b as int));
            assert(old(uf).same_set(j, a as int) <==> joined(edges, j, a as int));
        }
    }
}

proof fn lemma_edge_lines_endpoints(
    buf: Seq<Color>,
    w: int,
    p: (usize, usize),
    q: (usize, usize),
)
    ensures
        forall|k: int|
            0 <= k < edge_lines(buf, w, p, q).len() ==> #[trigger] edge_lines(buf, w, p, q)[k] == (
                p.0,
                p.1,
                q.0,
                q.1,
            ),
{
}

proof fn lemma_edges_from_endpoints(
    buf: Seq<Color>,
    w: int,
    pts: Seq<(usize, usize)>,
    i: int,
    k: int,
)
    requires
        0 <= i < pts.len(),
        k <= pts.len(),
    ensures
        forall|m: int|
            0 <= m < edges_from(buf, w, pts, i, k).len() ==> pts.contains(
                ((#[trigger] edges_from(buf, w, pts, i, k)[m]).0, edges_from(buf, w, pts, i, k)[m].1),
            ) && pts.contains((edges_from(buf, w, pts, i, k)[m].2, edges_from(buf, w, pts, i, k)[m].3)),
    decreases k,
{
    if k > 0 {
        lemma_edges_from_endpoints(buf, w, pts, i, k - 1);
        let a = edges_from(buf, w, pts, i, k - 1);
        let q = pts[pts.len() - k];
        let b = edge_lines(buf, w, pts[i], q);
        lemma_edge_lines_endpoints(buf, w, pts[i], q);
        assert(pts.contains(pts[i]));
        assert(pts.contains(q));
        assert forall|m: int| 0 <= m < (a + b).len() implies pts.contains(
            ((#[trigger] (a + b)[m]).0, (a + b)[m].1),
        ) && pts.contains(((a + b)[m].2, (a + b)[m].3)) by {
            if m >= a.len() {
                assert((a + b)[m] == b[m - a.len()]);
                assert(((a + b)[m].0, (a + b)[m].1) == pts[i]);
                assert(((a + b)[m].2, (a + b)[m].3) == q);
            } else {
                assert((a + b)[m] == a[m]);
            }
        }
        assert(edges_from(buf, w, pts, i, k) == a + b);
    }
}

proof fn lemma_edges_before_endpoints(buf: Seq<Color>, w: int, pts: Seq<(usize, usize)>, m: int)
    requires
        m <= pts.len(),
    ensures
        forall|k: int|
            0 <= k < edges_before(buf, w, pts, m).len() ==> pts.contains(
                ((#[trigger] edges_before(buf, w, pts, m)[k]).0, edges_before(buf, w, pts, m)[k].1),
            ) && pts.contains((edges_before(buf, w, pts, m)[k].2, edges_before(buf, w, pts, m)[k].3)),
    decreases m,
{
    if m > 0 {
        lemma_edges_before_endpoints(buf, w, pts, m - 1);
        lemma_edges_from_endpoints(buf, w, pts, m - 1, pts.len() as int);
        let a = edges_before(buf, w, pts, m - 1);
        let b = edges_from(buf, w, pts, m - 1, pts.len() as int);
        assert forall|k: int| 0 <= k < (a + b).len() implies pts.contains(
            ((#[trigger] (a + b)[k]).0, (a + b)[k].1),
        ) && pts.contains(((a + b)[k].2, (a + b)[k].3)) by {
            if k >= a.len() {
                assert((a + b)[k] == b[k - a.len()]);
            } else {
                assert((a + b)[k] == a[k]);
            }
        }
        assert(edges_before(buf, w, pts, m) == a + b);
    }
}

/// Every line recorded by the edge checks runs from one detected corner to another.
pub proof fn lemma_lines_join_corners(buf: Seq<Color>, w: int, pts: Seq<(usize, usize)>)
    ensures
        forall|k: int|
            0 <= k < all_edges(buf, w, pts).len() ==> pts.contains(
                ((#[trigger] all_edges(buf, w, pts)[k]).0, all_edges(buf, w, pts)[k].1),
            ) && pts.contains((all_edges(buf, w, pts)[k].2, all_edges(buf, w, pts)[k].3)),
{
    lemma_edges_before_endpoints(buf, w, pts, pts.len() as int);
}

proof fn lemma_corner_column_bounds(corner: spec_fn(int, int) -> bool, x: int, y_end: int)
    requires
        0 <= x <= usize::MAX,
        y_end <= usize::MAX + 1,
    ensures
        forall|k: int|
            0 <= k < corner_column(corner, x, y_end).len() ==> (#[trigger] corner_column(
                corner,
                x,
                y_end,
            )[k]).0 == x && 3 <= corner_column(corner, x, y_end)[k].1 < y_end,
    decreases y_end - 3,
{
    if y_end > 3 {
        lemma_corner_column_bounds(corner, x, y_end - 1);
        let prev = corner_column(corner, x, y_end - 1);
        if corner(x, y_end - 1) {
            assert forall|k: int| 0 <= k < prev.len() + 1 implies (#[trigger] prev.push(
                (x as usize, (y_end - 1) as usize),
            )[k]).0 == x && 3 <= prev.push((x as usize, (y_end - 1) as usize))[k].1 < y_end by {
                if k < prev.len() {
                    assert(prev.push((x as usize, (y_end - 1) as usize))[k] == prev[k]);
                }
            }
        }
    }
}

/// The corners of the columns before `x_end` lie in those columns, each with `3 <= y <= y_last`.
pub proof fn lemma_corners_before_bounds(corner: spec_fn(int, int) -> bool, x_end: int, y_last: int)
    requires
        x_end <= usize::MAX + 1,
        y_last <= usize::MAX,
    ensures
        forall|k: int|
            0 <= k < corners_before(corner, x_end, y_last).len() ==> 3 <= (#[trigger] corners_before(
                corner,
                x_end,
                y_last,
            )[k]).0 < x_end && 3 <= corners_before(corner, x_end, y_last)[k].1 <= y_last,
    decreases x_end - 3,
{
    if x_end > 3 {
        lemma_corners_before_bounds(corner, x_end - 1, y_last);
        lemma_corner_column_bounds(corner, x_end - 1, y_last + 1);
        let a = corners_before(corner, x_end - 1, y_last);
        let b = corner_column(corner, x_end - 1, y_last + 1);
        assert forall|k: int| 0 <= k < (a + b).len() implies 3 <= (#[trigger] (a + b)[k]).0 < x_end
            && 3 <= (a + b)[k].1 <= y_last by {
            if k >= a.len() {
                assert((a + b)[k] == b[k - a.len()]);
            }
        }
    }
}

/// Every corner of a scan lies inside the 3-pixel padding of the frame, so inside the frame.
pub proof fn lemma_corner_scan_in_frame(corner: spec_fn(int, int) -> bool, w: int, h: int)
    requires
        0 <= w <= usize::MAX,
        0 <= h <= usize::MAX,
    ensures
        points_in_padding(corner_scan(corner, w, h), w, h),
        points_in_frame(corner_scan(corner, w, h), w, h),
{
    lemma_corners_before_bounds(corner, w - 3, h - 4);
}

proof fn lemma_corner_column_sound(corner: spec_fn(int, int) -> bool, x: int, y_end: int)
    requires
        0 <= x <= usize::MAX,
        y_end <= usize::MAX + 1,
    ensures
        forall|k: int|
            0 <= k < corner_column(corner, x, y_end).len() ==> corner(
                (#[trigger] corner_column(corner, x, y_end)[k]).0 as int,
                corner_column(corner, x, y_end)[k].1 as int,
            ),
    decreases y_end - 3,
{
    if y_end > 3 {
        lemma_corner_column_sound(corner, x, y_end - 1);
        let prev = corner_column(corner, x, y_end - 1);
        if corner(x, y_end - 1) {
            let s = prev.push((x as usize, (y_end - 1) as usize));
            assert forall|k: int| 0 <= k < s.len() implies corner(
                (#[trigger] s[k]).0 as int,
                s[k].1 as int,
            ) by {
                if k < prev.len() {
                    assert(s[k] == prev[k]);
                }
            }
        }
    }
}

/// Every point of the columns before `x_end` satisfies the corner predicate.
pub proof fn lemma_corners_before_sound(corner: spec_fn(int, int) -> bool, x_end: int, y_last: int)
    requires
        x_end <= usize::MAX + 1,
        y_last <= usize::MAX,
    ensures
        forall|k: int|
            0 <= k < corners_before(corner, x_end, y_last).len() ==> corner(
                (#[trigger] corners_before(corner, x_end, y_last)[k]).0 as int,
                corners_before(corner, x_end, y_last)[k].1 as int,
            ),
    decreases x_end - 3,
{
    if x_end > 3 {
        lemma_corners_before_sound(corner, x_end - 1, y_last);
        lemma_corner_column_sound(corner, x_end - 1, y_last + 1);
        let a = corners_before(corner, x_end - 1, y_last);
        let b = corner_column(corner, x_end - 1, y_last + 1);
        assert forall|k: int| 0 <= k < (a + b).len() implies corner(
            (#[trigger] (a + b)[k]).0 as int,
            (a + b)[k].1 as int,
        ) by {
            if k >= a.len() {
                assert((a + b)[k] == b[k - a.len()]);
            } else {
                assert((a + b)[k] == a[k]);
            }
        }
    }
}

/// Every point of a scan satisfies the corner predicate it was scanned with.
pub proof fn lemma_corner_scan_sound(corner: spec_fn(int, int) -> bool, w: int, h: int)
    requires
        0 <= w <= usize::MAX,
        0 <= h <= usize::MAX,
    ensures
        forall|k: int|
            0 <= k < corner_scan(corner, w, h).len() ==> corner(
                (#[trigger] corner_scan(corner, w, h)[k]).0 as int,
                corner_scan(corner, w, h)[k].1 as int,
            ),
{
    lemma_corners_before_sound(corner, w - 3, h - 4);
}

proof fn lemma_corner_column_complete(corner: spec_fn(int, int) -> bool, x: int, y_end: int)
    requires
        0 <= x <= usize::MAX,
        y_end <= usize::MAX + 1,
    ensures
        forall|y: int|
            #![trigger corner(x, y)]
            3 <= y < y_end && corner(x, y) ==> corner_column(corner, x, y_end).contains(
                (x as usize, y as usize),
            ),
    decreases y_end - 3,
{
    if y_end > 3 {
        lemma_corner_column_complete(corner, x, y_end - 1);
        let prev = corner_column(corner, x, y_end - 1);
        if corner(x, y_end - 1) {
            let s = prev.push((x as usize, (y_end - 1) as usize));
            assert forall|y: int| 3 <= y < y_end && #[trigger] corner(x, y) implies s.contains(
                (x as usize, y as usize),
            ) by {
                if y == y_end - 1 {
                    assert(s[prev.len() as int] == (x as usize, y as usize));
                } else {
                    let k = choose|k: int| 0 <= k < prev.len() && prev[k] == (x as usize, y as usize);
                    assert(s[k] == prev[k]);
                }
            }
        }
    }
}

/// The columns before `x_end` hold every point of them, with `3 <= y <= y_last`, that
/// satisfies the predicate.
pub proof fn lemma_corners_before_complete(corner: spec_fn(int, int) -> bool, x_end: int, y_last: int)
    requires
        x_end <= usize::MAX + 1,
        y_last <= usize::MAX,
    ensures
        forall|x: int, y: int|
            #![trigger corner(x, y)]
            3 <= x < x_end && 3 <= y <= y_last && corner(x, y) ==> corners_before(
                corner,
                x_end,
                y_last,
            ).contains((x as usize, y as usize)),
    decreases x_end - 3,
{
    if x_end > 3 {
        lemma_corners_before_complete(corner, x_end - 1, y_last);
        lemma_corner_column_complete(corner, x_end - 1, y_last + 1);
        let a = corners_before(corner, x_end - 1, y_last);
        let b = corner_column(corner, x_end - 1, y_last + 1);
        assert(corners_before(corner, x_end, y_last) == a + b);
        assert forall|x: int, y: int|
            3 <= x < x_end && 3 <= y <= y_last && #[trigger] corner(x, y) implies (a + b).contains(
            (x as usize, y as usize),
        ) by {
            if x == x_end - 1 {
                let k = choose|k: int| 0 <= k < b.len() && b[k] == (x as usize, y as usize);
                assert((a + b)[a.len() + k] == b[k]);
            } else {
                let k = choose|k: int| 0 <= k < a.len() && a[k] == (x as usize, y as usize);
                assert((a + b)[k] == a[k]);
            }
        }
    }
}

/// A scan finds every point inside the 3-pixel padding that satisfies its predicate.
pub proof fn lemma_corner_scan_complete(corner: spec_fn(int, int) -> bool, w: int, h: int)
    requires
        0 <= w <= usize::MAX,
        0 <= h <= usize::MAX,
    ensures
        forall|x: int, y: int|
            #![trigger corner(x, y)]
            3 <= x < w - 3 && 3 <= y < h - 3 && corner(x, y) ==> corner_scan(corner, w, h).contains(
                (x as usize, y as usize),
            ),
{
    lemma_corners_before_complete(corner, w - 3, h - 4);
}

/// How many of four conditions hold.
pub open spec fn count4(a: bool, b: bool, c: bool, d: bool) -> int {
    (if a { 1int } else { 0int }) + (if b { 1int } else { 0int }) + (if c { 1int } else { 0int })
        + (if d { 1int } else { 0int })
}

/// Chained exclusive or of four conditions holds when an odd number of them does.
pub proof fn lemma_xor4_odd(a: bool, b: bool, c: bool, d: bool)
    ensures
        xor4(a, b, c, d) <==> count4(a, b, c, d) % 2 == 1,
{
}

/// Pixel (`x`, `y`) of a thresholded frame `w` pixels wide is black.
pub open spec fn black_at(buf: Seq<Color>, w: int, x: int, y: int) -> bool {
    color_at(buf, w, x, y) == Color::Black
}

/// Pixel (`x`, `y`) looks like the corner of a dark shape: it is black, an odd number of its
/// four diagonal neighbours is black, and its four far diagonal points, three pixels out
/// each way, are all black or white with an odd number of them black.
pub open spec fn fast_corner(buf: Seq<Color>, w: int, x: int, y: int) -> bool {
    &&& black_at(buf, w, x, y)
    &&& count4(
        black_at(buf, w, x - 1, y - 1),
        black_at(buf, w, x + 1, y - 1),
        black_at(buf, w, x - 1, y + 1),
        black_at(buf, w, x + 1, y + 1),
    ) % 2 == 1
    &&& color_at(buf, w, x + 3, y - 3) != Color::Other
    &&& color_at(buf, w, x + 3, y + 3) != Color::Other
    &&& color_at(buf, w, x - 3, y + 3) != Color::Other
    &&& color_at(buf, w, x - 3, y - 3) != Color::Other
    &&& count4(
        black_at(buf, w, x + 3, y - 3),
        black_at(buf, w, x + 3, y + 3),
        black_at(buf, w, x - 3, y + 3),
        black_at(buf, w, x - 3, y - 3),
    ) % 2 == 1
}

/// `pts` are the corners of a `w` by `h` thresholded frame inside its 3-pixel padding: each
/// point lies there and looks like a corner, and each pixel there that looks like one is
/// among them.
pub open spec fn exactly_corners(pts: Seq<(usize, usize)>, buf: Seq<Color>, w: int, h: int) -> bool {
    &&& forall|k: int|
        0 <= k < pts.len() ==> 3 <= (#[trigger] pts[k]).0 < w - 3 && 3 <= pts[k].1 < h - 3
            && fast_corner(buf, w, pts[k].0 as int, pts[k].1 as int)
    &&& forall|x: int, y: int|
        3 <= x < w - 3 && 3 <= y < h - 3 && #[trigger] fast_corner(buf, w, x, y) ==> pts.contains(
            (x as usize, y as usize),
        )
}

/// The corner test of the thresholded buffer is the corner shape of `fast_corner`.
proof fn lemma_buf_corner_shape(buf: Seq<Color>, w: int, x: int, y: int)
    ensures
        buf_corner(buf, w)(x, y) <==> fast_corner(buf, w, x, y),
{
    lemma_xor4_odd(
        black_at(buf, w, x - 1, y - 1),
        black_at(buf, w, x + 1, y - 1),
        black_at(buf, w, x - 1, y + 1),
        black_at(buf, w, x + 1, y + 1),
    );
    lemma_xor4_odd(
        black_at(buf, w, x + 3, y - 3),
        black_at(buf, w, x + 3, y + 3),
        black_at(buf, w, x - 3, y + 3),
        black_at(buf, w, x - 3, y - 3),
    );
}

/// Corner detection finds exactly the corners: the scan of a thresholded frame holds every
/// pixel inside the 3-pixel padding that is black, has an odd number of black diagonal
/// neighbours, and has four far diagonal points that are all black or white, an odd number
/// of them black; and it holds no other point.
pub proof fn lemma_corner_scan_exact(buf: Seq<Color>, w: int, h: int)
    requires
        0 <= w <= usize::MAX,
        0 <= h <= usize::MAX,
    ensures
        exactly_corners(corner_scan(buf_corner(buf, w), w, h), buf, w, h),
{
    let corner = buf_corner(buf, w);
    let pts = corner_scan(corner, w, h);
    lemma_corner_scan_in_frame(corner, w, h);
    lemma_corner_scan_sound(corner, w, h);
    lemma_corner_scan_complete(corner, w, h);
    assert forall|k: int| 0 <= k < pts.len() implies 3 <= (#[trigger] pts[k]).0 < w - 3 && 3
        <= pts[k].1 < h - 3 && fast_corner(buf, w, pts[k].0 as int, pts[k].1 as int) by {
        lemma_buf_corner_shape(buf, w, pts[k].0 as int, pts[k].1 as int);
    }
    assert forall|x: int, y: int|
        3 <= x < w - 3 && 3 <= y < h - 3 && #[trigger] fast_corner(buf, w, x, y) implies pts.contains(
        (x as usize, y as usize),
    ) by {
        lemma_buf_corner_shape(buf, w, x, y);
        assert(corner(x, y));
    }
}

/// A frame of at least one row holds at least as many pixels as a row.
pub proof fn lemma_mul_bound(w: int, h: int)
    by (nonlinear_arith)
    requires
        w >= 0,
        h >= 1,
    ensures
        w <= w * h,
{
}

/// An AprilTag detector.
///
/// This is the main entrypoint.
pub struct Detector {
    /// The thresholded image buffer
    buf: Vec<Color>,
    /// Tags accepted by the detector
    valid_tags: &'static [usize],
    /// Detected corners
    points: Vec<(usize, usize)>,
    /// Checked edges (x1, y1, x2, y2)
    lines: Vec<(usize, usize, usize, usize)>,
    /// Width of input frames
    width: usize,
    /// Height of input frames
    height: usize,
}

impl Detector {
    /// The buffer holds one pixel per coordinate, and the frame size fits the corner buffer.
    pub closed spec fn wf(&self) -> bool {
        &&& self.buf@.len() == self.width * self.height
        &&& self.width * self.height * 16 <= isize::MAX
    }

    /// Width of input frames.
    pub closed spec fn width_spec(&self) -> int {
        self.width as int
    }

    /// Height of input frames.
    pub closed spec fn height_spec(&self) -> int {
        self.height as int
    }

    /// The thresholded frame, row-major.
    pub closed spec fn buf_spec(&self) -> Seq<Color> {
        self.buf@
    }

    /// The corners found by the last corner detection.
    pub closed spec fn points_spec(&self) -> Seq<(usize, usize)> {
        self.points@
    }

    /// The edges accepted by the edge checks since the last frame.
    pub closed spec fn lines_spec(&self) -> Seq<(usize, usize, usize, usize)> {
        self.lines@
    }

    /// Tags the detector accepts.
    pub closed spec fn valid_tags_spec(&self) -> Seq<usize> {
        self.valid_tags@
    }

    /// Initialize a new detector for the specified dimensions.
    ///
    /// `valid_tags` is required for optimization and error resistance.
    pub fn new(width: usize, height: usize, valid_tags: &'static [usize]) -> (d: Self)
        requires
            width * height * 16 <= isize::MAX,
        ensures
            d.wf(),
            d.width_spec() == width,
            d.height_spec() == height,
            d.buf_spec() == Seq::new((width * height) as nat, |i: int| Color::Black),
            d.points_spec() == Seq::<(usize, usize)>::empty(),
            d.lines_spec() == Seq::<(usize, usize, usize, usize)>::empty(),
            d.valid_tags_spec() == valid_tags@,
    {
        let n = width * height;
        let mut buf: Vec<Color> = Vec::new();
        let mut i: usize = 0;
        while i < n
            invariant
                i <= n,
                buf@ == Seq::new(i as nat, |k: int| Color::Black),
            decreases n - i,
        {
            buf.push(Color::Black);
            i = i + 1;
        }
        Detector { buf, valid_tags, points: Vec::new(), lines: Vec::new(), width, height }
    }

    /// Width of input frames.
    pub fn width(&self) -> (w: usize)
        ensures
            w == self.width_spec(),
    {
        self.width
    }

    /// Height of input frames.
    pub fn height(&self) -> (h: usize)
        ensures
            h == self.height_spec(),
    {
        self.height
    }

    /// The thresholded frame, row-major.
    pub fn buffer(&self) -> (b: &Vec<Color>)
        ensures
            b@ == self.buf_spec(),
    {
        &self.buf
    }

    /// The corners found in the last frame.
    pub fn corners(&self) -> (p: &Vec<(usize, usize)>)
        ensures
            p@ == self.points_spec(),
    {
        &self.points
    }

    /// The segments recorded for the last frame.
    pub fn lines(&self) -> (l: &Vec<(usize, usize, usize, usize)>)
        ensures
            l@ == self.lines_spec(),
    {
        &self.lines
    }

    /// Color of the pixel at (`x`, `y`); `Other` off the buffer.
    fn color_at(&self, x: isize, y: isize) -> (c: Color)
        requires
            self.wf(),
            y <= self.height_spec() + 16,
        ensures
            c == color_at(self.buf_spec(), self.width_spec(), x as int, y as int),
    {
        if x < 0 || y < 0 {
            Color::Other
        } else if (y as usize) > self.height {
            proof {
                assert((y as int) * self.width >= (self.height + 1) * self.width) by (nonlinear_arith)
                    requires
                        y as int >= self.height + 1,
                        self.width >= 0,
                ;
                assert((self.height + 1) * self.width == self.height * self.width + self.width)
                    by (nonlinear_arith);
                assert(self.width * self.height == self.height * self.width) by (nonlinear_arith);
            }
            Color::Other
        } else {
            proof {
                assert((y as int) * self.width <= self.height * self.width) by (nonlinear_arith)
                    requires
                        y as int <= self.height,
                        self.width >= 0,
                ;
                assert(self.width * self.height == self.height * self.width) by (nonlinear_arith);
            }
            let i = (y as usize) * self.width + (x as usize);
            if i < self.buf.len() {
                self.buf[i]
            } else {
                Color::Other
            }
        }
    }

    /// Whether (`x`, `y`) passes the corner test.
    fn is_corner(&self, x: usize, y: usize) -> (b: bool)
        requires
            self.wf(),
            3 <= x,
            3 <= y,
            x < self.width_spec(),
            y < self.height_spec(),
        ensures
            b == buf_corner(self.buf_spec(), self.width_spec())(x as int, y as int),
    {
        proof {
            lemma_mul_bound(self.width as int, self.height as int);
            lemma_mul_bound(self.height as int, self.width as int);
            assert(self.width * self.height == self.height * self.width) by (nonlinear_arith);
        }
        let xi = x as isize;
        let yi = y as isize;
        let p = self.color_at(xi, yi);
        if p.is_black() {
            let up_left = self.color_at(xi - 1, yi - 1);
            let up_right = self.color_at(xi + 1, yi - 1);
            let down_left = self.color_at(xi - 1, yi + 1);
            let down_right = self.color_at(xi + 1, yi + 1);
            // Only one can be black
            let clean = up_left.is_black() ^ up_right.is_black() ^ down_left.is_black()
                ^ down_right.is_black();
            if clean {
                // Furthest top right
                let p3 = self.color_at(xi + 3, yi - 3);
                // Furthest bottom right
                let p7 = self.color_at(xi + 3, yi + 3);
                // Furthest bottom left
                let p11 = self.color_at(xi - 3, yi + 3);
                // Furthest top left
                let p15 = self.color_at(xi - 3, yi - 3);
                (p3.is_good() && p7.is_good() && p11.is_good() && p15.is_good()) && (p3.is_black()
                    ^ p7.is_black() ^ p11.is_black() ^ p15.is_black())
            } else {
                false
            }
        } else {
            false
        }
    }

    /// Bounds that the frame's invariant gives on its sides.
    proof fn lemma_sides(&self)
        requires
            self.wf(),
        ensures
            self.height >= 1 ==> self.width <= isize::MAX / 16,
            self.width >= 1 ==> self.height <= isize::MAX / 16,
    {
        if self.height >= 1 {
            lemma_mul_bound(self.width as int, self.height as int);
        }
        if self.width >= 1 {
            lemma_mul_bound(self.height as int, self.width as int);
        }
        assert(self.width * self.height == self.height * self.width) by (nonlinear_arith);
    }

    /// The vertical check of the edge between two in-frame points.
    fn vertical_check(&self, x1: usize, y1: usize, x2: usize, y2: usize) -> (b: bool)
        requires
            self.wf(),
            x1 < self.width_spec(),
            x2 < self.width_spec(),
            y1 < self.height_spec(),
            y2 < self.height_spec(),
        ensures
            b == vertical_edge(self.buf_spec(), self.width_spec(), (x1, y1), (x2, y2)),
    {
        proof {
            self.lemma_sides();
        }
        // calculate & store midpoint
        let midpoint_x = (x1 + x2) / 2;
        let midpoint_y = (y1 + y2) / 2;
        // Figure out if edge is closer to horizontal/vertical
        let xdiff = if x1 >= x2 {
            x1 - x2
        } else {
            x2 - x1
        };
        let ydiff = if y1 >= y2 {
            y1 - y2
        } else {
            y2 - y1
        };
        let is_vertical_line = x1 == x2 || xdiff < ydiff;
        if !is_vertical_line {
            return false;
        }
        // Calculate and store the coords for the midway points
        let mw1x = ((midpoint_x + x1) / 2) as isize;
        let mw1y = ((midpoint_y + y1) / 2) as isize;
        let mw2x = ((midpoint_x + x2) / 2) as isize;
        let mw2y = ((midpoint_y + y2) / 2) as isize;
        let off: isize = 5;
        let mw1right = self.color_at(mw1x + off, mw1y);
        let mw2right = self.color_at(mw2x + off, mw2y);
        let mw1left = self.color_at(mw1x - off, mw1y);
        let mw2left = self.color_at(mw2x - off, mw2y);
        // Check that all of the checking points are valid, and that only one side of the
        // edge is black (the other should be white)
        mw1left.is_good() && mw2left.is_good() && mw1right.is_good() && mw2right.is_good() && (
        mw1left.is_black() ^ mw2right.is_black()) && (mw2left.is_black() ^ mw1right.is_black())
            && (mw1left == mw2left)
    }

    /// The horizontal check of the edge between two in-frame points.
    fn horizontal_check(&self, x1: usize, y1: usize, x2: usize, y2: usize) -> (b: bool)
        requires
            self.wf(),
            x1 < self.width_spec(),
            x2 < self.width_spec(),
            y1 < self.height_spec(),
            y2 < self.height_spec(),
        ensures
            b == horizontal_edge(self.buf_spec(), self.width_spec(), (x1, y1), (x2, y2)),
    {
        proof {
            self.lemma_sides();
        }
        let midpoint_x = (x1 + x2) / 2;
        let midpoint_y = (y1 + y2) / 2;
        let xdiff = if x1 >= x2 {
            x1 - x2
        } else {
            x2 - x1
        };
        let ydiff = if y1 >= y2 {
            y1 - y2
        } else {
            y2 - y1
        };
        let is_horizontal_line = y1 == y2 || ydiff < xdiff;
        if !is_horizontal_line {
            return false;
        }
        let mw1x = ((midpoint_x + x1) / 2) as isize;
        let mw1y = ((midpoint_y + y1) / 2) as isize;
        let mw2x = ((midpoint_x + x2) / 2) as isize;
        let mw2y = ((midpoint_y + y2) / 2) as isize;
        let off: isize = 5;
        // the points above and below the two midways
        let mw1top = self.color_at(mw1x, mw1y - off);
        let mw2top = self.color_at(mw2x, mw2y - off);
        let mw1bottom = self.color_at(mw1x, mw1y + off);
        let mw2bottom = self.color_at(mw2x, mw2y + off);
        mw1top.is_good() && mw2top.is_good() && mw1bottom.is_good() && mw2bottom.is_good() && (
        mw1top.is_black() ^ mw2bottom.is_black()) && (mw2top.is_black() ^ mw1bottom.is_black())
            && (mw1top == mw2top)
    }

    /// The gray values of the window around (`x`, `y`) that the adaptive threshold looks at.
    pub fn window_values(&self, gray: &[u8], x: usize, y: usize) -> (v: Vec<u8>)
        requires
            self.wf(),
            gray@.len() == self.width_spec() * self.height_spec(),
            x < self.width_spec(),
            y < self.height_spec(),
        ensures
            v@ == window(gray@, self.width_spec(), self.height_spec(), x as int, y as int),
            v@.len() >= 1,
    {
        proof {
            self.lemma_sides();
        }
        let w = self.width;
        let h = self.height;
        let x_min = if x >= 2 {
            x - 2
        } else {
            0
        };
        let x_max = if x + 2 < w - 1 {
            x + 2
        } else {
            w - 1
        };
        let y_min = if y >= 2 {
            y - 2
        } else {
            0
        };
        let y_max = if y + 2 < h - 1 {
            y + 2
        } else {
            h - 1
        };
        let ghost ny = y_max - y_min + 1;
        let mut v: Vec<u8> = Vec::new();
        let mut xx = x_min;
        while xx <= x_max
            invariant
                self.wf(),
                x_min <= xx <= x_max + 1,
                x_max < w,
                y_min <= y_max < h,
                ny == y_max - y_min + 1,
                w == self.width,
                h == self.height,
                gray@.len() == w * h,
                v@ == window_cols(gray@, w as int, x_min as int, y_min as int, ny, xx - x_min),
            decreases x_max + 1 - xx,
        {
            let ghost v0 = v@;
            let mut yy = y_min;
            while yy <= y_max
                invariant
                    self.wf(),
                    x_min <= xx <= x_max,
                    x_max < w,
                    y_min <= yy <= y_max + 1,
                    y_max < h,
                    ny == y_max - y_min + 1,
                    w == self.width,
                    h == self.height,
                    gray@.len() == w * h,
                    v@ == v0 + Seq::new(
                        (yy - y_min) as nat,
                        |j: int| gray@[(y_min + j) * w + xx],
                    ),
                decreases y_max + 1 - yy,
            {
                proof {
                    lemma_in_frame(xx as int, yy as int, w as int, h as int);
                }
                v.push(gray[yy * w + xx]);
                proof {
                    assert(v@ =~= v0 + Seq::new(
                        (yy + 1 - y_min) as nat,
                        |j: int| gray@[(y_min + j) * w + xx],
                    ));
                }
                yy = yy + 1;
            }
            proof {
                assert(v@ =~= window_cols(
                    gray@,
                    w as int,
                    x_min as int,
                    y_min as int,
                    ny,
                    xx + 1 - x_min,
                ));
            }
            xx = xx + 1;
        }
        proof {
            lemma_window_cols_len(gray@, w as int, x_min as int, y_min as int, ny, xx - x_min);
            assert((xx - x_min) * ny >= 1) by (nonlinear_arith)
                requires
                    xx - x_min >= 1,
                    ny >= 1,
            ;
        }
        v
    }

    /// The adaptive threshold of pixel (`x`, `y`), given the lower and upper quartiles of
    /// its window.
    fn classify_pixel(&self, gray: &[u8], x: usize, y: usize, q: (u8, u8)) -> (c: Color)
        requires
            self.wf(),
            gray@.len() == self.width_spec() * self.height_spec(),
            x < self.width_spec(),
            y < self.height_spec(),
        ensures
            c == otsu_class(gray@, self.width_spec(), self.height_spec(), x as int, y as int, q),
    {
        let win = self.window_values(gray, x, y);
        let s = sort_bytes(&win);
        let n = s.len();
        proof {
            lemma_byte_leq_total();
            win@.lemma_sort_by_ensures(byte_leq());
            assert(byte_leq()(s@[0], s@[n - 1]) || n == 1);
            lemma_in_frame(x as int, y as int, self.width as int, self.height as int);
        }
        let p = gray[y * self.width + x];
        if (y > 0 && x > 0) && s[n - 1] - s[0] < 5 {
            let k = n / 2;
            let m2: u32 = if n % 2 != 0 {
                2 * (s[k] as u32)
            } else {
                (s[k - 1] as u32) + (s[k] as u32)
            };
            if m2 < 220 {
                Color::Black
            } else {
                Color::White
            }
        } else {
            let (lower, upper) = q;
            if p >= upper {
                Color::White
            } else if p <= lower {
                Color::Black
            } else if 2 * (p as u32) < (lower as u32) + (upper as u32) {
                Color::Black
            } else {
                Color::White
            }
        }
    }

    /// Adaptive thresholding of a gray frame into a binary black/white buffer.
    ///
    /// Each pixel is compared with the statistics of the window around it; `quartiles` holds,
    /// per pixel in row-major order, the lower and upper quartile of that window (see
    /// [`Self::window_values`]).
    pub fn calc_otsu(&mut self, gray: &[u8], quartiles: &[(u8, u8)])
        requires
            old(self).wf(),
            gray@.len() == old(self).width_spec() * old(self).height_spec(),
            quartiles@.len() == old(self).width_spec() * old(self).height_spec(),
        ensures
            final(self).wf(),
            final(self).width_spec() == old(self).width_spec(),
            final(self).height_spec() == old(self).height_spec(),
            final(self).points_spec() == old(self).points_spec(),
            final(self).lines_spec() == old(self).lines_spec(),
            final(self).valid_tags_spec() == old(self).valid_tags_spec(),
            otsu_thresholded(
                final(self).buf_spec(),
                gray@,
                old(self).width_spec(),
                old(self).height_spec(),
                quartiles@,
            ),
            is_binary(final(self).buf_spec()),
            final(self).buf_spec() == otsu_buf(
                gray@,
                old(self).width_spec(),
                old(self).height_spec(),
                quartiles@,
            ),
    {
        let w = self.width;
        let h = self.height;
        let ghost wi = w as int;
        let ghost hi = h as int;
        let mut nb: Vec<Color> = Vec::new();
        let mut y: usize = 0;
        while y < h
            invariant
                self.wf(),
                w == self.width,
                h == self.height,
                wi == w,
                hi == h,
                gray@.len() == w * h,
                quartiles@.len() == w * h,
                y <= h,
                nb@.len() == y * w,
                forall|xx: int, yy: int|
                    0 <= xx < wi && 0 <= yy < y ==> #[trigger] nb@[yy * wi + xx] == otsu_class(
                        gray@,
                        wi,
                        hi,
                        xx,
                        yy,
                        quartiles@[yy * wi + xx],
                    ),
            decreases h - y,
        {
            let mut x: usize = 0;
            while x < w
                invariant
                    self.wf(),
                    w == self.width,
                    h == self.height,
                    wi == w,
                    hi == h,
                    gray@.len() == w * h,
                    quartiles@.len() == w * h,
                    y < h,
                    x <= w,
                    nb@.len() == y * w + x,
                    forall|xx: int, yy: int|
                        0 <= xx < wi && 0 <= yy < y ==> #[trigger] nb@[yy * wi + xx] == otsu_class(
                            gray@,
                            wi,
                            hi,
                            xx,
                            yy,
                            quartiles@[yy * wi + xx],
                        ),
                    forall|xx: int|
                        0 <= xx < x ==> #[trigger] nb@[y * wi + xx] == otsu_class(
                            gray@,
                            wi,
                            hi,
                            xx,
                            y as int,
                            quartiles@[y * wi + xx],
                        ),
                decreases w - x,
            {
                proof {
                    lemma_in_frame(x as int, y as int, wi, hi);
                }
                let c = self.classify_pixel(gray, x, y, quartiles[y * w + x]);
                let ghost nb0 = nb@;
                nb.push(c);
                proof {
                    assert forall|xx: int, yy: int|
                        0 <= xx < wi && 0 <= yy < y implies #[trigger] nb@[yy * wi + xx]
                        == otsu_class(gray@, wi, hi, xx, yy, quartiles@[yy * wi + xx]) by {
                        lemma_row_major(xx, yy, x as int, y as int, wi);
                        assert(nb@[yy * wi + xx] == nb0[yy * wi + xx]);
                    }
                    assert forall|xx: int| 0 <= xx < x + 1 implies #[trigger] nb@[y * wi + xx]
                        == otsu_class(gray@, wi, hi, xx, y as int, quartiles@[y * wi + xx]) by {
                        if xx < x {
                            assert(nb@[y * wi + xx] == nb0[y * wi + xx]);
                        }
                    }
                }
                x = x + 1;
            }
            proof {
                assert((y + 1) * w == y * w + w) by (nonlinear_arith);
            }
            y = y + 1;
        }
        proof {
            assert(w * h == h * w) by (nonlinear_arith);
        }
        self.buf = nb;
        proof {
            lemma_thresholded_binary(self.buf@, gray@, wi, hi, quartiles@);
        }
    }

    /// Fixed thresholding of a gray frame: below 60 is black, above 160 is white.
    pub fn thresh(&mut self, gray: &[u8])
        requires
            old(self).wf(),
            gray@.len() == old(self).width_spec() * old(self).height_spec(),
        ensures
            final(self).wf(),
            final(self).width_spec() == old(self).width_spec(),
            final(self).height_spec() == old(self).height_spec(),
            final(self).points_spec() == old(self).points_spec(),
            final(self).lines_spec() == old(self).lines_spec(),
            final(self).valid_tags_spec() == old(self).valid_tags_spec(),
            final(self).buf_spec() == Seq::new(gray@.len(), |i: int| fixed_class(gray@[i])),
    {
        let n = self.width * self.height;
        let mut nb: Vec<Color> = Vec::new();
        let mut i: usize = 0;
        while i < n
            invariant
                n == gray@.len(),
                i <= n,
                nb@ == Seq::new(i as nat, |k: int| fixed_class(gray@[k])),
            decreases n - i,
        {
            let g = gray[i];
            // 60 is a "kinda works" value
            let c = if g < 60 {
                Color::Black
            } else if g > 160 {
                Color::White
            } else {
                Color::Other
            };
            nb.push(c);
            proof {
                assert(nb@ =~= Seq::new((i + 1) as nat, |k: int| fixed_class(gray@[k])));
            }
            i = i + 1;
        }
        self.buf = nb;
    }

    /// Process a gray frame: threshold it adaptively, find the corners, and check the edges
    /// between every pair of corners.
    ///
    /// `gray` holds one luma value per pixel, row-major; `quartiles` holds, per pixel, the
    /// lower and upper quartile of the window around it (see [`Self::calc_otsu`]).
    pub fn process_frame(&mut self, gray: &[u8], quartiles: &[(u8, u8)])
        requires
            old(self).wf(),
            gray@.len() == old(self).width_spec() * old(self).height_spec(),
            quartiles@.len() == old(self).width_spec() * old(self).height_spec(),
            old(self).width_spec() >= 3,
            old(self).width_spec() >= 7 ==> old(self).height_spec() >= 3,
            edges_checkable(
                corner_scan(
                    buf_corner(
                        otsu_buf(
                            gray@,
                            old(self).width_spec(),
                            old(self).height_spec(),
                            quartiles@,
                        ),
                        old(self).width_spec(),
                    ),
                    old(self).width_spec(),
                    old(self).height_spec(),
                ),
            ),
        ensures
            final(self).wf(),
            final(self).width_spec() == old(self).width_spec(),
            final(self).height_spec() == old(self).height_spec(),
            final(self).valid_tags_spec() == old(self).valid_tags_spec(),
            otsu_thresholded(
                final(self).buf_spec(),
                gray@,
                old(self).width_spec(),
                old(self).height_spec(),
                quartiles@,
            ),
            is_binary(final(self).buf_spec()),
            final(self).points_spec() == corner_scan(
                buf_corner(final(self).buf_spec(), final(self).width_spec()),
                final(self).width_spec(),
                final(self).height_spec(),
            ),
            points_in_padding(
                final(self).points_spec(),
                final(self).width_spec(),
                final(self).height_spec(),
            ),
            exactly_corners(
                final(self).points_spec(),
                final(self).buf_spec(),
                final(self).width_spec(),
                final(self).height_spec(),
            ),
            final(self).lines_spec() == all_edges(
                final(self).buf_spec(),
                final(self).width_spec(),
                final(self).points_spec(),
            ),
    {
        self.calc_otsu(gray, quartiles);
        // Reset the corners and clear the lines
        self.points.clear();
        self.lines.clear();
        self.detect_corners();
        proof {
            lemma_corner_scan_in_frame(
                buf_corner(self.buf@, self.width as int),
                self.width as int,
                self.height as int,
            );
            lemma_corner_scan_exact(self.buf@, self.width as int, self.height as int);
            assert(self.points@ =~= corner_scan(
                buf_corner(self.buf@, self.width as int),
                self.width as int,
                self.height as int,
            ));
        }
        self.check_edges();
        proof {
            assert(self.lines@ =~= all_edges(self.buf@, self.width as int, self.points@));
        }
    }

    /// Whether the checks of the edge from (`x1`, `y1`) to (`x2`, `y2`) stay at nonnegative
    /// coordinates.
    fn pair_checkable(x1: usize, y1: usize, x2: usize, y2: usize) -> (b: bool)
        requires
            x1 <= usize::MAX / 4,
            x2 <= usize::MAX / 4,
            y1 <= usize::MAX / 4,
            y2 <= usize::MAX / 4,
        ensures
            b == checks_in_range((x1, y1), (x2, y2)),
    {
        let midpoint_x = (x1 + x2) / 2;
        let midpoint_y = (y1 + y2) / 2;
        let xdiff = if x1 >= x2 {
            x1 - x2
        } else {
            x2 - x1
        };
        let ydiff = if y1 >= y2 {
            y1 - y2
        } else {
            y2 - y1
        };
        let is_vertical_line = x1 == x2 || xdiff < ydiff;
        let is_horizontal_line = y1 == y2 || ydiff < xdiff;
        let mw1x = (midpoint_x + x1) / 2;
        let mw1y = (midpoint_y + y1) / 2;
        let mw2x = (midpoint_x + x2) / 2;
        let mw2y = (midpoint_y + y2) / 2;
        (!is_vertical_line || (mw1x >= 5 && mw2x >= 5)) && (!is_horizontal_line || (mw1y >= 5
            && mw2y >= 5))
    }

    /// Whether checking every ordered pair of the corners stays at nonnegative coordinates.
    fn corners_checkable(&self) -> (b: bool)
        requires
            self.wf(),
            points_in_frame(self.points_spec(), self.width_spec(), self.height_spec()),
        ensures
            b == edges_checkable(self.points_spec()),
    {
        let n = self.points.len();
        let ghost pts = self.points@;
        if n > 0 {
            proof {
                assert(pts[0].1 < self.height && pts[0].0 < self.width);
                lemma_mul_bound(self.width as int, self.height as int);
                assert(self.height <= self.width * self.height) by (nonlinear_arith)
                    requires
                        self.width >= 1,
                ;
            }
        }
        let mut i: usize = 0;
        while i < n
            invariant
                self.wf(),
                n == pts.len(),
                pts == self.points@,
                points_in_frame(pts, self.width as int, self.height as int),
                n > 0 ==> self.width <= self.width * self.height,
                n > 0 ==> self.height <= self.width * self.height,
                i <= n,
                forall|a: int, b: int|
                    0 <= a < i && 0 <= b < n ==> #[trigger] checks_in_range(pts[a], pts[b]),
            decreases n - i,
        {
            let (x1, y1) = self.points[i];
            let mut j: usize = 0;
            while j < n
                invariant
                    self.wf(),
                    n == pts.len(),
                    pts == self.points@,
                    points_in_frame(pts, self.width as int, self.height as int),
                    n > 0 ==> self.width <= self.width * self.height,
                    n > 0 ==> self.height <= self.width * self.height,
                    i < n,
                    j <= n,
                    (x1, y1) == pts[i as int],
                    forall|a: int, b: int|
                        0 <= a < i && 0 <= b < n ==> #[trigger] checks_in_range(pts[a], pts[b]),
                    forall|b: int| 0 <= b < j ==> #[trigger] checks_in_range(pts[i as int], pts[b]),
                decreases n - j,
            {
                let (x2, y2) = self.points[j];
                proof {
                    assert(pts[i as int].0 < self.width && pts[i as int].1 < self.height);
                    assert(pts[j as int].0 < self.width && pts[j as int].1 < self.height);
                }
                if !Self::pair_checkable(x1, y1, x2, y2) {
                    proof {
                        assert(!checks_in_range(pts[i as int], pts[j as int]));
                    }
                    return false;
                }
                j = j + 1;
            }
            i = i + 1;
        }
        true
    }

    /// Process a gray frame as `process_frame` does, for any frame whose corners `process_frame`
    /// cannot check: when a checking point of some pair of corners would fall below coordinate
    /// zero, no edge is checked and `false` is returned.
    pub fn try_process_frame(&mut self, gray: &[u8], quartiles: &[(u8, u8)]) -> (ok: bool)
        requires
            old(self).wf(),
            gray@.len() == old(self).width_spec() * old(self).height_spec(),
            quartiles@.len() == old(self).width_spec() * old(self).height_spec(),
            old(self).width_spec() >= 3,
            old(self).width_spec() >= 7 ==> old(self).height_spec() >= 3,
        ensures
            final(self).wf(),
            final(self).width_spec() == old(self).width_spec(),
            final(self).height_spec() == old(self).height_spec(),
            final(self).valid_tags_spec() == old(self).valid_tags_spec(),
            final(self).buf_spec() == otsu_buf(
                gray@,
                old(self).width_spec(),
                old(self).height_spec(),
                quartiles@,
            ),
            is_binary(final(self).buf_spec()),
            final(self).points_spec() == corner_scan(
                buf_corner(final(self).buf_spec(), final(self).width_spec()),
                final(self).width_spec(),
                final(self).height_spec(),
            ),
            points_in_padding(
                final(self).points_spec(),
                final(self).width_spec(),
                final(self).height_spec(),
            ),
            exactly_corners(
                final(self).points_spec(),
                final(self).buf_spec(),
                final(self).width_spec(),
                final(self).height_spec(),
            ),
            ok <==> edges_checkable(final(self).points_spec()),
            ok ==> final(self).lines_spec() == all_edges(
                final(self).buf_spec(),
                final(self).width_spec(),
                final(self).points_spec(),
            ),
            !ok ==> final(self).lines_spec().len() == 0,
    {
        self.calc_otsu(gray, quartiles);
        self.points.clear();
        self.lines.clear();
        self.detect_corners();
        proof {
            lemma_corner_scan_in_frame(
                buf_corner(self.buf@, self.width as int),
                self.width as int,
                self.height as int,
            );
            lemma_corner_scan_exact(self.buf@, self.width as int, self.height as int);
            assert(self.points@ =~= corner_scan(
                buf_corner(self.buf@, self.width as int),
                self.width as int,
                self.height as int,
            ));
        }
        if !self.corners_checkable() {
            return false;
        }
        self.check_edges();
        proof {
            assert(self.lines@ =~= all_edges(self.buf@, self.width as int, self.points@));
        }
        true
    }

    /// Make the links of pixel (`x`, `y`).
    fn link_pixel(
        &self,
        uf: &mut UnionFind,
        x: usize,
        y: usize,
        Ghost(edges): Ghost<Seq<(int, int)>>,
    )
        requires
            self.wf(),
            partition_matches(*old(uf), self.width_spec() * self.height_spec(), edges),
            1 <= x < self.width_spec(),
            y < self.height_spec(),
        ensures
            partition_matches(
                *final(uf),
                self.width_spec() * self.height_spec(),
                edges + pixel_links(self.buf_spec(), self.width_spec(), x as int, y as int),
            ),
    {
        let w = self.width;
        let ghost wi = w as int;
        let ghost buf = self.buf@;
        proof {
            lemma_in_frame(x as int, y as int, wi, self.height as int);
            lemma_in_frame(x - 1, y as int, wi, self.height as int);
            if y > 0 {
                lemma_in_frame(x as int, y - 1, wi, self.height as int);
                lemma_in_frame(x - 1, y - 1, wi, self.height as int);
                if x + 1 < w {
                    lemma_in_frame(x + 1, y - 1, wi, self.height as int);
                }
            }
        }
        let i = y * w + x;
        let p = self.buf[i];
        if !p.is_good() {
            proof {
                assert(edges + pixel_links(buf, wi, x as int, y as int) =~= edges);
            }
            return ;
        }
        let ghost e0 = edges;
        let left_i = y * w + (x - 1);
        let c1 = self.buf[left_i] == p;
        if c1 {
            union_link(uf, i, left_i, Ghost(e0));
        }
        let ghost e1 = e0 + link_if(x > 0 && buf[left_i as int] == p, i as int, left_i as int);
        proof {
            if c1 {
                assert(e1 =~= e0.push((i as int, left_i as int)));
            } else {
                assert(e1 =~= e0);
            }
        }
        let ghost top_i: int = (y - 1) * wi + x;
        let ghost tl_i: int = (y - 1) * wi + (x - 1);
        let ghost tr_i: int = (y - 1) * wi + (x + 1);
        let mut c2 = false;
        let mut c3 = false;
        let mut c4 = false;
        if y > 0 {
            let top = (y - 1) * w + x;
            c2 = self.buf[top] == p;
            if c2 {
                union_link(uf, i, top, Ghost(e1));
            }
        }
        let ghost e2 = e1 + link_if(y > 0 && buf[top_i] == p, i as int, top_i);
        proof {
            if c2 {
                assert(e2 =~= e1.push((i as int, top_i)));
            } else {
                assert(e2 =~= e1);
            }
        }
        if y > 0 && p.is_white() {
            let top_left = (y - 1) * w + (x - 1);
            c3 = self.buf[top_left] == p;
            if c3 {
                union_link(uf, i, top_left, Ghost(e2));
            }
        }
        let ghost e3 = e2 + link_if(
            y > 0 && p == Color::White && x > 0 && buf[tl_i] == p,
            i as int,
            tl_i,
        );
        proof {
            if c3 {
                assert(e3 =~= e2.push((i as int, tl_i)));
            } else {
                assert(e3 =~= e2);
            }
        }
        if y > 0 && p.is_white() && x < w - 1 {
            let top_right = (y - 1) * w + (x + 1);
            c4 = self.buf[top_right] == p;
            if c4 {
                union_link(uf, i, top_right, Ghost(e3));
            }
        }
        proof {
            let e4 = e3 + link_if(
                y > 0 && p == Color::White && x < wi - 1 && buf[tr_i] == p,
                i as int,
                tr_i,
            );
            if c4 {
                assert(e4 =~= e3.push((i as int, tr_i)));
            } else {
                assert(e4 =~= e3);
            }
            assert(e4 =~= edges + pixel_links(buf, wi, x as int, y as int));
        }
    }

    /// Label connected components: pixels of the same good color are joined to their left
    /// and top neighbours, white pixels also diagonally upwards.
    pub fn connected_components(&self) -> (uf: UnionFind)
        requires
            self.wf(),
            self.height_spec() > 0 ==> self.width_spec() >= 1,
        ensures
            partition_matches(
                uf,
                self.width_spec() * self.height_spec(),
                component_links(self.buf_spec(), self.width_spec(), self.height_spec()),
            ),
            joins_neighbours(uf, self.buf_spec(), self.width_spec(), self.height_spec()),
            joins_only_like(uf, self.buf_spec(), self.width_spec() * self.height_spec()),
    {
        let w = self.width;
        let h = self.height;
        let ghost wi = w as int;
        let ghost buf = self.buf@;
        let mut uf = UnionFind::new(w * h);
        proof {
            assert forall|i: int, j: int|
                0 <= i < w * h && 0 <= j < w * h implies (#[trigger] uf.same_set(i, j) <==> joined(
                seq![],
                i,
                j,
            )) by {}
        }
        let mut y: usize = 0;
        while y < h
            invariant
                self.wf(),
                w == self.width,
                h == self.height,
                wi == w,
                buf == self.buf@,
                h > 0 ==> w >= 1,
                y <= h,
                partition_matches(uf, w * h, rows_links(buf, wi, y as int)),
            decreases h - y,
        {
            let mut x: usize = 1;
            while x < w - 1
                invariant
                    self.wf(),
                    w == self.width,
                    h == self.height,
                    wi == w,
                    buf == self.buf@,
                    w >= 1,
                    y < h,
                    1 <= x,
                    x <= w - 1 || w < 2,
                    w < 2 ==> x == 1,
                    partition_matches(
                        uf,
                        w * h,
                        rows_links(buf, wi, y as int) + row_links(buf, wi, y as int, x as int),
                    ),
                decreases w - x,
            {
                let ghost before = rows_links(buf, wi, y as int) + row_links(
                    buf,
                    wi,
                    y as int,
                    x as int,
                );
                self.link_pixel(&mut uf, x, y, Ghost(before));
                proof {
                    assert(before + pixel_links(buf, wi, x as int, y as int) =~= rows_links(
                        buf,
                        wi,
                        y as int,
                    ) + row_links(buf, wi, y as int, x + 1));
                }
                x = x + 1;
            }
            proof {
                if w >= 2 {
                    assert(x == w - 1);
                } else {
                    assert(row_links(buf, wi, y as int, x as int) =~= seq![]);
                    assert(row_links(buf, wi, y as int, wi - 1) =~= seq![]);
                }
                assert(rows_links(buf, wi, y as int) + row_links(buf, wi, y as int, x as int)
                    =~= rows_links(buf, wi, y + 1));
            }
            y = y + 1;
        }
        proof {
            assert(rows_links(buf, wi, h as int) == component_links(buf, wi, h as int));
            lemma_components_join_neighbours(uf, buf, wi, h as int);
        }
        uf
    }

    /// Check a single edge (imaginary line between two corners), recording it once for each
    /// of the vertical and horizontal checks that it passes.
    fn check_edge(&mut self, x1: usize, y1: usize, x2: usize, y2: usize)
        requires
            old(self).wf(),
            x1 < old(self).width_spec(),
            x2 < old(self).width_spec(),
            y1 < old(self).height_spec(),
            y2 < old(self).height_spec(),
        ensures
            final(self).wf(),
            final(self).width_spec() == old(self).width_spec(),
            final(self).height_spec() == old(self).height_spec(),
            final(self).buf_spec() == old(self).buf_spec(),
            final(self).points_spec() == old(self).points_spec(),
            final(self).valid_tags_spec() == old(self).valid_tags_spec(),
            final(self).lines_spec() == old(self).lines_spec() + edge_lines(
                old(self).buf_spec(),
                old(self).width_spec(),
                (x1, y1),
                (x2, y2),
            ),
    {
        let ghost l0 = self.lines@;
        if self.vertical_check(x1, y1, x2, y2) {
            self.lines.push((x1, y1, x2, y2));
        }
        if self.horizontal_check(x1, y1, x2, y2) {
            self.lines.push((x1, y1, x2, y2));
        }
        proof {
            assert(self.lines@ =~= l0 + edge_lines(self.buf@, self.width as int, (x1, y1), (x2, y2)));
        }
    }

    /// Perform edge checking on all detected corners: every corner against every corner,
    /// the second in reverse order.
    pub fn check_edges(&mut self)
        requires
            old(self).wf(),
            points_in_frame(old(self).points_spec(), old(self).width_spec(), old(self).height_spec()),
            edges_checkable(old(self).points_spec()),
        ensures
            final(self).wf(),
            final(self).width_spec() == old(self).width_spec(),
            final(self).height_spec() == old(self).height_spec(),
            final(self).buf_spec() == old(self).buf_spec(),
            final(self).points_spec() == old(self).points_spec(),
            final(self).valid_tags_spec() == old(self).valid_tags_spec(),
            final(self).lines_spec() == old(self).lines_spec() + all_edges(
                old(self).buf_spec(),
                old(self).width_spec(),
                old(self).points_spec(),
            ),
    {
        let ghost s0 = *self;
        let ghost pts = self.points@;
        let n = self.points.len();
        let mut i: usize = 0;
        while i < n
            invariant
                self.wf(),
                n == pts.len(),
                i <= n,
                self.width == s0.width,
                self.height == s0.height,
                self.buf@ == s0.buf@,
                self.points@ == pts,
                self.valid_tags@ == s0.valid_tags@,
                points_in_frame(pts, self.width as int, self.height as int),
                self.lines@ == s0.lines@ + edges_before(s0.buf@, s0.width as int, pts, i as int),
            decreases n - i,
        {
            let (x1, y1) = self.points[i];
            let mut j: usize = 0;
            while j < n
                invariant
                    self.wf(),
                    n == pts.len(),
                    i < n,
                    j <= n,
                    x1 == pts[i as int].0,
                    y1 == pts[i as int].1,
                    self.width == s0.width,
                    self.height == s0.height,
                    self.buf@ == s0.buf@,
                    self.points@ == pts,
                    self.valid_tags@ == s0.valid_tags@,
                    points_in_frame(pts, self.width as int, self.height as int),
                    self.lines@ == s0.lines@ + edges_before(s0.buf@, s0.width as int, pts, i as int)
                        + edges_from(s0.buf@, s0.width as int, pts, i as int, j as int),
                decreases n - j,
            {
                let (x2, y2) = self.points[n - 1 - j];
                proof {
                    assert(pts[i as int] == (x1, y1));
                    assert(pts[n - 1 - j] == (x2, y2));
                    assert(pts[i as int].0 < self.width);
                    assert(pts[n - 1 - j].0 < self.width);
                }
                self.check_edge(x1, y1, x2, y2);
                proof {
                    assert(pts[pts.len() - (j + 1)] == (x2, y2));
                    assert(self.lines@ =~= s0.lines@ + edges_before(
                        s0.buf@,
                        s0.width as int,
                        pts,
                        i as int,
                    ) + edges_from(s0.buf@, s0.width as int, pts, i as int, j + 1));
                }
                j = j + 1;
            }
            proof {
                assert(self.lines@ =~= s0.lines@ + edges_before(
                    s0.buf@,
                    s0.width as int,
                    pts,
                    i + 1,
                ));
            }
            i = i + 1;
        }
    }

    /// The checked lines that drawing shows, in order: those whose two ends lie in the frame
    /// and in one connected component.
    pub fn shown_lines(&self) -> (v: Vec<(usize, usize, usize, usize)>)
        requires
            self.wf(),
            self.height_spec() > 0 ==> self.width_spec() >= 1,
        ensures
            v@ == self.lines_spec().filter(
                |l: (usize, usize, usize, usize)|
                    line_shown(self.buf_spec(), self.width_spec(), self.height_spec(), l),
            ),
    {
        let ghost links = component_links(self.buf@, self.width as int, self.height as int);
        let ghost n = self.width * self.height;
        let ghost pred = |l: (usize, usize, usize, usize)|
            line_shown(self.buf@, self.width as int, self.height as int, l);
        let mut uf = self.connected_components();
        let mut v: Vec<(usize, usize, usize, usize)> = Vec::new();
        let mut k: usize = 0;
        while k < self.lines.len()
            invariant
                self.wf(),
                k <= self.lines@.len(),
                n == self.width * self.height,
                links == component_links(self.buf@, self.width as int, self.height as int),
                partition_matches(uf, n, links),
                pred == (|l: (usize, usize, usize, usize)|
                    line_shown(self.buf@, self.width as int, self.height as int, l)),
                v@ == self.lines@.take(k as int).filter(pred),
            decreases self.lines@.len() - k,
        {
            let (x1, y1, x2, y2) = self.lines[k];
            proof {
                assert(self.lines@.take(k + 1) =~= self.lines@.take(k as int).push(
                    self.lines@[k as int],
                ));
                self.lines@.take(k as int).lemma_filter_push(self.lines@[k as int], pred);
            }
            if x1 < self.width && y1 < self.height && x2 < self.width && y2 < self.height {
                proof {
                    lemma_in_frame(x1 as int, y1 as int, self.width as int, self.height as int);
                    lemma_in_frame(x2 as int, y2 as int, self.width as int, self.height as int);
                }
                let ia = y1 * self.width + x1;
                let ib = y2 * self.width + x2;
                let ghost u0 = uf;
                let ra = uf.find(ia);
                let rb = uf.find(ib);
                proof {
                    assert forall|i: int, j: int| 0 <= i < n && 0 <= j < n implies (
                    #[trigger] uf.same_set(i, j) <==> joined(links, i, j)) by {
                        assert(u0.same_set(i, j) <==> joined(links, i, j));
                    }
                    assert(u0.same_set(ia as int, ib as int) <==> joined(
                        links,
                        ia as int,
                        ib as int,
                    ));
                }
                if ra == rb {
                    v.push((x1, y1, x2, y2));
                }
            }
            k = k + 1;
        }
        proof {
            assert(self.lines@.take(k as int) =~= self.lines@);
        }
        v
    }

    /// Run corner detection, appending the corners in scan order.
    pub fn detect_corners(&mut self)
        requires
            old(self).wf(),
            old(self).width_spec() >= 3,
            old(self).width_spec() >= 7 ==> old(self).height_spec() >= 3,
        ensures
            final(self).wf(),
            final(self).width_spec() == old(self).width_spec(),
            final(self).height_spec() == old(self).height_spec(),
            final(self).buf_spec() == old(self).buf_spec(),
            final(self).lines_spec() == old(self).lines_spec(),
            final(self).valid_tags_spec() == old(self).valid_tags_spec(),
            final(self).points_spec() == old(self).points_spec() + corner_scan(
                buf_corner(old(self).buf_spec(), old(self).width_spec()),
                old(self).width_spec(),
                old(self).height_spec(),
            ),
            exactly_corners(
                final(self).points_spec().skip(old(self).points_spec().len() as int),
                final(self).buf_spec(),
                final(self).width_spec(),
                final(self).height_spec(),
            ),
    {
        let ghost corner = buf_corner(self.buf@, self.width as int);
        let ghost p0 = self.points@;
        let ghost s0 = *self;
        let xe = self.width - 3;
        let mut x: usize = 3;
        while x < xe
            invariant
                self.wf(),
                xe == self.width - 3,
                3 <= x,
                x <= xe || xe < 3,
                xe < 3 ==> x == 3,
                self.width >= 7 ==> self.height >= 3,
                self.width == s0.width,
                self.height == s0.height,
                self.buf@ == s0.buf@,
                self.lines@ == s0.lines@,
                self.valid_tags@ == s0.valid_tags@,
                corner == buf_corner(self.buf@, self.width as int),
                self.points@ == p0 + corners_before(corner, x as int, self.height - 4),
            decreases xe - x,
        {
            let ye = self.height - 3;
            let mut y: usize = 3;
            while y < ye
                invariant
                    self.wf(),
                    xe == self.width - 3,
                    3 <= x < xe,
                    ye == self.height - 3,
                    3 <= y,
                    y <= ye || ye < 3,
                    ye < 3 ==> y == 3,
                    self.width == s0.width,
                    self.height == s0.height,
                    self.buf@ == s0.buf@,
                    self.lines@ == s0.lines@,
                    self.valid_tags@ == s0.valid_tags@,
                    corner == buf_corner(self.buf@, self.width as int),
                    self.points@ == p0 + corners_before(corner, x as int, self.height - 4)
                        + corner_column(corner, x as int, y as int),
                decreases ye - y,
            {
                if self.is_corner(x, y) {
                    self.points.push((x, y));
                }
                proof {
                    assert(self.points@ =~= p0 + corners_before(corner, x as int, self.height - 4)
                        + corner_column(corner, x as int, y + 1));
                }
                y = y + 1;
            }
            proof {
                if ye >= 3 {
                    assert(y == ye);
                } else {
                    assert(corner_column(corner, x as int, y as int) =~= seq![]);
                    assert(corner_column(corner, x as int, self.height - 4 + 1) =~= seq![]);
                }
                assert(corners_before(corner, x + 1, self.height - 4) == corners_before(
                    corner,
                    x as int,
                    self.height - 4,
                ) + corner_column(corner, x as int, self.height - 4 + 1));
                assert(self.points@ =~= p0 + corners_before(corner, x + 1, self.height - 4));
            }
            x = x + 1;
        }
        proof {
            if xe >= 3 {
                assert(x == xe);
            } else {
                assert(corners_before(corner, x as int, self.height - 4) =~= seq![]);
                assert(corners_before(corner, self.width - 3, self.height - 4) =~= seq![]);
            }
            assert(self.points@.skip(p0.len() as int) =~= corner_scan(
                corner,
                self.width as int,
                self.height as int,
            ));
            lemma_corner_scan_exact(self.buf@, self.width as int, self.height as int);
        }
    }
}

} // verus!
