use vstd::prelude::*;

use crate::detector::{corner_rule, corner_scan, points_in_padding, corners_before, corner_column, count4, lemma_corner_scan_complete, lemma_corner_scan_in_frame, lemma_corner_scan_sound, lemma_in_frame, lemma_mul_bound, lemma_xor4_odd};
use crate::utils::{coords_small, gift_wrap, orientations_defined, wrap_terminates, PresentWrapper};

verus! {

/// Binary classification of a thresholded pixel.
#[derive(Clone, Copy, PartialEq, Eq, PartialOrd, Ord, Debug, Structural)]
pub enum Color {
    Black,
    White,
    Other,
}

impl Color {
    /// Whether the color is black (like the tag markings)
    pub fn is_black(&self) -> (b: bool)
        ensures
            b == (*self == Color::Black),
    {
        *self == Color::Black
    }

    /// Whether the color is white (like the paper)
    pub fn is_white(&self) -> (b: bool)
        ensures
            b == (*self == Color::White),
    {
        *self == Color::White
    }

    /// Whether the color is relevant to tag detection
    pub fn is_good(&self) -> (b: bool)
        ensures
            b == (*self != Color::Other),
    {
        *self != Color::Other
    }
}

/// Color of the pixel at (`x`, `y`); a negative coordinate or an index past the end of the
/// buffer reads as `Other`.
pub open spec fn color_at(buf: Seq<Color>, w: int, x: int, y: int) -> Color {
    if 0 <= x && 0 <= y && y * w + x < buf.len() {
        buf[y * w + x]
    } else {
        Color::Other
    }
}

/// Fixed threshold of a gray value: below 60 is black, above 160 is white.
pub open spec fn fixed_class(g: u8) -> Color {
    if g < 60 {
        Color::Black
    } else if g > 160 {
        Color::White
    } else {
        Color::Other
    }
}

/// The corner predicate of a thresholded buffer.
pub open spec fn buf_corner(buf: Seq<Color>, w: int) -> spec_fn(int, int) -> bool {
    |x: int, y: int|
        corner_rule(
            |a: int, b: int| color_at(buf, w, a, b) == Color::Black,
            |a: int, b: int| color_at(buf, w, a, b) != Color::Other,
            x,
            y,
        )
}

/// Pixel (`x`, `y`) of a thresholded frame `w` pixels wide is black.
pub open spec fn black_at(buf: Seq<Color>, w: int, x: int, y: int) -> bool {
    color_at(buf, w, x, y) == Color::Black
}

/// Pixel (`x`, `y`) looks like the corner of a dark shape: it is black, an odd number of its
/// four diagonal neighbours is black, and its four far diagonal points, three pixels out
/// each way, are all black or white with an odd number of them black.
pub open spec fn fast_corner(buf: Seq<Color>, w: int, x: int, y: int) -> bool {
    &&& black_at(buf, w, x, y)
    &&& count4(
        black_at(buf, w, x - 1, y - 1),
        black_at(buf, w, x + 1, y - 1),
        black_at(buf, w, x - 1, y + 1),
        black_at(buf, w, x + 1, y + 1),
    ) % 2 == 1
    &&& color_at(buf, w, x + 3, y - 3) != Color::Other
    &&& color_at(buf, w, x + 3, y + 3) != Color::Other
    &&& color_at(buf, w, x - 3, y + 3) != Color::Other
    &&& color_at(buf, w, x - 3, y - 3) != Color::Other
    &&& count4(
        black_at(buf, w, x + 3, y - 3),
        black_at(buf, w, x + 3, y + 3),
        black_at(buf, w, x - 3, y + 3),
        black_at(buf, w, x - 3, y - 3),
    ) % 2 == 1
}

/// `pts` are the corners of a `w` by `h` thresholded frame inside its 3-pixel padding: each
/// point lies there and looks like a corner, and each pixel there that looks like one is
/// among them.
pub open spec fn exactly_corners(pts: Seq<(usize, usize)>, buf: Seq<Color>, w: int, h: int) -> bool {
    &&& forall|k: int|
        0 <= k < pts.len() ==> 3 <= (#[trigger] pts[k]).0 < w - 3 && 3 <= pts[k].1 < h - 3
            && fast_corner(buf, w, pts[k].0 as int, pts[k].1 as int)
    &&& forall|x: int, y: int|
        3 <= x < w - 3 && 3 <= y < h - 3 && #[trigger] fast_corner(buf, w, x, y) ==> pts.contains(
            (x as usize, y as usize),
        )
}

/// The corner test of the thresholded buffer is the corner shape of `fast_corner`.
proof fn lemma_buf_corner_shape(buf: Seq<Color>, w: int, x: int, y: int)
    ensures
        buf_corner(buf, w)(x, y) <==> fast_corner(buf, w, x, y),
{
    lemma_xor4_odd(
        black_at(buf, w, x - 1, y - 1),
        black_at(buf, w, x + 1, y - 1),
        black_at(buf, w, x - 1, y + 1),
        black_at(buf, w, x + 1, y + 1),
    );
    lemma_xor4_odd(
        black_at(buf, w, x + 3, y - 3),
        black_at(buf, w, x + 3, y + 3),
        black_at(buf, w, x - 3, y + 3),
        black_at(buf, w, x - 3, y - 3),
    );
}

/// Corner detection finds exactly the corners: the scan of a thresholded frame holds every
/// pixel inside the 3-pixel padding that is black, has an odd number of black diagonal
/// neighbours, and has four far diagonal points that are all black or white, an odd number
/// of them black; and it holds no other point.
pub proof fn lemma_corner_scan_exact(buf: Seq<Color>, w: int, h: int)
    requires
        0 <= w <= usize::MAX,
        0 <= h <= usize::MAX,
    ensures
        exactly_corners(corner_scan(buf_corner(buf, w), w, h), buf, w, h),
{
    let corner = buf_corner(buf, w);
    let pts = corner_scan(corner, w, h);
    lemma_corner_scan_in_frame(corner, w, h);
    lemma_corner_scan_sound(corner, w, h);
    lemma_corner_scan_complete(corner, w, h);
    assert forall|k: int| 0 <= k < pts.len() implies 3 <= (#[trigger] pts[k]).0 < w - 3 && 3
        <= pts[k].1 < h - 3 && fast_corner(buf, w, pts[k].0 as int, pts[k].1 as int) by {
        lemma_buf_corner_shape(buf, w, pts[k].0 as int, pts[k].1 as int);
    }
    assert forall|x: int, y: int|
        3 <= x < w - 3 && 3 <= y < h - 3 && #[trigger] fast_corner(buf, w, x, y) implies pts.contains(
        (x as usize, y as usize),
    ) by {
        lemma_buf_corner_shape(buf, w, x, y);
        assert(corner(x, y));
    }
}

/// The corners that thresholding `gray` with the fixed threshold and scanning yield.
pub open spec fn frame_corners(gray: Seq<u8>, w: int, h: int) -> Seq<(usize, usize)> {
    corner_scan(buf_corner(Seq::new(gray.len(), |i: int| fixed_class(gray[i])), w), w, h)
}

/// Gift wrapping of `pts` is defined and ends.
pub open spec fn hull_ready(pts: Seq<(usize, usize)>) -> bool {
    &&& pts.len() > 0
    &&& orientations_defined(pts)
    &&& wrap_terminates(pts)
}

/// The marker segments that the quad search records for a hull: one degenerate segment per
/// hull point.
pub open spec fn hull_marks(hull: Seq<(usize, usize)>) -> Seq<(usize, usize, usize, usize)> {
    Seq::new(hull.len(), |k: int| (hull[k].0, hull[k].1, hull[k].0, hull[k].1))
}

/// AprilTag detector
pub struct Detector {
    buf: Vec<Color>,
    points: Vec<(usize, usize)>,
    lines: Vec<(usize, usize, usize, usize)>,
    width: usize,
    height: usize,
}

impl Detector {
    /// One pixel per coordinate, and the frame size fits the corner buffer.
    pub closed spec fn wf(&self) -> bool {
        &&& self.buf@.len() == self.width * self.height
        &&& self.width * self.height * 16 <= isize::MAX
    }

    /// Width of input frames.
    pub closed spec fn width_spec(&self) -> int {
        self.width as int
    }

    /// Height of input frames.
    pub closed spec fn height_spec(&self) -> int {
        self.height as int
    }

    /// The thresholded buffer, row by row.
    pub closed spec fn buf_spec(&self) -> Seq<Color> {
        self.buf@
    }

    /// Detected corners.
    pub closed spec fn points_spec(&self) -> Seq<(usize, usize)> {
        self.points@
    }

    /// Recorded segments (x1, y1, x2, y2).
    pub closed spec fn lines_spec(&self) -> Seq<(usize, usize, usize, usize)> {
        self.lines@
    }

    /// Initialize a new detector for the specified dimensions.
    pub fn new(width: usize, height: usize) -> (d: Self)
        requires
            width * height * 16 <= isize::MAX,
        ensures
            d.wf(),
            d.width_spec() == width,
            d.height_spec() == height,
            d.buf_spec() == Seq::new((width * height) as nat, |i: int| Color::Other),
            d.points_spec() == Seq::<(usize, usize)>::empty(),
            d.lines_spec() == Seq::<(usize, usize, usize, usize)>::empty(),
    {
        let n = width * height;
        let mut buf: Vec<Color> = Vec::new();
        let mut i: usize = 0;
        while i < n
            invariant
                i <= n,
                buf@ == Seq::new(i as nat, |k: int| Color::Other),
            decreases n - i,
        {
            buf.push(Color::Other);
            i = i + 1;
        }
        Detector { buf, points: Vec::new(), lines: Vec::new(), width, height }
    }

    /// Histogram of the first byte of each pixel; the result is not used.
    pub fn calc_otsu(&mut self, input: &[u8])
        requires
            old(self).wf(),
            input@.len() >= 3 * old(self).width_spec() * old(self).height_spec(),
        ensures
            *final(self) == *old(self),
    {
        let n = self.width * self.height;
        let mut hist: Vec<usize> = Vec::new();
        let mut v: usize = 0;
        while v < 256
            invariant
                v <= 256,
                hist@.len() == v,
                forall|k: int| 0 <= k < v ==> #[trigger] hist@[k] == 0,
            decreases 256 - v,
        {
            hist.push(0);
            v = v + 1;
        }
        proof {
            assert(3 * self.width * self.height >= self.width * self.height) by (nonlinear_arith);
        }
        let mut i: usize = 0;
        while i < n
            invariant
                n == self.width * self.height,
                n <= input@.len(),
                i <= n,
                hist@.len() == 256,
                forall|k: int| 0 <= k < 256 ==> #[trigger] hist@[k] <= i,
            decreases n - i,
        {
            let b = input[i] as usize;
            let c = hist[b];
            hist.set(b, c + 1);
            i = i + 1;
        }
    }

    /// Threshold a gray buffer: below 60 is black, above 160 is white.
    fn thresh(&mut self, gray: &[u8])
        requires
            old(self).wf(),
            gray@.len() == old(self).width_spec() * old(self).height_spec(),
        ensures
            final(self).wf(),
            final(self).width_spec() == old(self).width_spec(),
            final(self).height_spec() == old(self).height_spec(),
            final(self).points_spec() == old(self).points_spec(),
            final(self).lines_spec() == old(self).lines_spec(),
            final(self).buf_spec() == Seq::new(gray@.len(), |i: int| fixed_class(gray@[i])),
    {
        let n = self.width * self.height;
        let mut nb: Vec<Color> = Vec::new();
        let mut i: usize = 0;
        while i < n
            invariant
                n == gray@.len(),
                i <= n,
                nb@ == Seq::new(i as nat, |k: int| fixed_class(gray@[k])),
            decreases n - i,
        {
            let g = gray[i];
            // 60 is a "kinda works" value
            let c = if g < 60 {
                Color::Black
            } else if g > 160 {
                Color::White
            } else {
                Color::Other
            };
            nb.push(c);
            proof {
                assert(nb@ =~= Seq::new((i + 1) as nat, |k: int| fixed_class(gray@[k])));
            }
            i = i + 1;
        }
        self.buf = nb;
    }

    /// Width of input frames.
    pub fn width(&self) -> (w: usize)
        ensures
            w == self.width_spec(),
    {
        self.width
    }

    /// Height of input frames.
    pub fn height(&self) -> (h: usize)
        ensures
            h == self.height_spec(),
    {
        self.height
    }

    /// The thresholded frame, row-major.
    pub fn buffer(&self) -> (b: &Vec<Color>)
        ensures
            b@ == self.buf_spec(),
    {
        &self.buf
    }

    /// The corners found in the last frame.
    pub fn corners(&self) -> (p: &Vec<(usize, usize)>)
        ensures
            p@ == self.points_spec(),
    {
        &self.points
    }

    /// The segments recorded for the last frame.
    pub fn lines(&self) -> (l: &Vec<(usize, usize, usize, usize)>)
        ensures
            l@ == self.lines_spec(),
    {
        &self.lines
    }

    /// Color of the pixel at (`x`, `y`); `Other` off the buffer.
    fn color_at(&self, x: isize, y: isize) -> (c: Color)
        requires
            self.wf(),
            y <= self.height_spec() + 16,
        ensures
            c == color_at(self.buf_spec(), self.width_spec(), x as int, y as int),
    {
        if x < 0 || y < 0 {
            Color::Other
        } else if (y as usize) > self.height {
            proof {
                assert((y as int) * self.width >= (self.height + 1) * self.width) by (nonlinear_arith)
                    requires
                        y as int >= self.height + 1,
                        self.width >= 0,
                ;
                assert((self.height + 1) * self.width == self.height * self.width + self.width)
                    by (nonlinear_arith);
                assert(self.width * self.height == self.height * self.width) by (nonlinear_arith);
            }
            Color::Other
        } else {
            proof {
                assert((y as int) * self.width <= self.height * self.width) by (nonlinear_arith)
                    requires
                        y as int <= self.height,
                        self.width >= 0,
                ;
                assert(self.width * self.height == self.height * self.width) by (nonlinear_arith);
            }
            let i = (y as usize) * self.width + (x as usize);
            if i < self.buf.len() {
                self.buf[i]
            } else {
                Color::Other
            }
        }
    }

    /// Whether (`x`, `y`) passes the corner test.
    fn is_corner(&self, x: usize, y: usize) -> (b: bool)
        requires
            self.wf(),
            3 <= x,
            3 <= y,
            x < self.width_spec(),
            y < self.height_spec(),
        ensures
            b == buf_corner(self.buf_spec(), self.width_spec())(x as int, y as int),
    {
        proof {
            lemma_mul_bound(self.width as int, self.height as int);
            lemma_mul_bound(self.height as int, self.width as int);
            assert(self.width * self.height == self.height * self.width) by (nonlinear_arith);
        }
        let xi = x as isize;
        let yi = y as isize;
        let p = self.color_at(xi, yi);
        if p.is_black() {
            let up_left = self.color_at(xi - 1, yi - 1);
            let up_right = self.color_at(xi + 1, yi - 1);
            let down_left = self.color_at(xi - 1, yi + 1);
            let down_right = self.color_at(xi + 1, yi + 1);
            let clean = up_left.is_black() ^ up_right.is_black() ^ down_left.is_black()
                ^ down_right.is_black();
            if clean {
                // Furthest top right
                let p3 = self.color_at(xi + 3, yi - 3);
                // Furthest bottom right
                let p7 = self.color_at(xi + 3, yi + 3);
                // Furthest bottom left
                let p11 = self.color_at(xi - 3, yi + 3);
                // Furthest top left
                let p15 = self.color_at(xi - 3, yi - 3);
                (p3.is_good() && p7.is_good() && p11.is_good() && p15.is_good()) && (p3.is_black()
                    ^ p7.is_black() ^ p11.is_black() ^ p15.is_black())
            } else {
                false
            }
        } else {
            false
        }
    }

    /// Scan the frame for corners, appending them in scan order.
    fn detect_corners(&mut self)
        requires
            old(self).wf(),
            old(self).width_spec() >= 3,
            old(self).width_spec() >= 7 ==> old(self).height_spec() >= 3,
        ensures
            final(self).wf(),
            final(self).width_spec() == old(self).width_spec(),
            final(self).height_spec() == old(self).height_spec(),
            final(self).buf_spec() == old(self).buf_spec(),
            final(self).lines_spec() == old(self).lines_spec(),
            final(self).points_spec() == old(self).points_spec() + corner_scan(
                buf_corner(old(self).buf_spec(), old(self).width_spec()),
                old(self).width_spec(),
                old(self).height_spec(),
            ),
    {
        let ghost corner = buf_corner(self.buf@, self.width as int);
        let ghost p0 = self.points@;
        let ghost s0 = *self;
        let xe = self.width - 3;
        let mut x: usize = 3;
        while x < xe
            invariant
                self.wf(),
                xe == self.width - 3,
                3 <= x,
                x <= xe || xe < 3,
                xe < 3 ==> x == 3,
                self.width >= 7 ==> self.height >= 3,
                self.width == s0.width,
                self.height == s0.height,
                self.buf@ == s0.buf@,
                self.lines@ == s0.lines@,
                corner == buf_corner(self.buf@, self.width as int),
                self.points@ == p0 + corners_before(corner, x as int, self.height - 4),
            decreases xe - x,
        {
            let ye = self.height - 3;
            let mut y: usize = 3;
            while y < ye
                invariant
                    self.wf(),
                    xe == self.width - 3,
                    3 <= x < xe,
                    ye == self.height - 3,
                    3 <= y,
                    y <= ye || ye < 3,
                    ye < 3 ==> y == 3,
                    self.width == s0.width,
                    self.height == s0.height,
                    self.buf@ == s0.buf@,
                    self.lines@ == s0.lines@,
                    corner == buf_corner(self.buf@, self.width as int),
                    self.points@ == p0 + corners_before(corner, x as int, self.height - 4)
                        + corner_column(corner, x as int, y as int),
                decreases ye - y,
            {
                if self.is_corner(x, y) {
                    self.points.push((x, y));
                }
                proof {
                    assert(self.points@ =~= p0 + corners_before(corner, x as int, self.height - 4)
                        + corner_column(corner, x as int, y + 1));
                }
                y = y + 1;
            }
            proof {
                if ye >= 3 {
                    assert(y == ye);
                } else {
                    assert(corner_column(corner, x as int, y as int) =~= seq![]);
                    assert(corner_column(corner, x as int, self.height - 4 + 1) =~= seq![]);
                }
                assert(corners_before(corner, x + 1, self.height - 4) == corners_before(
                    corner,
                    x as int,
                    self.height - 4,
                ) + corner_column(corner, x as int, self.height - 4 + 1));
                assert(self.points@ =~= p0 + corners_before(corner, x + 1, self.height - 4));
            }
            x = x + 1;
        }
        proof {
            if xe >= 3 {
                assert(x == xe);
            } else {
                assert(corners_before(corner, x as int, self.height - 4) =~= seq![]);
                assert(corners_before(corner, self.width - 3, self.height - 4) =~= seq![]);
            }
        }
    }

    /// Record a marker segment for every point of `hull`, in order.
    fn mark_hull(&mut self, hull: &Vec<(usize, usize)>)
        requires
            old(self).wf(),
        ensures
            final(self).wf(),
            final(self).width_spec() == old(self).width_spec(),
            final(self).height_spec() == old(self).height_spec(),
            final(self).buf_spec() == old(self).buf_spec(),
            final(self).points_spec() == old(self).points_spec(),
            final(self).lines_spec() == old(self).lines_spec() + hull_marks(hull@),
    {
        let ghost l0 = self.lines@;
        let ghost s0 = *self;
        let mut k: usize = 0;
        while k < hull.len()
            invariant
                self.width == s0.width,
                self.height == s0.height,
                self.buf@ == s0.buf@,
                self.points@ == s0.points@,
                s0.wf(),
                k <= hull@.len(),
                self.lines@ == l0 + hull_marks(hull@).take(k as int),
            decreases hull@.len() - k,
        {
            let p = hull[k];
            self.lines.push((p.0, p.1, p.0, p.1));
            proof {
                assert(hull_marks(hull@).take(k + 1) =~= hull_marks(hull@).take(k as int).push(
                    (p.0, p.1, p.0, p.1),
                ));
            }
            k = k + 1;
        }
        proof {
            assert(hull_marks(hull@).take(k as int) =~= hull_marks(hull@));
        }
    }

    /// Find quadrilaterals: record a marker segment for every point of the corners' hull.
    fn find_quads(&mut self)
        requires
            old(self).wf(),
            hull_ready(old(self).points_spec()),
        ensures
            final(self).wf(),
            final(self).width_spec() == old(self).width_spec(),
            final(self).height_spec() == old(self).height_spec(),
            final(self).buf_spec() == old(self).buf_spec(),
            final(self).points_spec() == old(self).points_spec(),
            final(self).lines_spec() == old(self).lines_spec() + hull_marks(
                gift_wrap(old(self).points_spec()),
            ),
    {
        let hull = PresentWrapper::find_convex_hull(self.points.as_slice());
        self.mark_hull(&hull);
    }

    /// Process a gray frame: threshold it, find the corners, and mark their hull.
    pub fn process_frame(&mut self, gray: &[u8])
        requires
            old(self).wf(),
            gray@.len() == old(self).width_spec() * old(self).height_spec(),
            old(self).width_spec() >= 3,
            old(self).width_spec() >= 7 ==> old(self).height_spec() >= 3,
            hull_ready(
                frame_corners(gray@, old(self).width_spec(), old(self).height_spec()),
            ),
        ensures
            final(self).wf(),
            final(self).width_spec() == old(self).width_spec(),
            final(self).height_spec() == old(self).height_spec(),
            final(self).buf_spec() == Seq::new(gray@.len(), |i: int| fixed_class(gray@[i])),
            final(self).points_spec() == frame_corners(
                gray@,
                old(self).width_spec(),
                old(self).height_spec(),
            ),
            points_in_padding(
                final(self).points_spec(),
                final(self).width_spec(),
                final(self).height_spec(),
            ),
            exactly_corners(
                final(self).points_spec(),
                final(self).buf_spec(),
                final(self).width_spec(),
                final(self).height_spec(),
            ),
            final(self).lines_spec() == hull_marks(gift_wrap(final(self).points_spec())),
    {
        self.thresh(gray);
        self.points.clear();
        self.lines.clear();
        self.detect_corners();
        proof {
            assert(self.points@ =~= frame_corners(gray@, self.width as int, self.height as int));
            lemma_corner_scan_in_frame(
                buf_corner(self.buf@, self.width as int),
                self.width as int,
                self.height as int,
            );
            lemma_corner_scan_exact(self.buf@, self.width as int, self.height as int);
        }
        self.find_quads();
        proof {
            assert(self.lines@ =~= hull_marks(gift_wrap(self.points@)));
        }
    }
    /// Process a gray frame as `process_frame` does, for any frame: when the corners found
    /// are none, have a coordinate of 2^15 or more, or make gift wrapping run forever, no
    /// hull is marked and `false` is returned.
    pub fn try_process_frame(&mut self, gray: &[u8]) -> (ok: bool)
        requires
            old(self).wf(),
            gray@.len() == old(self).width_spec() * old(self).height_spec(),
            old(self).width_spec() >= 3,
            old(self).width_spec() >= 7 ==> old(self).height_spec() >= 3,
        ensures
            final(self).wf(),
            final(self).width_spec() == old(self).width_spec(),
            final(self).height_spec() == old(self).height_spec(),
            final(self).buf_spec() == Seq::new(gray@.len(), |i: int| fixed_class(gray@[i])),
            final(self).points_spec() == frame_corners(
                gray@,
                old(self).width_spec(),
                old(self).height_spec(),
            ),
            points_in_padding(
                final(self).points_spec(),
                final(self).width_spec(),
                final(self).height_spec(),
            ),
            exactly_corners(
                final(self).points_spec(),
                final(self).buf_spec(),
                final(self).width_spec(),
                final(self).height_spec(),
            ),
            ok <==> (final(self).points_spec().len() > 0 && coords_small(final(self).points_spec())
                && wrap_terminates(final(self).points_spec())),
            ok ==> final(self).lines_spec() == hull_marks(gift_wrap(final(self).points_spec())),
            !ok ==> final(self).lines_spec().len() == 0,
    {
        self.thresh(gray);
        self.points.clear();
        self.lines.clear();
        self.detect_corners();
        proof {
            assert(self.points@ =~= frame_corners(gray@, self.width as int, self.height as int));
            lemma_corner_scan_in_frame(
                buf_corner(self.buf@, self.width as int),
                self.width as int,
                self.height as int,
            );
            lemma_corner_scan_exact(self.buf@, self.width as int, self.height as int);
        }
        match PresentWrapper::try_find_convex_hull(self.points.as_slice()) {
            Some(hull) => {
                self.mark_hull(&hull);
                proof {
                    assert(self.lines@ =~= hull_marks(gift_wrap(self.points@)));
                }
                true
            },
            None => false,
        }
    }
}

} // verus!