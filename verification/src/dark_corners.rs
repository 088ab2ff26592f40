use vstd::prelude::*;

use crate::detector::{
    corner_column, corners_before, count4, lemma_corners_before_bounds,
    lemma_corners_before_complete, lemma_corners_before_sound, points_in_frame,
};

verus! {

/// Width of the frames the dark-corner pass works on.
pub const FRAME_WIDTH: usize = 1080;

/// Height of the frames the dark-corner pass works on.
pub const FRAME_HEIGHT: usize = 720;

/// Gray level below which a pixel counts as dark.
pub const DARK_LEVEL: u8 = 60;

/// The dark mask of a gray frame: `true` where the gray level is below `DARK_LEVEL`.
pub open spec fn dark_mask(gray: Seq<u8>) -> Seq<bool> {
    gray.map_values(|g: u8| g < DARK_LEVEL)
}

/// Whether the pixel at (`x`, `y`) of a row-major mask `w` pixels wide is dark. The index
/// is taken row-major, so an `x` of `w` reads the first pixel of the next row; an index past
/// the end of the mask reads as not dark.
pub open spec fn dark_at(mask: Seq<bool>, w: int, x: int, y: int) -> bool {
    0 <= x && 0 <= y && y * w + x < mask.len() && mask[y * w + x]
}

/// The dark-corner test: the pixel is dark, exactly one of the four diagonal points three
/// pixels away is dark, and so are the two points three pixels away along the axes on either
/// side of that diagonal.
pub open spec fn dark_corner_rule(dark: spec_fn(int, int) -> bool, x: int, y: int) -> bool {
    let p1 = dark(x, y - 3);
    let p3 = dark(x + 3, y - 3);
    let p5 = dark(x + 3, y);
    let p7 = dark(x + 3, y + 3);
    let p9 = dark(x, y + 3);
    let p11 = dark(x - 3, y + 3);
    let p13 = dark(x - 3, y);
    let p15 = dark(x - 3, y - 3);
    &&& dark(x, y)
    &&& {
        ||| (p1 && p5 && p3 && !p7 && !p11 && !p15)
        ||| (p5 && p9 && !p3 && p7 && !p11 && !p15)
        ||| (p9 && p13 && !p3 && !p7 && p11 && !p15)
        ||| (p13 && p1 && !p3 && !p7 && !p11 && p15)
    }
}

/// All dark corners of a `w` by `h` frame in scan order: `x` from 3 to `w - 3` and, within
/// each column, `y` from 3 to `h - 3`, both ends included.
pub open spec fn full_scan(corner: spec_fn(int, int) -> bool, w: int, h: int) -> Seq<
    (usize, usize),
> {
    corners_before(corner, w - 2, h - 3)
}

/// The corner predicate of a dark mask `w` pixels wide.
pub open spec fn mask_corner(mask: Seq<bool>, w: int) -> spec_fn(int, int) -> bool {
    |x: int, y: int| dark_corner_rule(|a: int, b: int| dark_at(mask, w, a, b), x, y)
}

/// The pixel at (`x`, `y`) of a gray frame 1080 pixels wide is dark: its row-major index
/// lies in the frame and its gray level is below 60.
pub open spec fn dark_gray(gray: Seq<u8>, x: int, y: int) -> bool {
    0 <= x && 0 <= y && y * 1080 + x < gray.len() && gray[y * 1080 + x] < 60
}

/// Pixel (`x`, `y`) of a gray frame is a dark corner: it is dark; exactly one of its four
/// diagonal points three pixels out is dark; and the two points three pixels out along the
/// axes on either side of that diagonal are dark too (for the top-right one (`x + 3`,
/// `y - 3`): (`x`, `y - 3`) and (`x + 3`, `y`)).
pub open spec fn dark_corner_shape(gray: Seq<u8>, x: int, y: int) -> bool {
    &&& dark_gray(gray, x, y)
    &&& count4(
        dark_gray(gray, x + 3, y - 3),
        dark_gray(gray, x + 3, y + 3),
        dark_gray(gray, x - 3, y + 3),
        dark_gray(gray, x - 3, y - 3),
    ) == 1
    &&& dark_gray(gray, x + 3, y - 3) ==> dark_gray(gray, x, y - 3) && dark_gray(gray, x + 3, y)
    &&& dark_gray(gray, x + 3, y + 3) ==> dark_gray(gray, x + 3, y) && dark_gray(gray, x, y + 3)
    &&& dark_gray(gray, x - 3, y + 3) ==> dark_gray(gray, x, y + 3) && dark_gray(gray, x - 3, y)
    &&& dark_gray(gray, x - 3, y - 3) ==> dark_gray(gray, x - 3, y) && dark_gray(gray, x, y - 3)
}

/// `pts` are the dark corners of a 1080 by 720 gray frame with `3 <= x <= 1077` and
/// `3 <= y <= 717`: each point lies there and is a dark corner, and each such pixel is among
/// them.
pub open spec fn exactly_dark_corners(pts: Seq<(usize, usize)>, gray: Seq<u8>) -> bool {
    &&& forall|k: int|
        0 <= k < pts.len() ==> 3 <= (#[trigger] pts[k]).0 <= 1077 && 3 <= pts[k].1 <= 717
            && dark_corner_shape(gray, pts[k].0 as int, pts[k].1 as int)
    &&& forall|x: int, y: int|
        3 <= x <= 1077 && 3 <= y <= 717 && #[trigger] dark_corner_shape(gray, x, y)
            ==> pts.contains((x as usize, y as usize))
}

/// The dark-corner test on the dark mask of a gray frame is the shape of `dark_corner_shape`.
proof fn lemma_mask_corner_shape(gray: Seq<u8>, x: int, y: int)
    ensures
        mask_corner(dark_mask(gray), FRAME_WIDTH as int)(x, y) <==> dark_corner_shape(gray, x, y),
{
    let mask = dark_mask(gray);
    assert forall|a: int, b: int| #[trigger] dark_at(mask, FRAME_WIDTH as int, a, b) == dark_gray(
        gray,
        a,
        b,
    ) by {
        if 0 <= a && 0 <= b && b * 1080 + a < gray.len() {
            assert(mask[b * 1080 + a] == (gray[b * 1080 + a] < DARK_LEVEL));
        }
    }
}

/// The dark-corner pass finds exactly the dark corners: its scan of a gray frame holds every
/// pixel with `3 <= x <= 1077` and `3 <= y <= 717` that is dark, has exactly one dark
/// diagonal point three pixels out, and has the two axis points beside that diagonal dark;
/// and it holds no other point.
pub proof fn lemma_full_scan_exact(gray: Seq<u8>)
    ensures
        exactly_dark_corners(
            full_scan(mask_corner(dark_mask(gray), FRAME_WIDTH as int), FRAME_WIDTH as int, FRAME_HEIGHT as int),
            gray,
        ),
{
    let corner = mask_corner(dark_mask(gray), FRAME_WIDTH as int);
    let pts = full_scan(corner, FRAME_WIDTH as int, FRAME_HEIGHT as int);
    lemma_corners_before_bounds(corner, FRAME_WIDTH - 2, FRAME_HEIGHT - 3);
    lemma_corners_before_sound(corner, FRAME_WIDTH - 2, FRAME_HEIGHT - 3);
    lemma_corners_before_complete(corner, FRAME_WIDTH - 2, FRAME_HEIGHT - 3);
    assert forall|k: int| 0 <= k < pts.len() implies 3 <= (#[trigger] pts[k]).0 <= 1077 && 3
        <= pts[k].1 <= 717 && dark_corner_shape(gray, pts[k].0 as int, pts[k].1 as int) by {
        lemma_mask_corner_shape(gray, pts[k].0 as int, pts[k].1 as int);
    }
    assert forall|x: int, y: int|
        3 <= x <= 1077 && 3 <= y <= 717 && #[trigger] dark_corner_shape(gray, x, y)
            implies pts.contains((x as usize, y as usize)) by {
        lemma_mask_corner_shape(gray, x, y);
        assert(corner(x, y));
    }
}

/// The dark mask of a frame, computed pixel by pixel.
fn build_mask(gray: &[u8]) -> (mask: Vec<bool>)
    ensures
        mask@ == dark_mask(gray@),
{
    let mut mask: Vec<bool> = Vec::with_capacity(gray.len());
    let mut i: usize = 0;
    while i < gray.len()
        invariant
            i <= gray.len(),
            mask@ == dark_mask(gray@).take(i as int),
        decreases gray.len() - i,
    {
        mask.push(gray[i] < DARK_LEVEL);
        proof {
            assert(dark_mask(gray@).take(i + 1) =~= dark_mask(gray@).take(i as int).push(
                gray@[i as int] < DARK_LEVEL,
            ));
        }
        i = i + 1;
    }
    proof {
        assert(dark_mask(gray@).take(gray.len() as int) =~= dark_mask(gray@));
    }
    mask
}

/// Read the mask at (`x`, `y`), past the end reading as not dark.
fn dark_px(mask: &Vec<bool>, x: usize, y: usize) -> (b: bool)
    requires
        mask.len() == FRAME_WIDTH * FRAME_HEIGHT,
        x <= FRAME_WIDTH,
        y <= FRAME_HEIGHT,
    ensures
        b == dark_at(mask@, FRAME_WIDTH as int, x as int, y as int),
{
    let i = y * FRAME_WIDTH + x;
    if i < mask.len() {
        mask[i]
    } else {
        false
    }
}

/// Whether (`x`, `y`) passes the dark-corner test, checked in the same order as the test
/// reads: the pixel itself, then the diagonals, then the axis points.
fn is_dark_corner(mask: &Vec<bool>, x: usize, y: usize) -> (b: bool)
    requires
        mask.len() == FRAME_WIDTH * FRAME_HEIGHT,
        3 <= x <= FRAME_WIDTH - 3,
        3 <= y <= FRAME_HEIGHT - 3,
    ensures
        b == (mask_corner(mask@, FRAME_WIDTH as int))(x as int, y as int),
{
    let p = dark_px(mask, x, y);
    if !p {
        return false;
    }
    let p3 = dark_px(mask, x + 3, y - 3);
    let p7 = dark_px(mask, x + 3, y + 3);
    let p11 = dark_px(mask, x - 3, y + 3);
    let p15 = dark_px(mask, x - 3, y - 3);
    if !((p3 && !p7 && !p11 && !p15) || (!p3 && p7 && !p11 && !p15) || (!p3 && !p7 && p11 && !p15)
        || (!p3 && !p7 && !p11 && p15)) {
        return false;
    }
    let p1 = dark_px(mask, x, y - 3);
    let p5 = dark_px(mask, x + 3, y);
    let p9 = dark_px(mask, x, y + 3);
    let p13 = dark_px(mask, x - 3, y);
    (p1 && p5 && p3 && !p7 && !p11 && !p15) || (p5 && p9 && !p3 && p7 && !p11 && !p15) || (p9
        && p13 && !p3 && !p7 && p11 && !p15) || (p13 && p1 && !p3 && !p7 && !p11 && p15)
}

/// Find the dark corners of a 1080 by 720 gray frame, in scan order: `x` from 3 to 1077,
/// and within each column `y` from 3 to 717. Each corner found is a dark pixel of the frame.
pub fn myalgo(gray: &[u8]) -> (corners: Vec<(usize, usize)>)
    requires
        gray.len() == FRAME_WIDTH * FRAME_HEIGHT,
    ensures
        corners@ == full_scan(
            mask_corner(dark_mask(gray@), FRAME_WIDTH as int),
            FRAME_WIDTH as int,
            FRAME_HEIGHT as int,
        ),
        points_in_frame(corners@, FRAME_WIDTH as int, FRAME_HEIGHT as int),
        forall|k: int|
            0 <= k < corners@.len() ==> gray@[(#[trigger] corners@[k]).1 * FRAME_WIDTH
                + corners@[k].0] < DARK_LEVEL,
        exactly_dark_corners(corners@, gray@),
{
    let mask = build_mask(gray);
    let ghost corner = mask_corner(mask@, FRAME_WIDTH as int);
    let mut corners: Vec<(usize, usize)> = Vec::new();
    let mut x: usize = 3;
    while x <= FRAME_WIDTH - 3
        invariant
            3 <= x <= FRAME_WIDTH - 2,
            mask@ == dark_mask(gray@),
            mask.len() == FRAME_WIDTH * FRAME_HEIGHT,
            corner == mask_corner(mask@, FRAME_WIDTH as int),
            corners@ == corners_before(corner, x as int, FRAME_HEIGHT - 3),
        decreases FRAME_WIDTH - 2 - x,
    {
        let mut y: usize = 3;
        while y <= FRAME_HEIGHT - 3
            invariant
                3 <= x <= FRAME_WIDTH - 3,
                3 <= y <= FRAME_HEIGHT - 2,
                mask.len() == FRAME_WIDTH * FRAME_HEIGHT,
                corner == mask_corner(mask@, FRAME_WIDTH as int),
                corners@ == corners_before(corner, x as int, FRAME_HEIGHT - 3) + corner_column(
                    corner,
                    x as int,
                    y as int,
                ),
            decreases FRAME_HEIGHT - 2 - y,
        {
            if is_dark_corner(&mask, x, y) {
                corners.push((x, y));
            }
            proof {
                assert(corners@ =~= corners_before(corner, x as int, FRAME_HEIGHT - 3)
                    + corner_column(corner, x as int, y + 1));
            }
            y = y + 1;
        }
        proof {
            assert(corners_before(corner, x + 1, FRAME_HEIGHT - 3) == corners_before(
                corner,
                x as int,
                FRAME_HEIGHT - 3,
            ) + corner_column(corner, x as int, FRAME_HEIGHT - 3 + 1));
        }
        x = x + 1;
    }
    proof {
        lemma_corners_before_bounds(corner, FRAME_WIDTH - 2, FRAME_HEIGHT - 3);
        lemma_corners_before_sound(corner, FRAME_WIDTH - 2, FRAME_HEIGHT - 3);
        assert forall|k: int| 0 <= k < corners@.len() implies gray@[(#[trigger] corners@[k]).1
            * FRAME_WIDTH + corners@[k].0] < DARK_LEVEL by {
            let (cx, cy) = corners@[k];
            assert(corner(cx as int, cy as int));
            assert(dark_at(mask@, FRAME_WIDTH as int, cx as int, cy as int));
        }
        lemma_full_scan_exact(gray@);
    }
    corners
}

} // verus!
