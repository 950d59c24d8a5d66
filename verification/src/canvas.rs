//! Painting on an [`RgbImage`]: filled rectangles clipped to the image, and a
//! model of an image as a background overlaid, in order, with a sequence of
//! filled rectangles (the last rectangle covering a pixel decides its color).

use vstd::prelude::*;
use crate::geom::{lemma_row_major_lt, lemma_row_major_injective};
use crate::image::RgbImage;

verus! {

/// A filled rectangle: left, top, width, height, color. A rectangle with zero
/// width or height covers nothing.
pub type Shape = (int, int, int, int, [u8; 3]);

/// Shape `s` covers pixel `(x, y)`.
pub open spec fn covers(s: Shape, x: int, y: int) -> bool {
    s.0 <= x < s.0 + s.2 && s.1 <= y < s.1 + s.3
}

/// A shape that covers nothing.
pub open spec fn no_shape() -> Shape {
    (0, 0, 0, 0, [0u8, 0, 0])
}

/// The color of pixel `(x, y)` after painting `shapes`, in order, over
/// `base`: the last shape covering the pixel decides, else the base shows.
pub open spec fn painted(shapes: Seq<Shape>, base: spec_fn(int, int) -> [u8; 3], x: int, y: int) -> [u8; 3]
    decreases shapes.len(),
{
    if shapes.len() == 0 {
        base(x, y)
    } else if covers(shapes.last(), x, y) {
        shapes.last().4
    } else {
        painted(shapes.drop_last(), base, x, y)
    }
}

/// `img` is well-formed and every pixel shows `shapes` painted over `base`.
pub open spec fn shows(img: &RgbImage, shapes: Seq<Shape>, base: spec_fn(int, int) -> [u8; 3]) -> bool {
    &&& img.wf()
    &&& forall|x: int, y: int| 0 <= x < img.width && 0 <= y < img.height
        ==> #[trigger] img.pixel(x, y) == painted(shapes, base, x, y)
}

/// Painting one more shape.
pub proof fn lemma_painted_push(shapes: Seq<Shape>, s: Shape, base: spec_fn(int, int) -> [u8; 3], x: int, y: int)
    ensures
        painted(shapes.push(s), base, x, y) == if covers(s, x, y) { s.4 } else { painted(shapes, base, x, y) },
{
    assert(shapes.push(s).drop_last() =~= shapes);
}

/// Fill the rectangle `[x0, x0 + w) × [y0, y0 + h)` with `color`, clipped to
/// the image: pixels outside the image are skipped, never a panic.
pub fn fill_rect(img: &mut RgbImage, x0: u64, y0: u64, w: u64, h: u64, color: [u8; 3])
    requires
        old(img).wf(),
        x0 + w <= u64::MAX,
        y0 + h <= u64::MAX,
    ensures
        final(img).wf(),
        final(img).width == old(img).width,
        final(img).height == old(img).height,
        forall|x: int, y: int| 0 <= x < old(img).width && 0 <= y < old(img).height
            ==> #[trigger] final(img).pixel(x, y) == if covers((x0 as int, y0 as int, w as int, h as int, color), x, y) {
                color
            } else {
                old(img).pixel(x, y)
            },
{
    let iw = img.width as u64;
    let ih = img.height as u64;
    let xe = if x0 + w < iw { x0 + w } else { iw };
    let ye = if y0 + h < ih { y0 + h } else { ih };
    let ghost orig = *old(img);
    let mut y = y0;
    while y < ye
        invariant
            img.wf(),
            img.width == orig.width,
            img.height == orig.height,
            iw == img.width,
            ih == img.height,
            xe <= iw,
            ye <= ih,
            xe as int == if x0 + w < iw { x0 + w } else { iw as int },
            ye as int == if y0 + h < ih { y0 + h } else { ih as int },
            y0 <= y,
            y0 < ye ==> y <= ye,
            y0 >= ye ==> y == y0,
            forall|px: int, py: int| 0 <= px < orig.width && 0 <= py < orig.height
                ==> #[trigger] img.pixel(px, py) == if x0 <= px < xe && y0 <= py < y { color } else { orig.pixel(px, py) },
        decreases ye - y,
    {
        let mut x = x0;
        while x < xe
            invariant
                img.wf(),
                img.width == orig.width,
                img.height == orig.height,
                iw == img.width,
                ih == img.height,
                xe <= iw,
                ye <= ih,
                y0 <= y < ye,
                x0 <= x,
                x0 < xe ==> x <= xe,
                x0 >= xe ==> x == x0,
                forall|px: int, py: int| 0 <= px < orig.width && 0 <= py < orig.height
                    ==> #[trigger] img.pixel(px, py) == if (x0 <= px < xe && y0 <= py < y) || (x0 <= px < x && py == y) {
                        color
                    } else {
                        orig.pixel(px, py)
                    },
            decreases xe - x,
        {
            let ghost before = *img;
            img.put_pixel(x as u32, y as u32, color);
            proof {
                assert forall|px: int, py: int| 0 <= px < orig.width && 0 <= py < orig.height
                    implies #[trigger] img.pixel(px, py) == if (x0 <= px < xe && y0 <= py < y) || (x0 <= px < x + 1 && py == y) {
                        color
                    } else {
                        orig.pixel(px, py)
                    } by {
                    lemma_row_major_lt(img.width as int, px, py, img.height as int);
                    lemma_row_major_lt(img.width as int, x as int, y as int, img.height as int);
                    if px != x || py != y {
                        if py * img.width + px == y * img.width + x {
                            lemma_row_major_injective(img.width as int, px, py, x as int, y as int);
                        }
                        assert(img.pixel(px, py) == before.pixel(px, py));
                    }
                }
            }
            x += 1;
        }
        proof {
            assert forall|px: int, py: int| 0 <= px < orig.width && 0 <= py < orig.height
                implies #[trigger] img.pixel(px, py) == if x0 <= px < xe && y0 <= py < y + 1 { color } else { orig.pixel(px, py) } by {
                assert(img.pixel(px, py) == if (x0 <= px < xe && y0 <= py < y) || (x0 <= px < x && py == y) {
                        color
                    } else {
                        orig.pixel(px, py)
                    });
                if x0 < xe {
                    assert(x == xe);
                } else {
                    assert(!(x0 <= px < xe));
                }
            }
        }
        y += 1;
    }
    proof {
        assert forall|px: int, py: int| 0 <= px < orig.width && 0 <= py < orig.height
            implies #[trigger] img.pixel(px, py) == if covers((x0 as int, y0 as int, w as int, h as int, color), px, py) {
                color
            } else {
                orig.pixel(px, py)
            } by {
            if y0 < ye {
                assert(y == ye);
            }
        }
    }
}

} // verus!
