use vstd::prelude::*;

verus! {

/// A pixel of the output image: column `x`, row `y` counted from the top,
/// and `up`, the row count from the bottom edge that places it on the
/// camera's vertical viewport axis.
#[derive(PartialEq, Eq, Structural, Debug, Clone, Copy)]
pub struct PixelSite {
    pub x: u32,
    pub y: u32,
    pub up: u32,
}

/// The site of the `k`-th pixel of a `width`-wide image in row-major order.
pub open spec fn site_of(width: u32, height: u32, k: int) -> PixelSite {
    PixelSite { x: (k % width as int) as u32, y: (k / width as int) as u32, up: (height - k / width as int) as u32 }
}

/// Every pixel of a `width` by `height` image, row by row from the top,
/// left to right in each row: the order of the image buffer.
pub fn pixel_sites(width: u32, height: u32) -> (r: Vec<PixelSite>)
    requires
        width as int * height as int <= usize::MAX,
    ensures
        r.len() == width as int * height as int,
        forall|k: int| 0 <= k < r.len() ==> #[trigger] r@[k] == site_of(width, height, k),
{
    let mut r: Vec<PixelSite> = Vec::new();
    let mut y: u32 = 0;
    while y < height
        invariant
            y <= height,
            width as int * height as int <= usize::MAX,
            r.len() == y as int * width as int,
            forall|k: int| 0 <= k < r.len() ==> #[trigger] r@[k] == site_of(width, height, k),
        decreases height - y,
    {
        let mut x: u32 = 0;
        while x < width
            invariant
                x <= width,
                y < height,
                width as int * height as int <= usize::MAX,
                r.len() == y as int * width as int + x,
                forall|k: int| 0 <= k < r.len() ==> #[trigger] r@[k] == site_of(width, height, k),
            decreases width - x,
        {
            proof {
                let k = y as int * width as int + x;
                assert(k % width as int == x && k / width as int == y) by (nonlinear_arith)
                    requires
                        k == y as int * width as int + x,
                        0 <= x < width,
                        0 <= y,
                ;
            }
            r.push(PixelSite { x, y, up: height - y });
            x = x + 1;
        }
        proof {
            assert((y as int + 1) * width as int == y as int * width as int + width) by (nonlinear_arith);
            assert((y as int + 1) * width as int <= height as int * width as int) by (nonlinear_arith)
                requires y < height, 0 <= width;
        }
        y = y + 1;
    }
    assert(height as int * width as int == width as int * height as int) by (nonlinear_arith);
    r
}

} // verus!
