use vstd::prelude::*;

verus! {

/// The byte of a row-major grid `v` of width `w` at column `x`, row `y`.
pub open spec fn byte_at(v: Seq<u8>, w: int, x: int, y: int) -> u8 {
    v[y * w + x]
}

/// A row-major index stays inside the grid.
pub proof fn lemma_row_major_index(w: int, h: int, x: int, y: int)
    requires
        0 <= x < w,
        0 <= y < h,
    ensures
        0 <= y * w + x < w * h,
{
    assert(0 <= y * w + x < w * h) by (nonlinear_arith)
        requires
            0 <= x < w,
            0 <= y < h,
    ;
}

/// A grayscale raster: one luminance byte per pixel, rows stored
/// one after the other.
pub struct GrayRaster {
    pub width: u32,
    pub height: u32,
    pub data: Vec<u8>,
}

/// Clamp a coordinate into `[0, n)`.
pub open spec fn clip(v: int, n: int) -> int {
    if v < 0 {
        0
    } else if v >= n {
        n - 1
    } else {
        v
    }
}

/// The absolute difference of two luminance bytes.
pub open spec fn absdiff(a: u8, b: u8) -> int {
    if a >= b {
        a - b
    } else {
        b - a
    }
}

impl GrayRaster {
    /// The stored bytes cover exactly `width * height` pixels.
    pub open spec fn wf(self) -> bool {
        &&& self.data@.len() == self.width * self.height
        &&& self.width * self.height <= usize::MAX
    }

    pub open spec fn in_bounds(self, x: int, y: int) -> bool {
        0 <= x < self.width && 0 <= y < self.height
    }

    /// The luminance of the pixel at `(x, y)`.
    pub open spec fn pix(self, x: int, y: int) -> u8 {
        byte_at(self.data@, self.width as int, x, y)
    }

    /// The edge intensity at `(x, y)`: the sum of the horizontal and
    /// vertical central luminance differences, coordinates clamped at the
    /// border, capped at full intensity.
    pub open spec fn edge_at(self, x: int, y: int) -> u8 {
        let w = self.width as int;
        let h = self.height as int;
        let gx = absdiff(self.pix(clip(x + 1, w), y), self.pix(clip(x - 1, w), y));
        let gy = absdiff(self.pix(x, clip(y + 1, h)), self.pix(x, clip(y - 1, h)));
        if gx + gy > 255 {
            255u8
        } else {
            (gx + gy) as u8
        }
    }

    /// A raster whose pixels all hold one value has edge intensity zero
    /// everywhere.
    pub proof fn lemma_flat_raster_has_no_edges(self, v: u8)
        requires
            self.wf(),
            forall|x: int, y: int| self.in_bounds(x, y) ==> #[trigger] self.pix(x, y) == v,
        ensures
            forall|x: int, y: int| self.in_bounds(x, y) ==> #[trigger] self.edge_at(x, y) == 0,
    {
        let w = self.width as int;
        let h = self.height as int;
        assert forall|x: int, y: int| self.in_bounds(x, y) implies #[trigger] self.edge_at(x, y)
            == 0 by {
            assert(self.in_bounds(clip(x + 1, w), y));
            assert(self.in_bounds(clip(x - 1, w), y));
            assert(self.in_bounds(x, clip(y + 1, h)));
            assert(self.in_bounds(x, clip(y - 1, h)));
            assert(self.pix(clip(x + 1, w), y) == v);
            assert(self.pix(clip(x - 1, w), y) == v);
            assert(self.pix(x, clip(y + 1, h)) == v);
            assert(self.pix(x, clip(y - 1, h)) == v);
        }
    }

    pub fn get(&self, x: u32, y: u32) -> (r: u8)
        requires
            self.wf(),
            self.in_bounds(x as int, y as int),
        ensures
            r == self.pix(x as int, y as int),
    {
        proof {
            lemma_row_major_index(
                self.width as int,
                self.height as int,
                x as int,
                y as int,
            );
        }
        let idx: usize = (y as usize) * (self.width as usize) + (x as usize);
        self.data[idx]
    }

    /// A raster of the given size whose every pixel holds `value`.
    pub fn new_filled(width: u32, height: u32, value: u8) -> (r: GrayRaster)
        requires
            width * height <= usize::MAX,
        ensures
            r.wf(),
            r.width == width,
            r.height == height,
            forall|x: int, y: int| r.in_bounds(x, y) ==> #[trigger] r.pix(x, y) == value,
    {
        let n: usize = (width as usize) * (height as usize);
        let mut data: Vec<u8> = Vec::new();
        while data.len() < n
            invariant
                data@.len() <= n,
                forall|i: int| 0 <= i < data@.len() ==> data@[i] == value,
                n == width * height,
            decreases n - data@.len(),
        {
            data.push(value);
        }
        let r = GrayRaster { width, height, data };
        proof {
            assert forall|x: int, y: int| r.in_bounds(x, y) implies #[trigger] r.pix(x, y)
                == value by {
                lemma_row_major_index(width as int, height as int, x, y);
            }
        }
        r
    }

    /// Wrap raw row-major bytes; refused when the length does not match
    /// the dimensions.
    pub fn from_raw(width: u32, height: u32, data: Vec<u8>) -> (r: Option<GrayRaster>)
        ensures
            match r {
                Some(g) => {
                    &&& g.wf()
                    &&& g.width == width
                    &&& g.height == height
                    &&& g.data@ == data@
                },
                None => data@.len() != width * height,
            },
    {
        let n = data.len();
        proof {
            assert((width as int) * (height as int) < 0x1_0000_0000_0000_0000)
                by (nonlinear_arith)
                requires
                    0 <= width as int <= 0xffff_ffff,
                    0 <= height as int <= 0xffff_ffff,
            ;
        }
        if (n as u64) == (width as u64) * (height as u64) {
            Some(GrayRaster { width, height, data })
        } else {
            None
        }
    }

    /// The edge-detected version of the raster: every pixel is replaced
    /// by its edge intensity.
    #[verifier::loop_isolation(false)]
    pub fn edges(&self) -> (r: GrayRaster)
        requires
            self.wf(),
        ensures
            r.wf(),
            r.width == self.width,
            r.height == self.height,
            forall|x: int, y: int|
                self.in_bounds(x, y) ==> #[trigger] r.pix(x, y) == self.edge_at(x, y),
    {
        let w = self.width;
        let h = self.height;
        let mut out: Vec<u8> = Vec::new();
        let mut y: u32 = 0;
        while y < h
            invariant
                y <= h,
                out@.len() == y * w,
                forall|a: int, b: int|
                    0 <= a < w && 0 <= b < y ==> #[trigger] byte_at(out@, w as int, a, b)
                        == self.edge_at(a, b),
            decreases h - y,
        {
            let mut x: u32 = 0;
            while x < w
                invariant
                    x <= w,
                    y < h,
                    out@.len() == y * w + x,
                    forall|a: int, b: int|
                        0 <= a < w && 0 <= b < h && (b < y || (b == y && a < x))
                            ==> #[trigger] byte_at(out@, w as int, a, b) == self.edge_at(a, b),
                decreases w - x,
            {
                let l = self.get(if x > 0 { x - 1 } else { x }, y);
                let rr = self.get(if x + 1 < w { x + 1 } else { x }, y);
                let u = self.get(x, if y > 0 { y - 1 } else { y });
                let d = self.get(x, if y + 1 < h { y + 1 } else { y });
                let gx: u16 = if rr >= l { (rr - l) as u16 } else { (l - rr) as u16 };
                let gy: u16 = if d >= u { (d - u) as u16 } else { (u - d) as u16 };
                let s: u16 = gx + gy;
                let e: u8 = if s > 255 { 255 } else { s as u8 };
                proof {
                    lemma_row_major_index(w as int, h as int, x as int, y as int);
                    assert(e == self.edge_at(x as int, y as int));
                }
                let ghost pre = out@;
                out.push(e);
                proof {
                    assert forall|a: int, b: int|
                        0 <= a < w && 0 <= b < h && (b < y || (b == y && a < x + 1)) implies #[trigger] byte_at(
                        out@,
                        w as int,
                        a,
                        b,
                    ) == self.edge_at(a, b) by {
                        lemma_row_major_index(w as int, h as int, a, b);
                        if b < y || (b == y && a < x) {
                            assert(b * (w as int) + a < (y as int) * (w as int) + (x as int))
                                by (nonlinear_arith)
                                requires
                                    0 <= a < w as int,
                                    0 <= b,
                                    0 <= x as int,
                                    0 < w as int,
                                    b < y as int || (b == y as int && a < x as int),
                            ;
                            assert(byte_at(pre, w as int, a, b) == self.edge_at(a, b));
                            assert(out@[b * (w as int) + a] == pre[b * (w as int) + a]);
                        } else {
                            assert(a == x as int && b == y as int);
                            assert(out@[(y as int) * (w as int) + (x as int)] == e);
                        }
                    }
                }
                x = x + 1;
            }
            proof {
                assert(y * w + w == (y + 1) * w) by (nonlinear_arith);
            }
            y = y + 1;
        }
        let r = GrayRaster { width: self.width, height: self.height, data: out };
        proof {
            assert(h * w == w * h) by (nonlinear_arith);
            assert forall|x: int, y0: int| self.in_bounds(x, y0) implies #[trigger] r.pix(x, y0)
                == self.edge_at(x, y0) by {
                lemma_row_major_index(w as int, h as int, x, y0);
            }
        }
        r
    }
}

} // verus!
