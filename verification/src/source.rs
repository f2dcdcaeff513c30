//! Frame source: the synthetic deterministic pattern backing the
//! non-blocking frame feed, and the row extraction that turns a strided
//! capture plane into the packed RGB layout the codec expects. Callers must
//! not depend on which implementation produces the pixels, only on the
//! buffer shape stated here.

use vstd::prelude::*;
use vstd::arithmetic::mul::*;
use vstd::arithmetic::div_mod::*;

verus! {

/// The RGB triple stored for pixel `k` of a packed buffer.
pub open spec fn rgb_triple(b: Seq<u8>, k: int) -> (u8, u8, u8) {
    (b[3 * k], b[3 * k + 1], b[3 * k + 2])
}

/// The synthetic pattern's pixel: a radial bright center fading to the
/// edges, with a color cast that swings back and forth as `tick` advances.
pub open spec fn pattern_pixel(width: u16, height: u16, x: int, y: int, tick: u32) -> (
    u8,
    u8,
    u8,
) {
    let w = width as int;
    let h = height as int;
    let dx = if 2 * x >= w {
        2 * x - w
    } else {
        w - 2 * x
    };
    let dy = if 2 * y >= h {
        2 * y - h
    } else {
        h - 2 * y
    };
    let dist = if dx * h >= dy * w {
        dx * h
    } else {
        dy * w
    };
    let den = w * h;
    let dmin = if dist > den {
        den
    } else {
        dist
    };
    let intensity = 200 * (den - dmin) / den;
    let tmod = (tick as int) % 40;
    let swing = if tmod < 20 {
        tmod
    } else {
        40 - tmod
    };
    let red = intensity + swing;
    let blue = if intensity >= swing {
        intensity - swing
    } else {
        0
    };
    (red as u8, intensity as u8, blue as u8)
}

fn pattern_rgb_at(width: u16, height: u16, x: u16, y: u16, tick: u32) -> (rgb: (u8, u8, u8))
    requires
        1 <= width,
        1 <= height,
        x < width,
        y < height,
    ensures
        rgb == pattern_pixel(width, height, x as int, y as int, tick),
{
    let w = width as u64;
    let h = height as u64;
    let xx = x as u64;
    let yy = y as u64;
    let dx: u64 = if 2 * xx >= w {
        2 * xx - w
    } else {
        w - 2 * xx
    };
    let dy: u64 = if 2 * yy >= h {
        2 * yy - h
    } else {
        h - 2 * yy
    };
    proof {
        lemma_mul_upper_bound(dx as int, 0xffff, h as int, 0xffff);
        lemma_mul_upper_bound(dy as int, 0xffff, w as int, 0xffff);
        lemma_mul_upper_bound(w as int, 0xffff, h as int, 0xffff);
        lemma_mul_nonnegative(dx as int, h as int);
        lemma_mul_nonnegative(dy as int, w as int);
    }
    let a = dx * h;
    let b = dy * w;
    let dist: u64 = if a >= b {
        a
    } else {
        b
    };
    let den: u64 = w * h;
    proof {
        assert((w as int) * (h as int) >= 1) by (nonlinear_arith)
            requires
                w >= 1,
                h >= 1,
        ;
    }
    let dmin: u64 = if dist > den {
        den
    } else {
        dist
    };
    let intensity: u64 = 200 * (den - dmin) / den;
    proof {
        lemma_mul_inequality((den - dmin) as int, den as int, 200);
        lemma_div_is_ordered(200 * ((den - dmin) as int), 200 * (den as int), den as int);
        lemma_div_multiples_vanish(200, den as int);
        assert(intensity <= 200);
    }
    let tmod: u64 = (tick % 40) as u64;
    let swing: u64 = if tmod < 20 {
        tmod
    } else {
        40 - tmod
    };
    let red = (intensity + swing) as u8;
    let green = intensity as u8;
    let blue = if intensity >= swing {
        (intensity - swing) as u8
    } else {
        0u8
    };
    (red, green, blue)
}

/// One full frame of the synthetic pattern: packed RGB, row-major,
/// exactly width x height x 3 bytes.
pub fn test_pattern_rgb(width: u16, height: u16, tick: u32) -> (out: Vec<u8>)
    requires
        1 <= width,
        1 <= height,
    ensures
        out@.len() == 3 * (width as int) * (height as int),
        forall|k: int|
            0 <= k < (width as int) * (height as int) ==> #[trigger] rgb_triple(out@, k)
                == pattern_pixel(width, height, k % (width as int), k / (width as int), tick),
{
    let mut out: Vec<u8> = Vec::new();
    let ghost w: int = width as int;
    let mut y: u16 = 0;
    while y < height
        invariant
            1 <= width,
            1 <= height,
            y <= height,
            out@.len() == 3 * ((y as int) * w),
            w == width as int,
            forall|k: int|
                0 <= k < (y as int) * w ==> #[trigger] rgb_triple(out@, k) == pattern_pixel(
                    width,
                    height,
                    k % w,
                    k / w,
                    tick,
                ),
        decreases height - y,
    {
        let mut x: u16 = 0;
        proof {
            lemma_mul_upper_bound(y as int, 0xfffe, w, 0xffff);
            lemma_mul_nonnegative(y as int, w);
        }
        while x < width
            invariant
                1 <= width,
                1 <= height,
                y < height,
                x <= width,
                w == width as int,
                out@.len() == 3 * ((y as int) * w + x as int),
                0 <= (y as int) * w <= 0xfffe * 0xffff,
                forall|k: int|
                    0 <= k < (y as int) * w + x as int ==> #[trigger] rgb_triple(out@, k)
                        == pattern_pixel(width, height, k % w, k / w, tick),
            decreases width - x,
        {
            let (r, g, b) = pattern_rgb_at(width, height, x, y, tick);
            let prev = Ghost(out@);
            out.push(r);
            out.push(g);
            out.push(b);
            proof {
                let k0 = (y as int) * w + x as int;
                lemma_fundamental_div_mod_converse(k0, w, y as int, x as int);
                assert(rgb_triple(out@, k0) == pattern_pixel(width, height, x as int, y as int, tick));
                assert forall|k: int|
                    0 <= k < k0 + 1 implies #[trigger] rgb_triple(out@, k) == pattern_pixel(
                    width,
                    height,
                    k % w,
                    k / w,
                    tick,
                ) by {
                    if k < k0 {
                        assert(out@[3 * k] == prev@[3 * k]);
                        assert(out@[3 * k + 1] == prev@[3 * k + 1]);
                        assert(out@[3 * k + 2] == prev@[3 * k + 2]);
                        assert(rgb_triple(out@, k) == rgb_triple(prev@, k));
                    }
                }
            }
            x += 1;
        }
        proof {
            assert((y as int) * w + w == (y as int + 1) * w) by {
                lemma_mul_is_distributive_add_other_way(w, y as int, 1);
            }
        }
        y += 1;
    }
    proof {
        assert(out@.len() == 3 * ((height as int) * w));
        assert(3 * ((height as int) * w) == 3 * (width as int) * (height as int)) by {
            lemma_mul_is_commutative(height as int, w);
            lemma_mul_is_associative(3, width as int, height as int);
        }
    }
    out
}

/// The RGB triple a strided capture plane holds for pixel (x, y): rows whose
/// bytes run past the plane's end are read as black.
pub open spec fn plane_pixel(data: Seq<u8>, width: u16, stride: int, x: int, y: int) -> (
    u8,
    u8,
    u8,
) {
    let rs = y * stride;
    if rs + 3 * (width as int) <= data.len() {
        (data[rs + 3 * x], data[rs + 3 * x + 1], data[rs + 3 * x + 2])
    } else {
        (0u8, 0u8, 0u8)
    }
}

/// Repacks a strided capture plane into the packed RGB layout the codec
/// expects: width x height x 3 bytes, rows past the plane's end black.
pub fn rgb_from_plane(data: &[u8], width: u16, height: u16, stride: usize) -> (out: Vec<u8>)
    ensures
        out@.len() == 3 * (width as int) * (height as int),
        forall|k: int|
            0 <= k < (width as int) * (height as int) ==> #[trigger] rgb_triple(out@, k)
                == plane_pixel(data@, width, stride as int, k % (width as int), k / (
                width as int)),
{
    let n: usize = data.len();
    let mut out: Vec<u8> = Vec::new();
    let ghost w: int = width as int;
    let mut y: u16 = 0;
    let mut row_start: Option<usize> = Some(0);
    proof {
        lemma_mul_basics(stride as int);
    }
    while y < height
        invariant
            y <= height,
            n == data@.len(),
            w == width as int,
            out@.len() == 3 * ((y as int) * w),
            row_start matches Some(rs) ==> rs == (y as int) * (stride as int) && rs <= n,
            row_start is None ==> (y as int) * (stride as int) > n,
            forall|k: int|
                0 <= k < (y as int) * w ==> #[trigger] rgb_triple(out@, k) == plane_pixel(
                    data@,
                    width,
                    stride as int,
                    k % w,
                    k / w,
                ),
        decreases height - y,
    {
        proof {
            lemma_mul_nonnegative(y as int, w);
        }
        let fits: bool = match row_start {
            Some(rs) => {
                let limit: usize = 3 * (width as usize);
                n - rs >= limit
            },
            None => false,
        };
        let mut x: u16 = 0;
        while x < width
            invariant
                x <= width,
                y < height,
                n == data@.len(),
                w == width as int,
                out@.len() == 3 * ((y as int) * w + x as int),
                0 <= (y as int) * w,
                row_start matches Some(rs) ==> rs == (y as int) * (stride as int) && rs <= n,
                row_start is None ==> (y as int) * (stride as int) > n,
                fits <==> (y as int) * (stride as int) + 3 * w <= n,
                forall|k: int|
                    0 <= k < (y as int) * w + x as int ==> #[trigger] rgb_triple(out@, k)
                        == plane_pixel(data@, width, stride as int, k % w, k / w),
            decreases width - x,
        {
            let prev = Ghost(out@);
            if fits {
                let rs = match row_start {
                    Some(v) => v,
                    None => 0,
                };
                let p: usize = rs + 3 * (x as usize);
                out.push(data[p]);
                out.push(data[p + 1]);
                out.push(data[p + 2]);
            } else {
                out.push(0);
                out.push(0);
                out.push(0);
            }
            proof {
                let k0 = (y as int) * w + x as int;
                lemma_fundamental_div_mod_converse(k0, w, y as int, x as int);
                assert(rgb_triple(out@, k0) == plane_pixel(
                    data@,
                    width,
                    stride as int,
                    x as int,
                    y as int,
                ));
                assert forall|k: int|
                    0 <= k < k0 + 1 implies #[trigger] rgb_triple(out@, k) == plane_pixel(
                    data@,
                    width,
                    stride as int,
                    k % w,
                    k / w,
                ) by {
                    if k < k0 {
                        assert(out@[3 * k] == prev@[3 * k]);
                        assert(out@[3 * k + 1] == prev@[3 * k + 1]);
                        assert(out@[3 * k + 2] == prev@[3 * k + 2]);
                        assert(rgb_triple(out@, k) == rgb_triple(prev@, k));
                    }
                }
            }
            x += 1;
        }
        proof {
            assert((y as int) * w + w == (y as int + 1) * w) by {
                lemma_mul_is_distributive_add_other_way(w, y as int, 1);
            }
            assert((y as int) * (stride as int) + stride as int == (y as int + 1) * (
            stride as int)) by {
                lemma_mul_is_distributive_add_other_way(stride as int, y as int, 1);
            }
        }
        row_start = match row_start {
            Some(rs) => {
                if stride <= n - rs {
                    Some(rs + stride)
                } else {
                    None
                }
            },
            None => None,
        };
        proof {
            if row_start is None {
                lemma_mul_nonnegative(y as int + 1, stride as int);
            }
        }
        y += 1;
    }
    proof {
        assert(out@.len() == 3 * ((height as int) * w));
        assert(3 * ((height as int) * w) == 3 * (width as int) * (height as int)) by {
            lemma_mul_is_commutative(height as int, w);
            lemma_mul_is_associative(3, width as int, height as int);
        }
    }
    out
}

} // verus!
