//! How a render is cut into jobs: the region of the image to render, and
//! the buckets of that region, visited along a Hilbert curve.
use vstd::prelude::*;
use crate::hilbert::{
    d2xy, d2xy_spec, lemma_d2xy_bounds, lemma_xy2d_small, law_d2xy_inverts_xy2d,
    law_xy2d_inverts_d2xy, xy2d_spec,
};
use vstd::arithmetic::power2::{pow2, lemma2_to64, lemma_pow2_strictly_increases};
use vstd::arithmetic::div_mod::{
    lemma_fundamental_div_mod, lemma_fundamental_div_mod_converse, lemma_div_pos_is_pos,
    lemma_div_is_ordered, lemma_small_mod,
};
use crate::math::{is_power_of_two, upper_power_of_two};

verus! {

/// A bucket of pixels to render: its corner and its size.
#[derive(Debug, Copy, Clone, PartialEq, Eq)]
pub struct BucketJob {
    pub x: u32,
    pub y: u32,
    pub w: u32,
    pub h: u32,
}

/// The smaller of two integers.
pub open spec fn smin(a: int, b: int) -> int {
    if a < b {
        a
    } else {
        b
    }
}

/// The region to render, as (width, height, start x, start y): the whole
/// image, or the crop rectangle (both corners inclusive) clamped to it.
pub open spec fn crop_spec(crop: Option<(u32, u32, u32, u32)>, img_w: int, img_h: int) -> (
    int,
    int,
    int,
    int,
) {
    match crop {
        Some((x1, y1, x2, y2)) => {
            let a = smin(x1 as int, img_w - 1);
            let b = smin(y1 as int, img_h - 1);
            let c = smin(x2 as int, img_w - 1);
            let d = smin(y2 as int, img_h - 1);
            (c - a + 1, d - b + 1, a, b)
        },
        None => (img_w, img_h, 0, 0),
    }
}

/// The region to render, as (width, height, start x, start y): the whole
/// image, or the crop rectangle (both corners inclusive) clamped to it.  A
/// crop needs a non-empty image and, once clamped, corners in order.
pub fn crop_region(crop: Option<(u32, u32, u32, u32)>, img_w: usize, img_h: usize) -> (r: (
    usize,
    usize,
    usize,
    usize,
))
    requires
        crop matches Some((x1, y1, x2, y2)) ==> img_w > 0 && img_h > 0 && smin(
            x1 as int,
            img_w - 1,
        ) <= smin(x2 as int, img_w - 1) && smin(y1 as int, img_h - 1) <= smin(
            y2 as int,
            img_h - 1,
        ),
    ensures
        (r.0 as int, r.1 as int, r.2 as int, r.3 as int) == crop_spec(crop, img_w as int, img_h as int),
{
    match crop {
        Some((x1, y1, x2, y2)) => {
            let a = if (x1 as usize) < img_w - 1 {
                x1 as usize
            } else {
                img_w - 1
            };
            let b = if (y1 as usize) < img_h - 1 {
                y1 as usize
            } else {
                img_h - 1
            };
            let c = if (x2 as usize) < img_w - 1 {
                x2 as usize
            } else {
                img_w - 1
            };
            let d = if (y2 as usize) < img_h - 1 {
                y2 as usize
            } else {
                img_h - 1
            };
            (c - a + 1, d - b + 1, a, b)
        },
        None => (img_w, img_h, 0, 0),
    }
}

/// The number of buckets across and down, each truncated to 32 bits as the
/// grid size is computed with them.
pub open spec fn buckets_across(width: int, bucket_w: int) -> u32 {
    (width / bucket_w + 1) as u32
}

/// The larger of the bucket counts across and down.
pub open spec fn larger_count(width: int, height: int, bucket_w: int, bucket_h: int) -> u32 {
    let a = buckets_across(width, bucket_w);
    let b = buckets_across(height, bucket_h);
    if a > b {
        a
    } else {
        b
    }
}

/// The side of the square grid of buckets that the Hilbert curve walks:
/// the smallest power of two no smaller than the number of buckets across
/// or down.
pub fn bucket_grid_side(width: usize, height: usize, bucket_w: usize, bucket_h: usize) -> (p: u32)
    requires
        bucket_w > 0,
        bucket_h > 0,
        width / bucket_w < usize::MAX,
        height / bucket_h < usize::MAX,
        1 <= larger_count(width as int, height as int, bucket_w as int, bucket_h as int) <= 0x8000,
    ensures
        is_power_of_two(p),
        larger_count(width as int, height as int, bucket_w as int, bucket_h as int) <= p,
        p / 2 < larger_count(width as int, height as int, bucket_w as int, bucket_h as int),
        p <= 0xffff,
{
    let across = ((width / bucket_w) + 1) as u32;
    let down = ((height / bucket_h) + 1) as u32;
    let larger = if across > down {
        across
    } else {
        down
    };
    upper_power_of_two(larger)
}

/// The bucket visited at index `d` of the Hilbert curve over the bucket
/// grid, if it holds pixels of the `width` by `height` region starting at
/// (`start_x`, `start_y`).
pub open spec fn job_at(
    d: nat,
    width: int,
    height: int,
    start_x: int,
    start_y: int,
    bucket_w: int,
    bucket_h: int,
) -> Option<BucketJob> {
    let b = d2xy_spec(16, d);
    let x = b.0 * bucket_w;
    let y = b.1 * bucket_h;
    let w = if width >= x {
        smin(bucket_w, width - x)
    } else {
        bucket_w
    };
    let h = if height >= y {
        smin(bucket_h, height - y)
    } else {
        bucket_h
    };
    if x < width && y < height && w > 0 && h > 0 {
        Some(
            BucketJob {
                x: (start_x + x) as u32,
                y: (start_y + y) as u32,
                w: w as u32,
                h: h as u32,
            },
        )
    } else {
        None
    }
}

/// The jobs of the first `n` indices of the Hilbert curve, in order.
pub open spec fn jobs_upto(
    n: nat,
    width: int,
    height: int,
    start_x: int,
    start_y: int,
    bucket_w: int,
    bucket_h: int,
) -> Seq<BucketJob>
    decreases n,
{
    if n == 0 {
        Seq::empty()
    } else {
        let prev = jobs_upto((n - 1) as nat, width, height, start_x, start_y, bucket_w, bucket_h);
        match job_at((n - 1) as nat, width, height, start_x, start_y, bucket_w, bucket_h) {
            Some(j) => prev.push(j),
            None => prev,
        }
    }
}

/// The jobs that render the `width` by `height` region starting at
/// (`start_x`, `start_y`) in buckets of `bucket_w` by `bucket_h` pixels:
/// the buckets of the grid, in the order of the Hilbert curve over it,
/// that hold pixels of the region, each cut to the region.
pub fn bucket_jobs(
    width: usize,
    height: usize,
    start_x: usize,
    start_y: usize,
    bucket_w: usize,
    bucket_h: usize,
) -> (jobs: Vec<BucketJob>)
    requires
        bucket_w > 0,
        bucket_h > 0,
        width / bucket_w < usize::MAX,
        height / bucket_h < usize::MAX,
        1 <= larger_count(width as int, height as int, bucket_w as int, bucket_h as int) <= 0x8000,
    ensures
        exists|p: u32|
            is_power_of_two(p) && larger_count(
                width as int,
                height as int,
                bucket_w as int,
                bucket_h as int,
            ) <= p && p / 2 < larger_count(
                width as int,
                height as int,
                bucket_w as int,
                bucket_h as int,
            ) && jobs@ == jobs_upto(
                (p * p) as nat,
                width as int,
                height as int,
                start_x as int,
                start_y as int,
                bucket_w as int,
                bucket_h as int,
            ),
{
    let side = bucket_grid_side(width, height, bucket_w, bucket_h);
    assert(side * side <= 0xffff * 0xffff) by (nonlinear_arith)
        requires
            side <= 0xffff,
    ;
    let bucket_n = side * side;
    let mut jobs: Vec<BucketJob> = Vec::new();
    let mut d: u32 = 0;
    while d < bucket_n
        invariant
            d <= bucket_n,
            jobs@ == jobs_upto(
                d as nat,
                width as int,
                height as int,
                start_x as int,
                start_y as int,
                bucket_w as int,
                bucket_h as int,
            ),
        decreases bucket_n - d,
    {
        let (bx, by) = d2xy(d);
        assert(bx as u128 * bucket_w as u128 <= 0x1_0000 * 0xffff_ffff_ffff_ffff) by (nonlinear_arith)
            requires
                bx < 0x1_0000,
                bucket_w <= 0xffff_ffff_ffff_ffff,
        ;
        assert(by as u128 * bucket_h as u128 <= 0x1_0000 * 0xffff_ffff_ffff_ffff) by (nonlinear_arith)
            requires
                by < 0x1_0000,
                bucket_h <= 0xffff_ffff_ffff_ffff,
        ;
        let x: u128 = bx as u128 * bucket_w as u128;
        let y: u128 = by as u128 * bucket_h as u128;
        let w: u128 = if width as u128 >= x {
            if (bucket_w as u128) < width as u128 - x {
                bucket_w as u128
            } else {
                width as u128 - x
            }
        } else {
            bucket_w as u128
        };
        let h: u128 = if height as u128 >= y {
            if (bucket_h as u128) < height as u128 - y {
                bucket_h as u128
            } else {
                height as u128 - y
            }
        } else {
            bucket_h as u128
        };
        if x < width as u128 && y < height as u128 && w > 0 && h > 0 {
            jobs.push(
                BucketJob {
                    x: (start_x as u128 + x) as u32,
                    y: (start_y as u128 + y) as u32,
                    w: w as u32,
                    h: h as u32,
                },
            );
        }
        proof {
            assert(jobs_upto(
                (d + 1) as nat,
                width as int,
                height as int,
                start_x as int,
                start_y as int,
                bucket_w as int,
                bucket_h as int,
            ) == (match job_at(
                d as nat,
                width as int,
                height as int,
                start_x as int,
                start_y as int,
                bucket_w as int,
                bucket_h as int,
            ) {
                Some(j) => jobs_upto(
                    d as nat,
                    width as int,
                    height as int,
                    start_x as int,
                    start_y as int,
                    bucket_w as int,
                    bucket_h as int,
                ).push(j),
                None => jobs_upto(
                    d as nat,
                    width as int,
                    height as int,
                    start_x as int,
                    start_y as int,
                    bucket_w as int,
                    bucket_h as int,
                ),
            }));
        }
        d += 1;
    }
    jobs
}

/// The pixel (`px`, `py`) of a region that starts at the origin lies in
/// the job of the bucket at curve index `d`.
pub open spec fn in_job(
    d: nat,
    px: int,
    py: int,
    width: int,
    height: int,
    bucket_w: int,
    bucket_h: int,
) -> bool {
    job_at(d, width, height, 0, 0, bucket_w, bucket_h) matches Some(j) && j.x <= px < j.x + j.w
        && j.y <= py < j.y + j.h
}

proof fn lemma_power_of_two_exponent(p: u32)
    requires
        is_power_of_two(p),
        p <= 0xffff,
    ensures
        exists|j: nat| j <= 15 && pow2(j) == p,
{
    assert(is_power_of_two(p) && p <= 0xffff ==> p == 1 || p == 2 || p == 4 || p == 8 || p == 16
        || p == 32 || p == 64 || p == 128 || p == 256 || p == 512 || p == 1024 || p == 2048 || p
        == 4096 || p == 8192 || p == 16384 || p == 32768) by (bit_vector);
    lemma2_to64();
    if p == 1 {
        assert(pow2(0) == p);
    } else if p == 2 {
        assert(pow2(1) == p);
    } else if p == 4 {
        assert(pow2(2) == p);
    } else if p == 8 {
        assert(pow2(3) == p);
    } else if p == 16 {
        assert(pow2(4) == p);
    } else if p == 32 {
        assert(pow2(5) == p);
    } else if p == 64 {
        assert(pow2(6) == p);
    } else if p == 128 {
        assert(pow2(7) == p);
    } else if p == 256 {
        assert(pow2(8) == p);
    } else if p == 512 {
        assert(pow2(9) == p);
    } else if p == 1024 {
        assert(pow2(10) == p);
    } else if p == 2048 {
        assert(pow2(11) == p);
    } else if p == 4096 {
        assert(pow2(12) == p);
    } else if p == 8192 {
        assert(pow2(13) == p);
    } else if p == 16384 {
        assert(pow2(14) == p);
    } else {
        assert(pow2(15) == p);
    }
}

/// A pixel in a bucket's job lies in that bucket: the bucket is the one
/// that holds the pixel.
proof fn lemma_in_job_bucket(
    d: nat,
    px: int,
    py: int,
    width: int,
    height: int,
    bucket_w: int,
    bucket_h: int,
)
    requires
        bucket_w > 0,
        bucket_h > 0,
        width <= u32::MAX,
        height <= u32::MAX,
        in_job(d, px, py, width, height, bucket_w, bucket_h),
    ensures
        d2xy_spec(16, d) == (px / bucket_w, py / bucket_h),
{
    let b = d2xy_spec(16, d);
    lemma_d2xy_bounds(16, d);
    let x = b.0 * bucket_w;
    let y = b.1 * bucket_h;
    assert(0 <= x && 0 <= y) by (nonlinear_arith)
        requires
            x == b.0 * bucket_w,
            y == b.1 * bucket_h,
            b.0 >= 0,
            b.1 >= 0,
            bucket_w > 0,
            bucket_h > 0,
    ;
    assert(px == b.0 * bucket_w + (px - x));
    lemma_fundamental_div_mod_converse(px, bucket_w, b.0, px - x);
    lemma_fundamental_div_mod_converse(py, bucket_h, b.1, py - y);
}

/// The jobs of the buckets along the curve tile the region: every pixel of
/// a `width` by `height` region lies in the job of exactly one curve index
/// below `p * p`, where `p` is the side of the bucket grid.
///
/// This holds where the bucket counts across and down fit in 32 bits and
/// the region's sides do too.
pub proof fn law_jobs_tile_region(
    width: int,
    height: int,
    bucket_w: int,
    bucket_h: int,
    p: u32,
    px: int,
    py: int,
)
    requires
        bucket_w > 0,
        bucket_h > 0,
        width <= u32::MAX,
        height <= u32::MAX,
        width / bucket_w + 1 <= u32::MAX,
        height / bucket_h + 1 <= u32::MAX,
        is_power_of_two(p),
        larger_count(width, height, bucket_w, bucket_h) <= p,
        p / 2 < larger_count(width, height, bucket_w, bucket_h),
        larger_count(width, height, bucket_w, bucket_h) <= 0x8000,
        0 <= px < width,
        0 <= py < height,
    ensures
        exists|d: nat| d < p * p && #[trigger] in_job(d, px, py, width, height, bucket_w, bucket_h),
        forall|d1: nat, d2: nat|
            d1 < p * p && d2 < p * p && #[trigger] in_job(
                d1,
                px,
                py,
                width,
                height,
                bucket_w,
                bucket_h,
            ) && #[trigger] in_job(d2, px, py, width, height, bucket_w, bucket_h) ==> d1 == d2,
{
    lemma2_to64();
    lemma_power_of_two_exponent(p);
    let j = choose|j: nat| j <= 15 && pow2(j) == p;
    if j < 16 {
        lemma_pow2_strictly_increases(j, 16);
    }
    let bx = px / bucket_w;
    let by = py / bucket_h;
    lemma_fundamental_div_mod(px, bucket_w);
    lemma_fundamental_div_mod(py, bucket_h);
    lemma_div_pos_is_pos(px, bucket_w);
    lemma_div_pos_is_pos(py, bucket_h);
    assert(bx <= width / bucket_w) by {
        lemma_div_is_ordered(px, width, bucket_w);
    }
    assert(by <= height / bucket_h) by {
        lemma_div_is_ordered(py, height, bucket_h);
    }
    assert(buckets_across(width, bucket_w) == width / bucket_w + 1);
    assert(buckets_across(height, bucket_h) == height / bucket_h + 1);
    assert(bx < p && by < p);
    // The bucket of the pixel is visited at the index of its coordinates.
    law_d2xy_inverts_xy2d(16, bx, by);
    lemma_xy2d_small(16, j, bx, by);
    let d = xy2d_spec(16, bx, by);
    assert(d2xy_spec(16, d as nat) == (bx, by));
    let x = bx * bucket_w;
    let y = by * bucket_h;
    assert(x <= px < x + bucket_w);
    assert(y <= py < y + bucket_h);
    assert(in_job(d as nat, px, py, width, height, bucket_w, bucket_h));
    // No other index below p * p reaches the same bucket.
    assert forall|d1: nat, d2: nat|
        d1 < p * p && d2 < p * p && #[trigger] in_job(
            d1,
            px,
            py,
            width,
            height,
            bucket_w,
            bucket_h,
        ) && #[trigger] in_job(d2, px, py, width, height, bucket_w, bucket_h) implies d1 == d2 by {
        lemma_in_job_bucket(d1, px, py, width, height, bucket_w, bucket_h);
        lemma_in_job_bucket(d2, px, py, width, height, bucket_w, bucket_h);
        law_xy2d_inverts_d2xy(16, d1);
        law_xy2d_inverts_d2xy(16, d2);
        assert(p * p <= 0x8000 * 0x8000) by (nonlinear_arith)
            requires
                p <= 0x8000,
        ;
        assert(pow2(16) * pow2(16) == 0x1_0000_0000) by (nonlinear_arith)
            requires
                pow2(16) == 0x10000,
        ;
        lemma_small_mod(d1, 0x1_0000_0000);
        lemma_small_mod(d2, 0x1_0000_0000);
    }
}

} // verus!
