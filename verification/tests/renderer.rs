use psychopath::renderer::{bucket_grid_side, bucket_jobs, crop_region, BucketJob};

#[test]
fn crop_regions() {
    assert_eq!(crop_region(None, 640, 480), (640, 480, 0, 0));
    assert_eq!(crop_region(Some((10, 20, 100, 200)), 640, 480), (91, 181, 10, 20));
    assert_eq!(crop_region(Some((600, 0, 9999, 9999)), 640, 480), (40, 480, 600, 0));
    assert_eq!(crop_region(Some((5, 5, 5, 5)), 640, 480), (1, 1, 5, 5));
}

#[test]
fn grid_sides() {
    assert_eq!(bucket_grid_side(640, 480, 32, 32), 32);
    assert_eq!(bucket_grid_side(10, 6, 4, 4), 4);
    assert_eq!(bucket_grid_side(0, 0, 4, 4), 1);
}

fn job(x: u32, y: u32, w: u32, h: u32) -> BucketJob {
    BucketJob { x, y, w, h }
}

#[test]
fn jobs_follow_the_curve_and_tile_the_region() {
    assert_eq!(
        bucket_jobs(10, 6, 0, 0, 4, 4),
        vec![
            job(0, 0, 4, 4),
            job(4, 0, 4, 4),
            job(4, 4, 4, 2),
            job(0, 4, 4, 2),
            job(8, 4, 2, 2),
            job(8, 0, 2, 4)
        ]
    );
    assert_eq!(
        bucket_jobs(10, 6, 3, 7, 4, 4),
        vec![
            job(3, 7, 4, 4),
            job(7, 7, 4, 4),
            job(7, 11, 4, 2),
            job(3, 11, 4, 2),
            job(11, 11, 2, 2),
            job(11, 7, 2, 4)
        ]
    );
}

#[test]
fn jobs_cover_every_pixel_once() {
    let (w, h) = (37usize, 23usize);
    let jobs = bucket_jobs(w, h, 0, 0, 5, 3);
    let mut hits = vec![0u32; w * h];
    for j in &jobs {
        for y in j.y..j.y + j.h {
            for x in j.x..j.x + j.w {
                hits[y as usize * w + x as usize] += 1;
            }
        }
    }
    assert!(hits.iter().all(|&n| n == 1));
}

#[test]
fn empty_region_has_no_jobs() {
    assert!(bucket_jobs(0, 5, 0, 0, 4, 4).is_empty());
}
