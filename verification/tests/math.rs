use psychopath::hash::{hash_u32, hash_u64};
use psychopath::hilbert::{d2xy, xy2d};
use psychopath::math::{clamp, log2_64, upper_power_of_two};

#[test]
fn log2_64_test() {
    assert_eq!(0, log2_64(0));

    for i in 0..64 {
        assert_eq!(i, log2_64(1 << i));
    }

    for i in 8..64 {
        assert_eq!(i, log2_64((1 << i) + 227));
    }

    for i in 16..64 {
        assert_eq!(i, log2_64((1 << i) + 56369));
    }

    for i in 32..64 {
        assert_eq!(i, log2_64((1 << i) + 2514124923));
    }
}

#[test]
fn log2_64_of_all_ones() {
    assert_eq!(log2_64(u64::MAX), 63);
    assert_eq!(log2_64(3), 1);
}

#[test]
fn reversible() {
    let d = 54;
    let (x, y) = d2xy(d);
    let d2 = xy2d(x, y);

    assert_eq!(d, d2);
}

#[test]
fn hilbert_known_points() {
    assert_eq!(d2xy(0), (0, 0));
    assert_eq!(d2xy(1), (1, 0));
    assert_eq!(d2xy(2), (1, 1));
    assert_eq!(d2xy(3), (0, 1));
    assert_eq!(d2xy(4), (0, 2));
    assert_eq!(d2xy(54), (2, 4));
    assert_eq!(xy2d(1, 0), 1);
    assert_eq!(d2xy(u32::MAX), (65535, 0));
}

#[test]
fn hilbert_reversible_on_many_points() {
    for d in (0u32..2_000_000).step_by(997) {
        let (x, y) = d2xy(d);
        assert_eq!(xy2d(x, y), d);
    }
    let (x, y) = d2xy(u32::MAX);
    assert_eq!(xy2d(x, y), u32::MAX);
}

#[test]
fn upper_power_of_two_values() {
    assert_eq!(upper_power_of_two(1), 1);
    assert_eq!(upper_power_of_two(2), 2);
    assert_eq!(upper_power_of_two(3), 4);
    assert_eq!(upper_power_of_two(17), 32);
    assert_eq!(upper_power_of_two(1024), 1024);
    assert_eq!(upper_power_of_two(0x8000_0000), 0x8000_0000);
}

#[test]
fn clamp_values() {
    assert_eq!(clamp(5, 0, 10), 5);
    assert_eq!(clamp(-3, 0, 10), 0);
    assert_eq!(clamp(42, 0, 10), 10);
    assert_eq!(clamp(0, 0, 0), 0);
}

#[test]
fn hash_values() {
    assert_eq!(hash_u32(0, 0), 0);
    assert_eq!(hash_u32(1, 0), 3890109358);
    assert_eq!(hash_u32(42, 7), 2642221685);
    assert_eq!(hash_u32(u32::MAX, u32::MAX), 1921290090);
    assert_eq!(hash_u64(0, 0), 0);
    assert_eq!(hash_u64(1, 0), 14219712141304869045);
    assert_eq!(hash_u64(42, 7), 17439921706277849265);
    assert_eq!(hash_u64(u64::MAX, u64::MAX), 16672960539309850164);
}


#[test]
fn hilbert_neighbours_are_adjacent() {
    let mut indices: Vec<u32> = (0..5000).collect();
    indices.extend([0x1234_5678u32, 0x7fff_ffff, 0x8000_0000, 0xffff_fff0, 0xffff_fffe]);
    for d in indices {
        let (x1, y1) = d2xy(d);
        let (x2, y2) = d2xy(d + 1);
        let dist = (x1 as i64 - x2 as i64).abs() + (y1 as i64 - y2 as i64).abs();
        assert_eq!(dist, 1, "index {}", d);
    }
    assert_eq!(d2xy(0), (0, 0));
    assert_eq!(d2xy(1), (1, 0));
}

#[test]
fn hashes_of_distinct_integers_differ() {
    let mut seen32 = std::collections::HashSet::new();
    let mut seen64 = std::collections::HashSet::new();
    for n in 0..20000u32 {
        assert!(seen32.insert(hash_u32(n, 7)));
        assert!(seen64.insert(hash_u64(n as u64 * 977, 7)));
    }
}
