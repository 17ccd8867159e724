use psychopath::algorithm::{partition, partition_pair, quick_select};
use std::cmp::Ordering;

fn quick_select_ints(list: &mut Vec<i32>, i: usize) {
    quick_select(list, i, |a, b| {
        if a < b {
            Ordering::Less
        } else if a == b {
            Ordering::Equal
        } else {
            Ordering::Greater
        }
    });
}

#[test]
fn quick_select_1() {
    let mut list = vec![8, 9, 7, 4, 6, 1, 0, 5, 3, 2];
    quick_select_ints(&mut list, 5);
    assert_eq!(list[5], 5);
}

#[test]
fn quick_select_2() {
    let mut list = vec![8, 9, 7, 4, 6, 1, 0, 5, 3, 2];
    quick_select_ints(&mut list, 3);
    assert_eq!(list[3], 3);
}

#[test]
fn quick_select_3() {
    let mut list = vec![8, 9, 7, 4, 6, 1, 0, 5, 3, 2];
    quick_select_ints(&mut list, 0);
    assert_eq!(list[0], 0);
}

#[test]
fn quick_select_4() {
    let mut list = vec![8, 9, 7, 4, 6, 1, 0, 5, 3, 2];
    quick_select_ints(&mut list, 9);
    assert_eq!(list[9], 9);
}

#[test]
fn quick_select_places_every_rank() {
    for n in 0..10 {
        let mut list = vec![8, 9, 7, 4, 6, 1, 0, 5, 3, 2];
        quick_select_ints(&mut list, n);
        assert_eq!(list[n], n as i32);
        for i in 0..n {
            assert!(list[i] <= list[n]);
        }
        for i in n + 1..10 {
            assert!(list[i] >= list[n]);
        }
        let mut sorted = list.clone();
        sorted.sort();
        assert_eq!(sorted, vec![0, 1, 2, 3, 4, 5, 6, 7, 8, 9]);
    }
}

#[test]
fn quick_select_with_duplicates() {
    let mut list = vec![3, 1, 3, 1, 2, 2, 3, 1];
    quick_select_ints(&mut list, 4);
    assert_eq!(list[4], 2);
}

#[test]
fn partition_splits_by_predicate() {
    let mut v = vec![5, 2, 8, 1, 9, 3, 7];
    let k = partition(&mut v, |x: &i32| *x < 5);
    assert_eq!(k, 3);
    for i in 0..k {
        assert!(v[i] < 5);
    }
    for i in k..v.len() {
        assert!(v[i] >= 5);
    }
    let mut sorted = v.clone();
    sorted.sort();
    assert_eq!(sorted, vec![1, 2, 3, 5, 7, 8, 9]);
}

#[test]
fn partition_all_and_none() {
    let mut v = vec![1, 2, 3];
    assert_eq!(partition(&mut v, |_x: &i32| true), 3);
    assert_eq!(v, vec![1, 2, 3]);
    assert_eq!(partition(&mut v, |_x: &i32| false), 0);
    let mut e: Vec<i32> = Vec::new();
    assert_eq!(partition(&mut e, |_x: &i32| true), 0);
}

#[test]
fn partition_pair_moves_pairs_together() {
    let mut a = vec![5, 2, 8, 1, 9, 3];
    let mut b = vec!['e', 'b', 'h', 'a', 'i', 'c'];
    let k = partition_pair(&mut a, &mut b, |_i: usize, x: &i32, _y: &char| *x < 5);
    assert_eq!(k, 3);
    for i in 0..a.len() {
        let expected = (b'a' + (a[i] as u8) - 1) as char;
        assert_eq!(b[i], expected);
        assert_eq!(a[i] < 5, i < k);
    }
}

#[test]
fn quick_select_by_another_order() {
    for n in 0..10 {
        let mut list = vec![8, 9, 7, 4, 6, 1, 0, 5, 3, 2];
        quick_select(&mut list, n, |a: &i32, b: &i32| b.cmp(a));
        assert_eq!(list[n], 9 - n as i32);
        for i in 0..n {
            assert!(list[i] >= list[n]);
        }
        for i in n + 1..10 {
            assert!(list[i] <= list[n]);
        }
    }
}

#[test]
fn partition_pair_tests_each_pair_at_its_first_place() {
    let a0 = vec![5, 1, 8, 2, 7, 3, 9];
    let mut a = a0.clone();
    let mut b: Vec<usize> = (0..7).collect();
    let seen = std::cell::RefCell::new(Vec::new());
    let k = partition_pair(&mut a, &mut b, |i: usize, x: &i32, y: &usize| {
        seen.borrow_mut().push((i, *y));
        *x < 5
    });
    assert_eq!(k, 3);
    for (i, y) in seen.borrow().iter() {
        assert_eq!(i, y);
    }
    for i in 0..7 {
        assert_eq!(a[i], a0[b[i]]);
    }
}
