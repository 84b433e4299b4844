use rand::{prelude::random, rngs::StdRng, Rng, SeedableRng};

use ppar::{validate, validate_mem_ratio, Error, Vector};

fn collect<T: Copy>(arr: &Vector<T>) -> Vec<T> {
    let mut out = vec![];
    let mut it = arr.iter();
    while let Some(v) = it.next() {
        out.push(*v);
    }
    out
}

#[test]
fn test_three_inserts_scenario() {
    let mut arr: Vector<char> = Vector::new();
    arr.insert(0, 'a').unwrap();
    arr.insert(1, 'b').unwrap();
    arr.insert(1, 'c').unwrap();
    assert_eq!(arr.len(), 3);
    assert_eq!(collect(&arr), vec!['a', 'c', 'b']);
    let mut it = arr.into_iter();
    assert_eq!(it.next(), Some('a'));
    assert_eq!(it.next(), Some('c'));
    assert_eq!(it.next(), Some('b'));
    assert_eq!(it.next(), None);
}

#[test]
fn test_from_slice_small_leaves_scenario() {
    let vals: Vec<u64> = (0..100).collect();
    let arr = Vector::from_slice(&vals, Some(64));
    assert_eq!(arr.len(), 100);
    assert_eq!(*arr.get(50).unwrap(), 50);
    assert!(validate(&arr, &vals));
}

#[test]
fn test_split_append_scenario() {
    let vals: Vec<u64> = (0..10).collect();
    let mut arr = Vector::from_slice(&vals, None);
    let right = arr.split_off(4).unwrap();
    assert_eq!(collect(&arr), vec![0, 1, 2, 3]);
    assert_eq!(collect(&right), vec![4, 5, 6, 7, 8, 9]);
    arr.append(right);
    assert_eq!(collect(&arr), vals);
}

#[test]
fn test_prepend_packed_footprint() {
    let mut arr: Vector<u64> = Vector::new();
    let mut refv: Vec<u64> = vec![];
    for i in 0..10_000u64 {
        arr.insert(0, i).unwrap();
        refv.push(i);
    }
    refv.reverse();
    assert_eq!(collect(&arr), refv);

    let packed = arr.rebalance(true).unwrap();
    assert_eq!(collect(&packed), refv);
    let size = core::mem::size_of::<u64>();
    assert!(packed.footprint() <= 2 * size * packed.len());
}

#[test]
fn test_clone_cow_independence() {
    let seed: u64 = random();
    println!("test_clone_cow_independence seed:{}", seed);
    let mut rng = StdRng::seed_from_u64(seed);

    let vals: Vec<u64> = (0..5_000).map(|_| rng.gen()).collect();
    let v = Vector::from_slice(&vals, Some(256));
    let mut w = v.clone();
    let mut model = vals.clone();

    for _ in 0..1_000 {
        let off = rng.gen::<usize>() % (w.len() + 1);
        let val = rng.gen::<u64>();
        w.insert(off, val).unwrap();
        model.insert(off, val);
    }

    assert_eq!(collect(&v), vals);
    assert!(validate(&w, &model));
}

#[test]
fn test_insert_bounds() {
    let mut arr: Vector<u64> = Vector::new();
    for i in 0..10u64 {
        arr.insert(i as usize, i).unwrap();
    }
    let n = arr.len();
    assert!(arr.insert(n, 42).is_ok());
    let e = arr.insert(arr.len() + 1, 43).unwrap_err();
    match e {
        Error::IndexFail(_loc, _msg) => {}
    }
    assert_eq!(arr.len(), 11);
}

#[test]
fn test_read_write_bounds() {
    let vals: Vec<u64> = (0..10).collect();
    let mut arr = Vector::from_slice(&vals, None);
    let n = arr.len();
    assert!(arr.get(n).is_err());
    assert!(arr.update(n, 1).is_err());
    assert!(arr.remove(n).is_err());
    assert!(arr.update_mut(n, 1).is_err());
    assert!(arr.remove_mut(n).is_err());
    assert_eq!(collect(&arr), vals);
}

#[test]
fn test_split_off_bounds() {
    let vals: Vec<u64> = (0..10).collect();

    let mut arr = Vector::from_slice(&vals, None);
    let right = arr.split_off(0).unwrap();
    assert!(arr.is_empty());
    assert_eq!(collect(&right), vals);

    let mut arr = Vector::from_slice(&vals, None);
    let right = arr.split_off(arr.len()).unwrap();
    assert_eq!(collect(&arr), vals);
    assert!(right.is_empty());

    let mut arr = Vector::from_slice(&vals, None);
    assert!(arr.split_off(arr.len() + 1).is_err());
}

#[test]
fn test_empty_footprint() {
    let arr: Vector<u64> = Vector::new();
    assert_eq!(arr.len(), 0);
    assert!(arr.footprint() > 0);
    assert!(arr.footprint() < 1000);
    assert!(validate_mem_ratio(8, arr.footprint(), arr.len()));
}

#[test]
fn test_tiny_leaf_cap() {
    // a leaf capacity below the element size still admits one item per leaf
    let vals: Vec<u64> = (0..20).collect();
    let mut arr = Vector::from_slice(&vals, Some(1));
    assert_eq!(collect(&arr), vals);
    arr.insert(10, 99).unwrap();
    assert_eq!(*arr.get(10).unwrap(), 99);
    assert_eq!(arr.len(), 21);
}

#[test]
fn test_remove_insert_restores() {
    let vals: Vec<u64> = (0..50).collect();
    let mut arr = Vector::from_slice(&vals, Some(64));
    let prior = arr.remove(17).unwrap();
    assert_eq!(prior, 17);
    arr.insert(17, prior).unwrap();
    assert_eq!(collect(&arr), vals);
}

#[test]
fn test_update_idempotent() {
    let vals: Vec<u64> = (0..50).collect();
    let mut once = Vector::from_slice(&vals, Some(64));
    once.update(20, 777).unwrap();
    let mut twice = Vector::from_slice(&vals, Some(64));
    twice.update(20, 777).unwrap();
    twice.update(20, 777).unwrap();
    assert_eq!(collect(&once), collect(&twice));
}

#[test]
fn test_rebalance_preserves_sequence() {
    let seed: u64 = random();
    println!("test_rebalance_preserves_sequence seed:{}", seed);
    let mut rng = StdRng::seed_from_u64(seed);

    let vals: Vec<u64> = (0..10_000).map(|_| rng.gen()).collect();
    let arr = Vector::from_slice(&vals, Some(128));
    let loose = arr.rebalance(false).unwrap();
    let packed = arr.rebalance(true).unwrap();
    assert_eq!(collect(&loose), vals);
    assert_eq!(collect(&packed), vals);
}

#[test]
fn test_mem_ratio_formula() {
    // exact expected values of the integer acceptance test
    assert!(validate_mem_ratio(8, 999, 0));
    assert!(!validate_mem_ratio(8, 1000, 0));
    assert!(validate_mem_ratio(8, 8 * 100 * 3 + 999, 100));
    assert!(!validate_mem_ratio(8, 8 * 100 * 3 + 1000, 100));
    assert!(validate_mem_ratio(8, 17 * 1000, 1000));
    assert!(!validate_mem_ratio(8, 18 * 1000, 1000));
}

#[test]
fn test_set_leaf_size_keeps_sequence() {
    let vals: Vec<u64> = (0..100).collect();
    let mut arr = Vector::from_slice(&vals, Some(64));
    arr.set_leaf_size(1024);
    assert_eq!(collect(&arr), vals);
    arr.insert(0, 42).unwrap();
    assert_eq!(*arr.get(0).unwrap(), 42);
}

#[test]
fn test_append_mismatched_leaf_caps() {
    let a: Vec<u64> = (0..100).collect();
    let b: Vec<u64> = (100..200).collect();
    let mut x = Vector::from_slice(&a, Some(64));
    let y = Vector::from_slice(&b, Some(512));
    x.append(y);
    let all: Vec<u64> = (0..200).collect();
    assert_eq!(collect(&x), all);
}
