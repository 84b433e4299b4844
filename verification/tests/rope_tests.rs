use rand::{prelude::random, rngs::SmallRng, Rng, SeedableRng};

use std::fmt;

use ppar::Rope;

fn rng_from_u128(seed: u128) -> SmallRng {
    let mut bytes = [0u8; 32];
    bytes[..16].copy_from_slice(&seed.to_le_bytes());
    SmallRng::from_seed(bytes)
}

#[test]
fn list_rope_test_test_rope_new() {
    let rr: Rope<u64> = Rope::new();
    assert!(rr.len() == 0);
}

#[test]
fn rope_test_test_rope_new() {
    let rr: Rope<u64> = Rope::new();
    assert!(rr.len() == 0);
}

#[test]
fn list_rope_test_test_rope_crud() {
    let seed: u128 = 89704735013013664095413923566273445973;
    println!("test_rope_insert1 seed {}", seed);
    let mut rng = rng_from_u128(seed);

    let ops = [0, 1, 2, 3, 10, 100, 1000, 10_000, 1000_000];
    for n in ops.iter() {
        let mut rr = Rope::new();
        let mut refv = vec![];

        for _ in 0..*n {
            rr = match rng.gen::<u8>() % 2 {
                // get
                0 if rr.len() > 0 => {
                    let off = rng.gen::<usize>() % rr.len();
                    assert_eq!(refv[off], *rr.get(off).unwrap());
                    rr
                }
                // insert
                _ => {
                    let off = rng.gen::<usize>() % (rr.len() + 1);
                    let val = rng.gen::<u64>();

                    refv.insert(off, val);
                    let r1 = rr.insert(off, val).unwrap();
                    assert_eq!(rr.len() + 1, r1.len());
                    r1
                }
            };
        }
        println!("ops:{}, n:{} footprint:{}", n, rr.len(), rr.footprint());
        validate(&rr, &refv);
    }
}

#[test]
fn rope_test_test_rope_crud() {
    let seed: u128 = random();
    println!("test_rope_insert1 seed {}", seed);
    let mut rng = rng_from_u128(seed);

    let ops = [0, 1, 2, 3, 10, 100, 1000, 10_000, 1000_000];
    for n in ops.iter() {
        let mut rr = Rope::new();
        let mut refv = vec![];

        for _ in 0..*n {
            rr = match rng.gen::<u8>() % 4 {
                // get
                0 if rr.len() > 0 => {
                    let off = rng.gen::<usize>() % rr.len();
                    assert_eq!(refv[off], *rr.get(off).unwrap());
                    rr
                }
                // insert
                0 | 1 => {
                    let off = rng.gen::<usize>() % (rr.len() + 1);
                    let val = rng.gen::<u64>();

                    refv.insert(off, val);
                    let r1 = rr.insert(off, val).unwrap();
                    assert_eq!(rr.len() + 1, r1.len());
                    r1
                }
                // set
                2 if rr.len() > 0 => {
                    let off = rng.gen::<usize>() % rr.len();
                    let val = rng.gen::<u64>();

                    refv[off] = val;
                    let r1 = rr.set(off, val).unwrap();
                    assert_eq!(rr.len(), r1.len());
                    r1
                }
                // delete
                3 if rr.len() > 0 => {
                    let off = rng.gen::<usize>() % rr.len();

                    refv.remove(off);
                    let r1 = rr.delete(off).unwrap();
                    assert_eq!(rr.len() - 1, r1.len());
                    r1
                }
                _ => rr,
            };
        }
        println!("ops:{}, n:{} footprint:{}", n, rr.len(), rr.footprint());
        validate(&rr, &refv);
    }
}

#[test]
fn test_rope_prepend() {
    let seed: u128 = random();
    println!("test_rope_prepend seed {}", seed);
    let mut rng = rng_from_u128(seed);

    let ops = [10_000, 1000_000];
    for n in ops.iter() {
        let mut rr = Rope::new();
        let mut refv: Vec<u64> = vec![];

        for _i in 0..*n {
            let val = rng.gen::<u64>();
            refv.push(val);
            let r1 = rr.insert(0, val).unwrap();
            assert_eq!(rr.len() + 1, r1.len());
            rr = r1
        }

        refv.reverse();

        let ratio = mem_ratio(8, rr.footprint(), rr.len());
        println!(
            "ops:{}, n:{} footprint:{} mem_ratio:{}",
            n,
            rr.len(),
            rr.footprint(),
            ratio
        );
        validate(&rr, &refv);
    }
}

#[test]
fn test_rope_delete_skew() {
    let seed: u128 = random();
    let mut rng = rng_from_u128(seed);

    let mut rr: Rope<u64> = Rope::new();
    let mut refv = vec![];

    for _ in 0..100_000 {
        let off = rng.gen::<usize>() % (rr.len() + 1);
        let val = rng.gen::<u64>();
        rr = rr.insert(off, val).unwrap();
        refv.insert(off, val);
    }

    for _ in 0..90_000 {
        let off = rng.gen::<usize>() % rr.len();
        rr = rr.delete(off).unwrap();
        refv.remove(off);
    }

    validate(&rr, &refv);

    let ratio = mem_ratio(8, rr.footprint(), rr.len());
    println!("test_rope_delete_skew n:{} mem_ratio:{}%", rr.len(), ratio,);
}

fn validate<T: fmt::Debug + Copy + Eq + PartialEq>(r: &Rope<T>, refv: &[T]) {
    assert_eq!(refv.len(), r.len());
    assert_eq!(r.len(), r.calculate_len());

    for (off, val) in refv.iter().enumerate() {
        assert_eq!(r.get(off).unwrap(), val);
    }

    assert!(r.get(r.len()).is_err());
}

fn mem_ratio(size: usize, mem: usize, n: usize) -> f64 {
    ((((mem as f64) / (n as f64)) - (size as f64)) / size as f64) * 100_f64
}
