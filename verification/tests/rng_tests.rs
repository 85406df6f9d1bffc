use treegp::rng::{coin, rand_index, Rng, XorShift64, PROB_ONE};

#[test]
fn equal_seeds_repeat_the_sequence() {
    let mut a = XorShift64::new(99);
    let mut b = XorShift64::new(99);
    for _ in 0..50 {
        assert_eq!(a.next_u64(), b.next_u64());
        assert_eq!(a.next_u32(), b.next_u32());
    }
    let mut c = XorShift64::new(100);
    let first: Vec<u64> = (0..8).map(|_| XorShift64::new(99).next_u64()).collect();
    assert!(first.iter().any(|v| *v != c.next_u64()));
}

#[test]
fn zero_seed_still_produces_variety() {
    let mut r = XorShift64::new(0);
    let draws: Vec<u64> = (0..16).map(|_| r.next_u64()).collect();
    assert!(draws.iter().any(|v| *v != draws[0]));
    assert!(draws.iter().all(|v| *v != 0));
}

#[test]
fn fill_bytes_overwrites_every_byte() {
    let mut r = XorShift64::new(7);
    let mut buf = vec![0u8; 33];
    r.fill_bytes(&mut buf);
    assert_eq!(buf.len(), 33);
    assert!(buf.iter().any(|b| *b != 0));
}

#[test]
fn indices_stay_in_bounds() {
    let mut r = XorShift64::new(8);
    for n in [1usize, 2, 3, 10, 1000] {
        for _ in 0..100 {
            assert!(rand_index(&mut r, n) < n);
        }
    }
}

#[test]
fn certain_and_impossible_coins() {
    let mut r = XorShift64::new(9);
    for _ in 0..100 {
        assert!(coin(&mut r, PROB_ONE));
        assert!(!coin(&mut r, 0));
    }
}
