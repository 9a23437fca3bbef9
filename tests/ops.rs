use memega::crossover::{
    crossover_cycle, crossover_kpx, crossover_kpx_pts, crossover_order, crossover_order_single,
    crossover_pmx, crossover_pmx_single, crossover_ux, crossover_ux_rng,
};
use memega::distance::{count_different, kendall_tau};
use memega::distributions::PrintableAscii;
use memega::error::MemegaError;
use memega::mutation::{mutate_insert, mutate_inversion, mutate_reset, mutate_scramble, mutate_swap};
use rand::Rng;

fn str_to_vec(s: &str) -> Vec<char> {
    s.chars().collect()
}

fn vec_to_str(v: &[char]) -> String {
    v.iter().collect()
}

fn sorted(v: &[char]) -> Vec<char> {
    let mut v = v.to_vec();
    v.sort();
    v
}

#[test]
fn test_crossover_pmx() {
    let a: [i32; 0] = [];
    let b: [i32; 0] = [];
    assert_eq!(crossover_pmx_single(&a, &b, 0, 0), []);

    let a = [1];
    let b = [1];
    assert_eq!(crossover_pmx_single(&a, &b, 0, 0), [1]);

    let a = [1, 2, 3, 4, 5, 6, 7, 8, 9];
    let b = [9, 3, 7, 8, 2, 6, 5, 1, 4];
    assert_eq!(crossover_pmx_single(&a, &b, 3, 6), [9, 3, 2, 4, 5, 6, 7, 1, 8]);

    let a = str_to_vec("abcdefghi");
    let b = str_to_vec("icghbfead");
    assert_eq!(vec_to_str(&crossover_pmx_single(&a, &b, 3, 6)), "icbdefgah");

    let a = [1, 1, 1, 1, 1];
    let b = [1, 1, 1, 1, 1];
    assert_eq!(crossover_pmx_single(&a, &b, 1, 3), [1, 1, 1, 1, 1]);

    let a = [1, 2, 3, 1, 1];
    let b = [1, 1, 4, 5, 6];
    assert_eq!(crossover_pmx_single(&a, &b, 1, 3), [5, 2, 3, 1, 6]);
}

#[test]
fn test_crossover_order() {
    let a: [i32; 0] = [];
    let b: [i32; 0] = [];
    assert_eq!(crossover_order_single(&a, &b, 0, 0), []);

    let a = [1];
    let b = [1];
    assert_eq!(crossover_order_single(&a, &b, 0, 0), [1]);

    let a = [1, 2, 3, 4, 5, 6, 7, 8, 9];
    let b = [9, 3, 7, 8, 2, 6, 5, 1, 4];
    assert_eq!(crossover_order_single(&a, &b, 3, 6), [3, 8, 2, 4, 5, 6, 7, 1, 9]);

    let a = str_to_vec("abcdefghi");
    let b = str_to_vec("icghbfead");
    assert_eq!(vec_to_str(&crossover_order_single(&a, &b, 3, 6)), "chbdefgai");

    let a = [1, 1, 1, 1, 1];
    let b = [1, 1, 1, 1, 1];
    assert_eq!(crossover_order_single(&a, &b, 1, 3), [1, 1, 1, 1, 1]);

    let a = [1, 2, 3, 1, 1];
    let b = [1, 1, 4, 5, 6];
    assert_eq!(crossover_order_single(&a, &b, 1, 3), [4, 2, 3, 1, 6]);
}

#[test]
fn test_crossover_cycle() {
    let mut a: [i32; 0] = [];
    let mut b: [i32; 0] = [];
    crossover_cycle(&mut a, &mut b);
    assert_eq!(a, []);
    assert_eq!(b, []);

    let mut a = [1];
    let mut b = [1];
    crossover_cycle(&mut a, &mut b);
    assert_eq!(a, [1]);
    assert_eq!(b, [1]);

    let mut a = [1];
    let mut b = [2];
    crossover_cycle(&mut a, &mut b);
    assert_eq!(a, [1]);
    assert_eq!(b, [2]);

    let mut a = [1, 2, 3, 4, 5, 6, 7, 8, 9];
    let mut b = [9, 3, 7, 8, 2, 6, 5, 1, 4];
    crossover_cycle(&mut a, &mut b);
    assert_eq!(a, [1, 3, 7, 4, 2, 6, 5, 8, 9]);
    assert_eq!(b, [9, 2, 3, 8, 5, 6, 7, 1, 4]);

    let mut a = str_to_vec("abcdefghi");
    let mut b = str_to_vec("icghbfead");
    crossover_cycle(&mut a, &mut b);
    assert_eq!(vec_to_str(&a), "acgdbfehi");
    assert_eq!(vec_to_str(&b), "ibchefgad");

    let mut a = [1, 1, 1, 1, 1];
    let mut b = [1, 1, 1, 1, 1];
    crossover_cycle(&mut a, &mut b);
    assert_eq!(a, [1, 1, 1, 1, 1]);
    assert_eq!(b, [1, 1, 1, 1, 1]);

    let mut a = [1, 2, 3, 1, 1];
    let mut b = [1, 1, 4, 5, 6];
    crossover_cycle(&mut a, &mut b);
    assert_eq!(a, [1, 1, 3, 5, 1]);
    assert_eq!(b, [1, 2, 4, 1, 6]);
}

#[test]
fn test_crossover_1px() {
    let mut a = str_to_vec("abcd");
    let mut b = str_to_vec("wxyz");
    crossover_kpx_pts(&mut a, &mut b, &[3]);
    assert_eq!(vec_to_str(&a), "abcz");
    assert_eq!(vec_to_str(&b), "wxyd");
}

#[test]
fn test_crossover_2px() {
    let mut a = str_to_vec("abcd");
    let mut b = str_to_vec("wxyz");
    crossover_kpx_pts(&mut a, &mut b, &[1, 2]);
    assert_eq!(vec_to_str(&a), "axcd");
    assert_eq!(vec_to_str(&b), "wbyz");
}

#[test]
#[allow(deprecated)]
fn test_crossover_ux() {
    let mut r = rand::rngs::mock::StepRng::new(1 << 31, 1 << 31);
    let mut a = str_to_vec("abcd");
    let mut b = str_to_vec("wxyz");
    let flips: Vec<bool> = (0..a.len()).map(|_| r.random::<bool>()).collect();
    crossover_ux_rng(&mut a, &mut b, &flips);
    assert_eq!(vec_to_str(&a), "wbyd");
    assert_eq!(vec_to_str(&b), "axcz");
}

#[test]
fn kpx_points_given_unsorted_and_repeated() {
    let mut a = str_to_vec("abcdef");
    let mut b = str_to_vec("uvwxyz");
    crossover_kpx_pts(&mut a, &mut b, &[4, 1]);
    assert_eq!(vec_to_str(&a), "avwxef");
    assert_eq!(vec_to_str(&b), "ubcdyz");

    let mut a = str_to_vec("abcdef");
    let mut b = str_to_vec("uvwxyz");
    crossover_kpx_pts(&mut a, &mut b, &[2, 2]);
    assert_eq!(vec_to_str(&a), "abcdef");
    assert_eq!(vec_to_str(&b), "uvwxyz");
}

#[test]
fn kpx_on_different_lengths_keeps_tails() {
    let mut a = str_to_vec("abcdef");
    let mut b = str_to_vec("uvw");
    crossover_kpx_pts(&mut a, &mut b, &[1]);
    assert_eq!(vec_to_str(&a), "avwdef");
    assert_eq!(vec_to_str(&b), "ubc");
}

#[test]
fn random_crossovers_keep_values_per_position() {
    for _ in 0..20 {
        let a0 = str_to_vec("abcdefghi");
        let b0 = str_to_vec("icghbfead");
        let (mut a, mut b) = (a0.clone(), b0.clone());
        crossover_ux(&mut a, &mut b);
        for i in 0..a.len() {
            assert!((a[i] == a0[i] && b[i] == b0[i]) || (a[i] == b0[i] && b[i] == a0[i]));
        }
        let (mut a, mut b) = (a0.clone(), b0.clone());
        crossover_kpx(&mut a, &mut b, 2);
        for i in 0..a.len() {
            assert!((a[i] == a0[i] && b[i] == b0[i]) || (a[i] == b0[i] && b[i] == a0[i]));
        }
        let (mut a, mut b) = (a0.clone(), b0.clone());
        crossover_cycle(&mut a, &mut b);
        assert_eq!(sorted(&a), sorted(&a0));
        assert_eq!(sorted(&b), sorted(&b0));
        let (mut a, mut b) = (a0.clone(), b0.clone());
        crossover_pmx(&mut a, &mut b);
        assert_eq!(sorted(&a), sorted(&a0));
        assert_eq!(sorted(&b), sorted(&b0));
        let (mut a, mut b) = (a0.clone(), b0.clone());
        crossover_order(&mut a, &mut b);
        assert_eq!(sorted(&a), sorted(&a0));
        assert_eq!(sorted(&b), sorted(&b0));
    }
}

#[test]
fn test_count_different() {
    assert_eq!(count_different(&[1], &[1]), 0);
    assert_eq!(count_different(&[1], &[2]), 1);
    assert_eq!(count_different(&[1], &[1, 2]), 1);
    assert_eq!(count_different(&[1, 2], &[1]), 1);
}

#[test]
fn count_different_empty() {
    let e: [u8; 0] = [];
    assert_eq!(count_different(&e, &e), 0);
    assert_eq!(count_different(&e, &[1, 2, 3]), 3);
}

#[test]
fn test_kendall_tau() -> Result<(), MemegaError> {
    assert_eq!(kendall_tau(&[1], &[1])?, 0);
    assert_eq!(kendall_tau(&[1], &[2])?, 0);
    assert_eq!(kendall_tau(&[1, 2], &[1, 2])?, 0);
    assert_eq!(kendall_tau(&[1, 2], &[2, 1])?, 1);
    assert_eq!(kendall_tau(&[1, 2, 3, 4, 5], &[3, 4, 1, 2, 5])?, 4);
    Ok(())
}

#[test]
fn kendall_tau_length_mismatch() {
    assert_eq!(kendall_tau(&[1, 2], &[1]), Err(MemegaError::LengthMismatch));
}

#[test]
fn mutations_rearrange_only() {
    for _ in 0..20 {
        let s0 = str_to_vec("abcdefg");
        let mut s = s0.clone();
        mutate_swap(&mut s);
        assert_eq!(sorted(&s), sorted(&s0));
        assert!(s.iter().zip(&s0).filter(|(a, b)| a != b).count() <= 2);

        let mut s = s0.clone();
        mutate_insert(&mut s);
        assert_eq!(sorted(&s), sorted(&s0));

        let mut s = s0.clone();
        mutate_scramble(&mut s);
        assert_eq!(sorted(&s), sorted(&s0));

        let mut s = s0.clone();
        mutate_inversion(&mut s);
        assert_eq!(sorted(&s), sorted(&s0));
        if let (Some(i), Some(j)) =
            ((0..7).find(|&k| s[k] != s0[k]), (0..7).rev().find(|&k| s[k] != s0[k]))
        {
            let back: Vec<char> = s0[i..=j].iter().rev().cloned().collect();
            assert_eq!(s[i..=j].to_vec(), back);
        }

        let mut s = s0.clone();
        mutate_reset(&mut s, 'z');
        assert_eq!(s.iter().filter(|&&c| c == 'z').count(), 1);
        assert_eq!(s.iter().zip(&s0).filter(|(a, b)| a != b).count(), 1);
    }
    let mut e: Vec<char> = vec![];
    mutate_reset(&mut e, 'z');
    assert!(e.is_empty());
}

#[test]
fn random_operators_change_something() {
    let s0: Vec<u32> = (0..50).collect();
    let mut scrambled = false;
    let mut crossed = false;
    for _ in 0..200 {
        let mut s = s0.clone();
        mutate_scramble(&mut s);
        scrambled |= s != s0;
        let (mut a, mut b) = (s0.clone(), vec![100u32; 50]);
        crossover_kpx(&mut a, &mut b, 2);
        crossed |= a != s0;
    }
    assert!(scrambled);
    assert!(crossed);
}

#[test]
fn printable_ascii_samples() {
    for _ in 0..200 {
        let b = PrintableAscii.sample_u8();
        assert!((32..=126).contains(&b));
        let c = PrintableAscii.sample_char();
        assert!((' '..='~').contains(&c));
    }
}

#[test]
fn two_point_crossover_always_trades() {
    let a0: Vec<u32> = (0..8).collect();
    let b0: Vec<u32> = (100..108).collect();
    for _ in 0..100 {
        let (mut a, mut b) = (a0.clone(), b0.clone());
        crossover_kpx(&mut a, &mut b, 2);
        assert_ne!(a, a0);
        assert_ne!(b, b0);
    }
}
