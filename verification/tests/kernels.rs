//! The kernels in exact arithmetic.

use burn_sct::cholesky::{cholesky_host, qsolve, qsolve_row};
use burn_sct::grid::{filled, transpose};
use burn_sct::house::{load_columns, q_pass, qr_cpu, r_k_from_r, r_pass};
use burn_sct::lanes::{apply_pair, dot3, dot_pair, hsum, hsum_wide, rotate2};
use burn_sct::matmul::{matmul_rows, matmul_rt};
use burn_sct::plan::chunk_ranges;
use burn_sct::residue::Residue;
use burn_sct::scalar::Scalar;
use burn_sct::wave::{chunk_own, chunk_update};
use burn_sct::words::{load, store, unit_words};

const P: i64 = 2147483647;

fn res(n: i64) -> Residue {
    Residue { v: n.rem_euclid(P) as u32 }
}

fn all(ns: &[i64]) -> Vec<Residue> {
    ns.iter().map(|n| res(*n)).collect()
}

fn numbers(xs: &[Residue]) -> Vec<u32> {
    xs.iter().map(|x| x.v).collect()
}

#[test]
fn residues_form_a_field() {
    let (a, b) = (res(123456789), res(987654321));
    assert_eq!(a.add(b).v as i64, (123456789 + 987654321) % P);
    assert_eq!(a.sub(b).v as i64, (123456789 - 987654321i64).rem_euclid(P));
    assert_eq!(a.mul(b).v as i64, 123456789 * 987654321 % P);
    assert_eq!(a.div(b).mul(b).v, a.v);
    assert_eq!(a.neg().add(a).v, 0);
    assert_eq!(a.mul_add(b, Residue::one()).v as i64, (123456789 * 987654321 + 1) % P);
    assert_eq!(Residue::zero().neg().v, 0);
    assert_eq!(Residue::decimal(2).mul(res(100)).v, 1);
    assert_eq!(Residue::from_count(5).v, 5);
    let root = res(25).sqrt();
    assert_eq!(root.mul(root).v, 25);
    assert_eq!(res(3).max(res(5)).v, 3);
    assert_eq!(res(0).max(res(5)).v, 5);
    assert!(res(3).less(res(5)) && !res(5).less(res(3)) && !res(3).less(res(3)));
    assert!(res(3).less_or_equal(res(3)) && res(3).equal(res(3)) && !res(3).equal(res(4)));
    assert_eq!((a.abs().v, a.signum().v), (a.v, 1));
}

#[test]
fn lanes_are_added_in_a_tree() {
    let v: [Residue; 8] = [res(1), res(2), res(3), res(4), res(5), res(6), res(7), res(8)];
    assert_eq!(hsum(&v).v, 36);
    let w: [Residue; 4] = [res(1), res(2), res(3), res(4)];
    assert_eq!(hsum_wide(&w).v, 10);
}

#[test]
fn dot_products_of_every_length() {
    for n in 0..40i64 {
        let a: Vec<Residue> = (0..n).map(res).collect();
        let b: Vec<Residue> = (0..n).map(|x| res(2 * x + 1)).collect();
        let want: i64 = (0..n).map(|x| x * (2 * x + 1)).sum();
        assert_eq!(dot_pair(&a, &b).v as i64, want);
        for lanes in [false, true] {
            let (aa, bb, ab) = dot3(&a, &b, lanes);
            assert_eq!(aa.v as i64, (0..n).map(|x| x * x).sum::<i64>());
            assert_eq!(bb.v as i64, (0..n).map(|x| (2 * x + 1) * (2 * x + 1)).sum::<i64>());
            assert_eq!(ab.v as i64, want);
        }
    }
}

#[test]
fn scaled_vectors_are_taken_off() {
    for n in 0..20i64 {
        let mut a: Vec<Residue> = (0..n).map(|x| res(100 + x)).collect();
        let b: Vec<Residue> = (0..n).map(res).collect();
        apply_pair(&mut a, &b, res(3));
        let want: Vec<u32> = (0..n).map(|x| (100 - 2 * x) as u32).collect();
        assert_eq!(numbers(&a), want);
    }
}

#[test]
fn pairs_are_rotated() {
    for lanes in [false, true] {
        for n in 0..10i64 {
            let mut a: Vec<Residue> = (0..n).map(|x| res(x + 1)).collect();
            let mut b: Vec<Residue> = (0..n).map(|x| res(10 * x)).collect();
            rotate2(&mut a, &mut b, res(3), res(4), lanes);
            for x in 0..n {
                assert_eq!(a[x as usize].v, res(3 * (x + 1) + 40 * x).v);
                assert_eq!(b[x as usize].v, res(30 * x - 4 * (x + 1)).v);
            }
        }
    }
}

#[test]
fn rotations_keep_the_squares_and_are_undone() {
    // 3/5 and 4/5 are a cosine and a sine.
    let (c, s) = (res(3).div(res(5)), res(4).div(res(5)));
    let squares = |x: &[Residue], y: &[Residue]| {
        x.iter().chain(y).fold(Residue::zero(), |acc, v| acc.add(v.mul(*v))).v
    };
    for lanes in [false, true] {
        for n in 0..10i64 {
            let a: Vec<Residue> = (0..n).map(|x| res(x * x + 1)).collect();
            let b: Vec<Residue> = (0..n).map(|x| res(7 * x - 3)).collect();
            let (mut x, mut y) = (a.clone(), b.clone());
            rotate2(&mut x, &mut y, c, s, lanes);
            assert_eq!(squares(&x, &y), squares(&a, &b));
            rotate2(&mut x, &mut y, c, s.neg(), lanes);
            assert_eq!((numbers(&x), numbers(&y)), (numbers(&a), numbers(&b)));
        }
    }
}

#[test]
fn transpose_of_known_matrix() {
    let t = transpose(&all(&[1, 2, 3, 4, 5, 6]), 2, 3);
    assert_eq!(numbers(&t), vec![1, 4, 2, 5, 3, 6]);
    assert_eq!(filled(7u8, 3), vec![7, 7, 7]);
}

#[test]
fn columns_are_loaded_in_blocks() {
    let (m, n) = (70, 3);
    let a: Vec<Residue> = (0..m * n).map(|x| res(x as i64)).collect();
    let r = load_columns(&a, m, n);
    for c in 0..n {
        for x in 0..m {
            assert_eq!(r[c * m + x].v, (x * n + c) as u32);
        }
    }
}

#[test]
fn matmul_of_known_matrices() {
    let a = all(&[1, 2, 3, 4, 5, 6]);
    let b = all(&[7, 8, 9, 10, 11, 12]);
    assert_eq!(numbers(&matmul_rt(&a, 2, 3, &b, 2, 1)), vec![58, 64, 139, 154]);
    // The rows of a product can be found in parts.
    let bt = transpose(&b, 3, 2);
    assert_eq!(numbers(&matmul_rows(&a, 3, &bt, 2, 1, 2)), vec![139, 154]);
    assert_eq!(numbers(&matmul_rows(&a, 3, &bt, 2, 1, 1)), Vec::<u32>::new());
}

#[test]
fn product_with_the_unit_matrix() {
    let a: Vec<Residue> = (0..35).map(|x| res(x * x - 9)).collect();
    let unit: Vec<Residue> = (0..49).map(|x| res(if x % 8 == 0 { 1 } else { 0 })).collect();
    assert_eq!(numbers(&matmul_rt(&a, 5, 7, &unit, 7, 1)), numbers(&a));
}

#[test]
fn product_does_not_depend_on_the_threads() {
    let (rows, kk, k) = (1030, 3, 2);
    let a: Vec<Residue> = (0..rows * kk).map(|x| res((x * x + 1) as i64)).collect();
    let b: Vec<Residue> = (0..kk * k).map(|x| res(5 * x as i64 - 2)).collect();
    let one = numbers(&matmul_rt(&a, rows, kk, &b, k, 1));
    assert_eq!(one[0], res(1 * -2 + 2 * 8 + 5 * 18).v);
    for threads in [0, 2, 3, 12] {
        assert_eq!(numbers(&matmul_rt(&a, rows, kk, &b, k, threads)), one);
    }
}

#[test]
fn passes_do_not_depend_on_the_threads() {
    let (m, n) = (1024, 64);
    let a: Vec<Residue> = (0..m * n).map(|x| res((x * x + 5 * x + 3) as i64)).collect();
    let (r, tau, k) = r_pass(&a, m, n, 1, true);
    assert_eq!(k, n);
    let q = q_pass(&r, &tau, m, n, k, 1, true);
    for threads in [2, 5, 12] {
        let (r2, tau2, _) = r_pass(&a, m, n, threads, true);
        assert_eq!((numbers(&r2), numbers(&tau2)), (numbers(&r), numbers(&tau)));
        assert_eq!(numbers(&q_pass(&r, &tau, m, n, k, threads, true)), numbers(&q));
    }
}

#[test]
fn cholesky_multiplies_back() {
    // G = B^T B with a triangular B whose diagonal entries are squares.
    let k = 5;
    let mut b = vec![0i64; k * k];
    for i in 0..k {
        b[i * k + i] = ((i + 2) * (i + 2)) as i64;
        for j in i + 1..k {
            b[i * k + j] = (3 * i + 7 * j + 1) as i64;
        }
    }
    let mut g = vec![0i64; k * k];
    for i in 0..k {
        for j in 0..k {
            g[i * k + j] = (0..k).map(|l| b[l * k + i] * b[l * k + j]).sum();
        }
    }
    let r = cholesky_host(&all(&g), k);
    for i in 0..k {
        for j in 0..k {
            let mut acc = Residue::zero();
            for l in 0..k {
                acc = acc.add(r[l * k + i].mul(r[l * k + j]));
            }
            assert_eq!(acc.v, res(g[i * k + j]).v);
            if j < i {
                assert_eq!(r[i * k + j].v, 0);
            }
        }
    }
}

#[test]
fn cholesky_keeps_off_zero() {
    // Below the floor the diagonal entry is the root of the floor.
    let floor = Residue::decimal(30);
    let r = cholesky_host(&all(&[0]), 1);
    assert_eq!(r[0].v, floor.sqrt().v);
}

#[test]
fn substitution_solves_rows_of_every_length() {
    for k in 0..11usize {
        let mut r = vec![0i64; k * k];
        for i in 0..k {
            for j in i..k {
                r[i * k + j] = (i * 5 + j * 3 + 2) as i64;
            }
        }
        let r = all(&r);
        let a: Vec<Residue> = (0..k).map(|j| res((j * j + 4) as i64)).collect();
        let q = qsolve_row(&a, &r, k);
        for j in 0..k {
            let mut acc = Residue::zero();
            for i in 0..=j {
                acc = acc.add(q[i].mul(r[i * k + j]));
            }
            assert_eq!(acc.v, a[j].v);
        }
        let both: Vec<Residue> = a.iter().chain(a.iter()).copied().collect();
        let twice = qsolve(&both, &r, 2, k);
        assert_eq!(numbers(&twice[..k]), numbers(&q));
        assert_eq!(numbers(&twice[k..]), numbers(&q));
    }
}

#[test]
fn householder_multiplies_back() {
    for lanes in [false, true] {
        let a = all(&[3, 1, 4, 2]);
        let (q, r) = qr_cpu(&a, 2, 2, lanes);
        for i in 0..2 {
            for j in 0..2 {
                let prod = q[i * 2].mul(r[j]).add(q[i * 2 + 1].mul(r[2 + j]));
                assert_eq!(prod.v, a[i * 2 + j].v);
                let gram = q[i].mul(q[j]).add(q[2 + i].mul(q[2 + j]));
                assert_eq!(gram.v, if i == j { 1 } else { 0 });
            }
        }
        assert_eq!(r[2].v, 0);
    }
}

#[test]
fn shared_out_pass_is_the_pass() {
    let (m, n) = (13, 7);
    let a: Vec<Residue> = (0..m * n).map(|x| res((x * x + 5 * x + 3) as i64)).collect();
    for threads in 1..9 {
        for lanes in [false, true] {
            let (r, tau, k) = r_pass(&a, m, n, 1, lanes);
            let ranges = chunk_ranges(n, threads);
            let start = load_columns(&a, m, n);
            let mut chunks: Vec<Vec<Residue>> =
                ranges.iter().map(|(lo, hi)| start[lo * m..hi * m].to_vec()).collect();
            for i in 0..k {
                let owner = ranges.iter().position(|(lo, hi)| *lo <= i && i < *hi).unwrap();
                let (lo, hi) = ranges[owner];
                let (t, tail) = chunk_own(&mut chunks[owner], m, lo, hi, i);
                assert_eq!(t.v, tau[i].v);
                for (c, (lo, hi)) in ranges.iter().enumerate() {
                    chunk_update(&mut chunks[c], m, *lo, *hi, i, &tail, t, lanes);
                }
            }
            assert_eq!(numbers(&chunks.concat()), numbers(&r));
        }
    }
}

#[test]
fn triangular_factor_of_wide_matrix() {
    // One row: R is the row itself, up to sign.
    let (r, _tau, k) = r_pass(&all(&[3, 5, 7]), 1, 3, 1, false);
    assert_eq!(k, 1);
    let top = r_k_from_r(&r, 1, 3, 1);
    assert_eq!(top.len(), 3);
    assert_eq!(top[1].mul(res(3)).v, top[0].mul(res(5)).v);
    assert_eq!(top[2].mul(res(3)).v, top[0].mul(res(7)).v);
}

#[test]
fn words_of_unit_matrices() {
    let one = 0x3f80_0000u32;
    assert_eq!(unit_words(2, 3), vec![one, 0, 0, 0, one, 0]);
    assert_eq!(unit_words(3, 1), vec![one, 0, 0]);
    assert_eq!(unit_words(0, 4), Vec::<u32>::new());
}

#[test]
fn words_round_trip() {
    let words = vec![0u32, 1, 77, 4000000000];
    let xs = load::<Residue>(&words);
    assert_eq!(numbers(&xs), words);
    assert_eq!(store(&xs), words);
}
