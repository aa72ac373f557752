//! The layer on machine numbers.

use burn::tensor::{DType, Device, Distribution, Tensor, TensorData};
use burn_sct::layer::{load_mat, orthogonalize_cpu, store_mat};
use burn_sct::plan::gram_factor;
use burn_sct::qr::{qr, qr_cpu};
use burn_sct::scalar::{
    Number, Scalar, WideNumber, WideScalar, WordNumber, WordScalar,
};
use burn_sct::svd::svd_cpu;
use burn_sct::tensor::{Mat, Row};
use burn_sct::{SctConfig, SctLinear};

#[derive(Clone, Copy, Debug, PartialEq)]
struct F32(f32);

#[derive(Clone, Copy, Debug, PartialEq)]
struct F64(f64);

impl Number for F32 {
    fn nought() -> Self {
        F32(0.0)
    }
    fn unit() -> Self {
        F32(1.0)
    }
    fn tenth_pow(n: u32) -> Self {
        F32(format!("1e-{n}").parse().unwrap())
    }
    fn counted(n: usize) -> Self {
        F32(n as f32)
    }
    fn plus(self, rhs: Self) -> Self {
        F32(self.0 + rhs.0)
    }
    fn minus(self, rhs: Self) -> Self {
        F32(self.0 - rhs.0)
    }
    fn times(self, rhs: Self) -> Self {
        F32(self.0 * rhs.0)
    }
    fn over(self, rhs: Self) -> Self {
        F32(self.0 / rhs.0)
    }
    fn negated(self) -> Self {
        F32(-self.0)
    }
    fn fused(self, factor: Self, addend: Self) -> Self {
        F32(self.0.mul_add(factor.0, addend.0))
    }
    fn root(self) -> Self {
        F32(self.0.sqrt())
    }
    fn magnitude(self) -> Self {
        F32(self.0.abs())
    }
    fn sign(self) -> Self {
        F32(self.0.signum())
    }
    fn larger(self, rhs: Self) -> Self {
        F32(self.0.max(rhs.0))
    }
    fn below(self, rhs: Self) -> bool {
        self.0 < rhs.0
    }
    fn at_most(self, rhs: Self) -> bool {
        self.0 <= rhs.0
    }
    fn same(self, rhs: Self) -> bool {
        self.0 == rhs.0
    }
}

impl Scalar for F32 {
    fn zero() -> Self {
        Self::nought()
    }
    fn one() -> Self {
        Self::unit()
    }
    fn decimal(n: u32) -> Self {
        Self::tenth_pow(n)
    }
    fn from_count(n: usize) -> Self {
        Self::counted(n)
    }
    fn add(self, rhs: Self) -> Self {
        self.plus(rhs)
    }
    fn sub(self, rhs: Self) -> Self {
        self.minus(rhs)
    }
    fn mul(self, rhs: Self) -> Self {
        self.times(rhs)
    }
    fn div(self, rhs: Self) -> Self {
        self.over(rhs)
    }
    fn neg(self) -> Self {
        self.negated()
    }
    fn mul_add(self, factor: Self, addend: Self) -> Self {
        self.fused(factor, addend)
    }
    fn sqrt(self) -> Self {
        self.root()
    }
    fn abs(self) -> Self {
        self.magnitude()
    }
    fn signum(self) -> Self {
        self.sign()
    }
    fn max(self, rhs: Self) -> Self {
        self.larger(rhs)
    }
    fn less(self, rhs: Self) -> bool {
        self.below(rhs)
    }
    fn less_or_equal(self, rhs: Self) -> bool {
        self.at_most(rhs)
    }
    fn equal(self, rhs: Self) -> bool {
        self.same(rhs)
    }
}

impl WordNumber for F32 {
    fn of_word(bits: u32) -> Self {
        F32(f32::from_bits(bits))
    }
    fn word(self) -> u32 {
        self.0.to_bits()
    }
}

impl WordScalar for F32 {
    fn from_word(bits: u32) -> Self {
        Self::of_word(bits)
    }
    fn to_word(self) -> u32 {
        self.word()
    }
}

impl Number for F64 {
    fn nought() -> Self {
        F64(0.0)
    }
    fn unit() -> Self {
        F64(1.0)
    }
    fn tenth_pow(n: u32) -> Self {
        F64(format!("1e-{n}").parse().unwrap())
    }
    fn counted(n: usize) -> Self {
        F64(n as f64)
    }
    fn plus(self, rhs: Self) -> Self {
        F64(self.0 + rhs.0)
    }
    fn minus(self, rhs: Self) -> Self {
        F64(self.0 - rhs.0)
    }
    fn times(self, rhs: Self) -> Self {
        F64(self.0 * rhs.0)
    }
    fn over(self, rhs: Self) -> Self {
        F64(self.0 / rhs.0)
    }
    fn negated(self) -> Self {
        F64(-self.0)
    }
    fn fused(self, factor: Self, addend: Self) -> Self {
        F64(self.0.mul_add(factor.0, addend.0))
    }
    fn root(self) -> Self {
        F64(self.0.sqrt())
    }
    fn magnitude(self) -> Self {
        F64(self.0.abs())
    }
    fn sign(self) -> Self {
        F64(self.0.signum())
    }
    fn larger(self, rhs: Self) -> Self {
        F64(self.0.max(rhs.0))
    }
    fn below(self, rhs: Self) -> bool {
        self.0 < rhs.0
    }
    fn at_most(self, rhs: Self) -> bool {
        self.0 <= rhs.0
    }
    fn same(self, rhs: Self) -> bool {
        self.0 == rhs.0
    }
}

impl Scalar for F64 {
    fn zero() -> Self {
        Self::nought()
    }
    fn one() -> Self {
        Self::unit()
    }
    fn decimal(n: u32) -> Self {
        Self::tenth_pow(n)
    }
    fn from_count(n: usize) -> Self {
        Self::counted(n)
    }
    fn add(self, rhs: Self) -> Self {
        self.plus(rhs)
    }
    fn sub(self, rhs: Self) -> Self {
        self.minus(rhs)
    }
    fn mul(self, rhs: Self) -> Self {
        self.times(rhs)
    }
    fn div(self, rhs: Self) -> Self {
        self.over(rhs)
    }
    fn neg(self) -> Self {
        self.negated()
    }
    fn mul_add(self, factor: Self, addend: Self) -> Self {
        self.fused(factor, addend)
    }
    fn sqrt(self) -> Self {
        self.root()
    }
    fn abs(self) -> Self {
        self.magnitude()
    }
    fn signum(self) -> Self {
        self.sign()
    }
    fn max(self, rhs: Self) -> Self {
        self.larger(rhs)
    }
    fn less(self, rhs: Self) -> bool {
        self.below(rhs)
    }
    fn less_or_equal(self, rhs: Self) -> bool {
        self.at_most(rhs)
    }
    fn equal(self, rhs: Self) -> bool {
        self.same(rhs)
    }
}

impl WideNumber<F32> for F64 {
    fn widened(s: F32) -> Self {
        F64(s.0 as f64)
    }
    fn narrowed(self) -> F32 {
        F32(self.0 as f32)
    }
}

impl WideScalar<F32> for F64 {
    fn widen(s: F32) -> Self {
        Self::widened(s)
    }
    fn narrow(self) -> F32 {
        self.narrowed()
    }
}

fn dev() -> Device {
    Device::ndarray()
}

fn random(rows: usize, cols: usize, std: f64) -> Tensor<2> {
    Tensor::<2>::random([rows, cols], Distribution::Normal(0.0, std), &dev())
}

fn matrix(rows: usize, cols: usize, values: &[f32]) -> Mat {
    Mat { tensor: Tensor::from_data(TensorData::new(values.to_vec(), [rows, cols]), &dev()) }
}

fn floats(t: &Tensor<2>) -> Vec<f32> {
    t.clone().into_data().try_to_vec::<f32>().unwrap()
}

fn draw(rows: usize, cols: usize) -> Mat {
    Mat { tensor: random(rows, cols, 1.0 / (rows as f64).sqrt()) }
}

/// A layer with random factors.
fn layer(inputs: usize, outputs: usize, rank: usize) -> SctLinear {
    let k = rank.min(inputs).min(outputs);
    SctLinear::new::<F32>(
        &SctConfig::new(inputs, outputs, rank),
        &draw(inputs, k),
        &draw(outputs, k),
        true,
    )
}

fn svd(a: &[f32], n: usize, m: usize, k: usize, sweeps: usize, lanes: bool) -> [Vec<f32>; 3] {
    let data: Vec<F32> = a.iter().map(|x| F32(*x)).collect();
    let (u, s, v) = svd_cpu::<F32, F64>(&data, n, m, k, sweeps, lanes);
    let plain = |xs: Vec<F32>| xs.iter().map(|x| x.0).collect::<Vec<f32>>();
    [plain(u), plain(s), plain(v)]
}

fn qr_plain(a: &[f32], m: usize, n: usize, lanes: bool) -> (Vec<f32>, Vec<f32>) {
    let data: Vec<F32> = a.iter().map(|x| F32(*x)).collect();
    let (q, r) = qr_cpu(&data, m, n, lanes);
    (q.iter().map(|x| x.0).collect(), r.iter().map(|x| x.0).collect())
}

#[test]
fn forward_shape() {
    let l = layer(32, 64, 8);
    assert_eq!(
        l.forward(Mat { tensor: random(16, 32, 1.0) }).tensor.dims(),
        [16, 64]
    );
}

#[test]
fn orthonormal_init() {
    let u = orthogonalize_cpu::<F32>(&draw(64, 16), true).tensor;
    let vals = floats(&u.clone().transpose().matmul(u));
    for i in 0..16 {
        assert!((vals[i * 16 + i] - 1.0).abs() < 0.1);
    }
}

#[test]
fn retract_restores_ortho() {
    let mut l = layer(32, 64, 8);
    l.u = Mat { tensor: l.u.tensor.clone() + random(32, 8, 0.3) };
    l.retract::<F32>(true);
    let vals = floats(&l.u.tensor.clone().transpose().matmul(l.u.tensor.clone()));
    for i in 0..8 {
        assert!((vals[i * 8 + i] - 1.0).abs() < 0.1);
    }
}

#[test]
fn ortho_error_decreases() {
    let mut l = layer(32, 64, 8);
    l.u = Mat { tensor: l.u.tensor.clone() + random(32, 8, 0.05) };
    let e1 = l.ortho_error::<F32>();
    l.retract::<F32>(true);
    assert!(l.ortho_error::<F32>().0 < e1.0);
}

#[test]
fn compression_ratio() {
    assert!(layer(4096, 11008, 128).compression_ratio::<F64>().0 > 20.0);
}

#[test]
fn param_count() {
    let l = layer(100, 200, 10);
    assert_eq!(l.param_count(), 10 * (100 + 200 + 1));
    assert_eq!(l.dense_params(), 20000);
}

#[test]
fn rank_auto_clamped() {
    assert_eq!(layer(32, 64, 1000).rank, 32);
    assert_eq!(layer(64, 32, 1000).rank, 32);
}

#[test]
fn svd_cpu_roundtrip_small() {
    // A = [[3,0],[0,2],[0,0]] 3x2 rank 2
    let a = vec![3.0, 0.0, 0.0, 2.0, 0.0, 0.0];
    for lanes in [false, true] {
        let [u_flat, s, v_flat] = svd(&a, 3, 2, 2, 50, lanes);
        assert!(
            (s[0] - 3.0).abs() < 1e-3 && (s[1] - 2.0).abs() < 1e-3,
            "s = {s:?}"
        );
        for r in 0..3 {
            for c in 0..2 {
                let mut acc = 0.0;
                for i in 0..2 {
                    acc += v_flat[r * 2 + i] * s[i] * u_flat[c * 2 + i];
                }
                let e = (acc - a[r * 2 + c]).abs();
                assert!(e < 1e-4, "a_hat[{r}][{c}] = {acc} vs {}", a[r * 2 + c]);
            }
        }
    }
}

#[test]
fn svd_cpu_roundtrip_nondiag() {
    // full-rank non-diagonal 3x2
    let a = vec![1.0, 2.0, 3.0, 4.0, 5.0, 6.0];
    for lanes in [false, true] {
        let [u_flat, s, v_flat] = svd(&a, 3, 2, 2, 200, lanes);
        for r in 0..3 {
            for c in 0..2 {
                let mut acc = 0.0;
                for i in 0..2 {
                    acc += v_flat[r * 2 + i] * s[i] * u_flat[c * 2 + i];
                }
                let e = (acc - a[r * 2 + c]).abs();
                assert!(e < 1e-3, "a_hat[{r}][{c}] = {acc} vs {}", a[r * 2 + c]);
            }
        }
        // The singular values are the roots of the eigenvalues of A^T A.
        assert!((s[0] - 9.525518).abs() < 1e-4 && (s[1] - 0.5143005).abs() < 1e-4, "s = {s:?}");
    }
}

#[test]
fn svd_cpu_roundtrip_64x32() {
    // Deterministic rank-8 matrix (sigma_9 = 0).
    let n = 64usize;
    let m = 32usize;
    let mut a = vec![0.0f32; n * m];
    for r in 0..n {
        for j in 0..m {
            let mut acc = 0.0;
            for i in 0..8 {
                let p = ((i + 1) as f32 * (r + 1) as f32 * 0.7).sin();
                let q = ((i + 1) as f32 * (j + 1) as f32 * 0.3).cos();
                acc += p * q;
            }
            a[r * m + j] = acc;
        }
    }
    let [u_flat, s, v_flat] = svd(&a, n, m, 8, 100, true);
    let mut max_e = 0.0f32;
    for r in 0..n {
        for j in 0..m {
            let mut acc = 0.0;
            for i in 0..8 {
                acc += v_flat[r * 8 + i] * s[i] * u_flat[j * 8 + i];
            }
            max_e = max_e.max((acc - a[r * m + j]).abs());
        }
    }
    assert!(max_e < 1e-2, "max reconstruction error {max_e}");
}

#[test]
fn from_dense_shape() {
    let w = Mat { tensor: random(64, 32, 1.0) };
    let l = SctLinear::from_dense::<F32, F64>(w, 8, true);
    assert_eq!((l.in_features, l.out_features, l.rank), (32, 64, 8));
}

#[test]
fn from_dense_roundtrip() {
    // An exactly rank-8 matrix, so that truncation loses nothing; the weight is [out, in].
    let a = random(32, 8, 1.0);
    let b = random(8, 64, 1.0);
    let w = a.matmul(b); // [in, out] = [32, 64]
    let w_t = w.transpose();
    let l = SctLinear::from_dense_with_iters::<F32, F64>(Mat { tensor: w_t.clone() }, 8, 50, true);
    let w_hat = l
        .v
        .tensor
        .clone()
        .mul(l.s.tensor.clone().unsqueeze_dims(&[0]))
        .matmul(l.u.tensor.clone().transpose());
    let diff = floats(&(w_hat - w_t));
    let err: f32 = diff.iter().map(|x| x * x).sum::<f32>() / diff.len() as f32;
    assert!(
        err < 1e-4,
        "from_dense must reproduce the dense weight, mse {err}"
    );
}

#[test]
fn sign_correction() {
    let q = orthogonalize_cpu::<F32>(&Mat { tensor: random(64, 16, 1.0) }, true).tensor;
    let vals = floats(&q.clone().transpose().matmul(q));
    for i in 0..16 {
        assert!((vals[i * 16 + i] - 1.0).abs() < 0.1);
    }
}

#[test]
fn from_dense_wide_weight() {
    let w = random(24, 40, 1.0);
    let l = SctLinear::from_dense::<F32, F64>(Mat { tensor: w.clone() }, 100, false);
    assert_eq!((l.in_features, l.out_features, l.rank), (40, 24, 24));
    assert_eq!(l.u.tensor.dims(), [40, 24]);
    assert_eq!(l.v.tensor.dims(), [24, 24]);
    let w_hat = l
        .v
        .tensor
        .clone()
        .mul(l.s.tensor.clone().unsqueeze_dims(&[0]))
        .matmul(l.u.tensor.clone().transpose());
    for x in floats(&(w_hat - w)) {
        assert!(x.abs() < 1e-3);
    }
}

#[test]
fn dense_layer_and_compact_layer_agree() {
    let w = random(20, 12, 1.0);
    let x = random(5, 12, 1.0);
    let l = SctLinear::from_dense::<F32, F64>(Mat { tensor: w.clone() }, 12, true);
    let y = l.forward(Mat { tensor: x.clone() }).tensor;
    for d in floats(&(y - x.matmul(w.transpose()))) {
        assert!(d.abs() < 1e-3);
    }
}

#[test]
fn forward_of_known_factors() {
    let l = SctLinear {
        u: matrix(2, 2, &[1.0, 0.0, 0.0, 1.0]),
        s: Row { tensor: Tensor::from_floats([2.0, 3.0], &dev()) },
        v: matrix(3, 2, &[1.0, 0.0, 0.0, 1.0, 0.0, 0.0]),
        rank: 2,
        in_features: 2,
        out_features: 3,
    };
    let y = l.forward(matrix(1, 2, &[5.0, 7.0]));
    assert_eq!(floats(&y.tensor), vec![10.0, 21.0, 0.0]);
    assert_eq!(l.ortho_error::<F32>(), F32(0.0));
}

#[test]
fn ortho_error_of_known_factors() {
    // U^T U - I = diag(3, 0), V^T V - I = diag(0, 8).
    let l = SctLinear {
        u: matrix(2, 2, &[2.0, 0.0, 0.0, 1.0]),
        s: Row { tensor: Tensor::ones([2], &dev()) },
        v: matrix(2, 2, &[1.0, 0.0, 0.0, 3.0]),
        rank: 2,
        in_features: 2,
        out_features: 2,
    };
    assert_eq!(l.ortho_error::<F32>(), F32(8.0));
}

#[test]
fn new_layer_starts_with_ones() {
    let l = layer(6, 4, 3);
    assert_eq!(
        l.s.tensor.clone().into_data().try_to_vec::<f32>().unwrap(),
        vec![1.0, 1.0, 1.0]
    );
    assert_eq!(l.u.tensor.dims(), [6, 3]);
    assert_eq!(l.v.tensor.dims(), [4, 3]);
    let made = SctConfig::new(6, 4, 3).init::<F32>(&draw(6, 3), &draw(4, 3), false);
    assert!(made.ortho_error::<F32>().0 < 1e-5);
}

#[test]
fn retract_keeps_orthonormal_factors() {
    let mut l = layer(40, 30, 6);
    l.retract::<F32>(true);
    let u = floats(&l.u.tensor);
    l.retract::<F32>(true);
    for (x, y) in u.iter().zip(floats(&l.u.tensor)) {
        assert!((x - y).abs() < 1e-5);
    }
}

#[test]
fn qr_cpu_of_known_matrix() {
    // First column (3, 4): norm 5.
    let (q, r) = qr_plain(&[3.0, 1.0, 4.0, 2.0], 2, 2, false);
    let want_q = [0.6, -0.8, 0.8, 0.6];
    let want_r = [5.0, 2.2, 0.0, 0.4];
    for i in 0..4 {
        assert!((q[i] - want_q[i]).abs() < 1e-6, "q = {q:?}");
        assert!((r[i] - want_r[i]).abs() < 1e-6, "r = {r:?}");
    }
}

#[test]
fn qr_cpu_reconstructs_every_shape() {
    for (m, n) in [(1, 1), (5, 5), (37, 11), (7, 19), (3, 1), (1, 4), (0, 3), (4, 0)] {
        let a: Vec<f32> = (0..m * n).map(|x| ((x * 7919) % 1009) as f32 / 1009.0 - 0.5).collect();
        let k = m.min(n);
        for lanes in [false, true] {
            let (q, r) = qr_plain(&a, m, n, lanes);
            assert_eq!((q.len(), r.len()), (m * k, k * n));
            for i in 0..m {
                for j in 0..n {
                    let s: f32 = (0..k).map(|c| q[i * k + c] * r[c * n + j]).sum();
                    assert!((s - a[i * n + j]).abs() < 1e-5);
                }
            }
            for c in 0..k {
                for d in 0..k {
                    let s: f32 = (0..m).map(|i| q[i * k + c] * q[i * k + d]).sum();
                    assert!((s - if c == d { 1.0 } else { 0.0 }).abs() < 1e-5);
                }
                assert!(r[c * n + c] >= 0.0);
                for d in 0..c {
                    assert_eq!(r[c * n + d], 0.0);
                }
            }
        }
    }
}

#[test]
fn qr_cpu_of_zero_column() {
    let (q, r) = qr_plain(&[0.0, 1.0, 0.0, 2.0, 0.0, 2.0], 3, 2, true);
    for i in 0..3 {
        for j in 0..2 {
            let s: f32 = (0..2).map(|c| q[i * 2 + c] * r[c * 2 + j]).sum();
            let want = [[0.0, 1.0], [0.0, 2.0], [0.0, 2.0]][i][j];
            assert!((s - want).abs() < 1e-6);
        }
    }
}

#[test]
fn qr_with_and_without_lanes() {
    let (m, n) = (3000, 64);
    let a: Vec<f32> = (0..m * n).map(|x| ((x * 7919) % 1009) as f32 / 1009.0 - 0.5).collect();
    let (q, _) = qr_plain(&a, m, n, true);
    let (q2, _) = qr_plain(&a, m, n, false);
    for (x, y) in q.iter().zip(q2) {
        assert!((x - y).abs() < 1e-4);
    }
}

#[test]
fn qr_of_tensors() {
    for (m, n) in [(6, 4), (4, 6), (5, 5), (3, 1), (1, 3), (1, 1)] {
        for reduced in [false, true] {
            let a = random(m, n, 1.0);
            let k = m.min(n);
            let (q, r) = qr(Mat { tensor: a.clone() }, reduced);
            assert_eq!(q.tensor.dims(), [m, k]);
            let rows = if reduced && m > n { n } else { m };
            assert_eq!(r.tensor.dims(), [rows, n]);
            let (qv, rv, av) = (floats(&q.tensor), floats(&r.tensor), floats(&a));
            for i in 0..m {
                for j in 0..n {
                    let s: f32 = (0..k).map(|c| qv[i * k + c] * rv[c * n + j]).sum();
                    assert!((s - av[i * n + j]).abs() < 1e-5);
                }
            }
            // Up to signs the factors are those of the other route.
            let (q2, r2) = qr_plain(&av, m, n, false);
            for c in 0..k {
                let sign = if rv[c * n + c] < 0.0 { -1.0 } else { 1.0 };
                for i in 0..m {
                    assert!((q2[i * k + c] - sign * qv[i * k + c]).abs() < 1e-4);
                }
                for j in c..n {
                    assert!((r2[c * n + j] - sign * rv[c * n + j]).abs() < 1e-4);
                }
            }
        }
    }
}

#[test]
fn qr_of_zero_tensor() {
    let (q, r) = qr(matrix(3, 2, &[0.0; 6]), true);
    assert_eq!(floats(&q.tensor), vec![1.0, 0.0, 0.0, 1.0, 0.0, 0.0]);
    assert_eq!(floats(&r.tensor), vec![0.0; 4]);
}

#[test]
fn qr_of_a_tensor_without_columns() {
    let none = || matrix(3, 0, &[]);
    let (q, r) = qr(none(), true);
    assert_eq!((q.tensor.dims(), r.tensor.dims()), ([3, 0], [0, 0]));
    let (q, r) = qr(none(), false);
    assert_eq!((q.tensor.dims(), r.tensor.dims()), ([3, 0], [3, 0]));
    let data = TensorData::new(Vec::<f64>::new(), [3, 0]);
    let (q, r) = qr(Mat { tensor: Tensor::from_data(data, (&dev(), DType::F64)) }, true);
    assert_eq!((q.tensor.dtype(), r.tensor.dtype()), (DType::F64, DType::F64));
}

#[test]
fn qr_of_a_tensor_of_double_width() {
    let vals = vec![1.0f64, 2.0, 0.0, 3.0, -1.0, 0.5, 2.0, 2.0];
    let data = TensorData::new(vals.clone(), [4, 2]);
    let a = Tensor::<2>::from_data(data, (&dev(), DType::F64));
    for reduced in [false, true] {
        let (q, r) = qr(Mat { tensor: a.clone() }, reduced);
        assert_eq!((q.tensor.dtype(), r.tensor.dtype()), (DType::F64, DType::F64));
        let doubles = |t: &Tensor<2>| t.clone().into_data().try_to_vec::<f64>().unwrap();
        let (qv, rv) = (doubles(&q.tensor), doubles(&r.tensor));
        for i in 0..4 {
            for j in 0..2 {
                let s: f64 = (0..2).map(|c| qv[i * 2 + c] * rv[c * 2 + j]).sum();
                assert!((s - vals[i * 2 + j]).abs() < 1e-12);
            }
        }
    }
}

#[test]
fn qr_of_a_tensor_with_a_tiny_column() {
    // The norm of the first column counts as 0. Q is orthonormal all the same, and the factors
    // multiply back up to the threshold.
    let a = [1e-9f32, 0.0, 1e-9, 1.0];
    let (q, r) = qr(matrix(2, 2, &a), true);
    let (qv, rv) = (floats(&q.tensor), floats(&r.tensor));
    for i in 0..2 {
        for j in 0..2 {
            let want = if i == j { 1.0 } else { 0.0 };
            let gram: f32 = (0..2).map(|x| qv[x * 2 + i] * qv[x * 2 + j]).sum();
            assert!((gram - want).abs() < 1e-6);
            let s: f32 = (0..2).map(|c| qv[i * 2 + c] * rv[c * 2 + j]).sum();
            assert!((s - a[i * 2 + j]).abs() < 2e-8);
        }
    }
    assert!(rv[2].abs() <= 1e-8);
}

#[test]
fn forward_of_double_width() {
    let double = |rows: usize, cols: usize, v: Vec<f64>| Mat {
        tensor: Tensor::from_data(TensorData::new(v, [rows, cols]), (&dev(), DType::F64)),
    };
    let l = SctLinear {
        u: double(2, 1, vec![1.0, 2.0]),
        s: Row {
            tensor: Tensor::from_data(TensorData::new(vec![3.0f64], [1]), (&dev(), DType::F64)),
        },
        v: double(1, 1, vec![5.0]),
        rank: 1,
        in_features: 2,
        out_features: 1,
    };
    let y = l.forward(double(1, 2, vec![7.0, 11.0]));
    assert_eq!(y.tensor.into_data().try_to_vec::<f64>().unwrap(), vec![435.0]);
}

#[test]
fn factors_of_a_product_are_those_of_the_product() {
    // Orthonormal columns and an upper-triangular matrix with a positive diagonal.
    let q0 = [0.6f32, 0.0, 0.8, 0.0, 0.0, 1.0];
    let r0 = [2.0f32, -3.0, 0.0, 5.0];
    let a: Vec<f32> = (0..6)
        .map(|x| q0[x / 2 * 2] * r0[x % 2] + q0[x / 2 * 2 + 1] * r0[2 + x % 2])
        .collect();
    for (scale, lanes) in [(1.0, false), (1.0, true), (8.0, true)] {
        let b: Vec<f32> = a.iter().map(|x| scale * x).collect();
        let (q, r) = qr_plain(&b, 3, 2, lanes);
        assert!(q.iter().zip(q0).all(|(x, y)| (x - y).abs() < 1e-6), "q = {q:?}");
        assert!(r.iter().zip(r0).all(|(x, y)| (x - scale * y).abs() < 1e-5), "r = {r:?}");
    }
}

#[test]
fn qr_cpu_of_zeros_gives_the_axes() {
    for lanes in [false, true] {
        let (q, r) = qr_plain(&[0.0; 6], 3, 2, lanes);
        assert_eq!(q, vec![1.0, 0.0, 0.0, 1.0, 0.0, 0.0]);
        assert!(r.iter().all(|x| *x == 0.0));
    }
}

#[test]
fn gram_route_matches_householder() {
    let (m, k) = (256, 16);
    let a = random(m, k, 1.0);
    let r = gram_factor::<F32>(&Mat { tensor: a.clone() }).unwrap();
    let plain: Vec<F32> = floats(&a).iter().map(|x| F32(*x)).collect();
    let factor: Vec<F32> = floats(&r.tensor).iter().map(|x| F32(*x)).collect();
    let q = burn_sct::cholesky::qsolve(&plain, &factor, m, k);
    let (q2, r2) = qr_cpu(&plain, m, k, true);
    for i in 0..m * k {
        assert!((q[i].0 - q2[i].0).abs() < 1e-4);
    }
    for i in 0..k * k {
        assert!((factor[i].0 - r2[i].0).abs() < 1e-3);
    }
}

#[test]
fn gram_factor_limits() {
    assert!(gram_factor::<F32>(&Mat { tensor: random(255, 16, 1.0) }).is_none());
    assert!(gram_factor::<F32>(&Mat { tensor: random(256, 15, 1.0) }).is_none());
    assert!(gram_factor::<F32>(&Mat { tensor: random(256, 16, 1.0) }).is_some());
}

#[test]
fn svd_values_descend_and_vectors_are_orthonormal() {
    let (n, m) = (9, 6);
    let a: Vec<f32> = (0..n * m).map(|x| ((x * x) as f32 * 0.37).sin()).collect();
    let [u, s, v] = svd(&a, n, m, 10, 60, true);
    assert_eq!((u.len(), s.len(), v.len()), (m * m, m, n * m));
    for i in 1..m {
        assert!(s[i] <= s[i - 1]);
    }
    for i in 0..m {
        for j in 0..m {
            let want = if i == j { 1.0 } else { 0.0 };
            let uu: f32 = (0..m).map(|r| u[r * m + i] * u[r * m + j]).sum();
            let vv: f32 = (0..n).map(|r| v[r * m + i] * v[r * m + j]).sum();
            assert!((uu - want).abs() < 1e-5);
            assert!((vv - want).abs() < 1e-5);
        }
    }
}

#[test]
fn svd_without_sweeps_takes_the_columns() {
    let [u, s, v] = svd(&[0.0, 3.0, 0.0, 4.0], 2, 2, 2, 0, false);
    assert_eq!(s, vec![5.0, 0.0]);
    assert_eq!(u, vec![0.0, 1.0, 1.0, 0.0]);
    // The column without a direction gets what completes the basis.
    for (got, want) in v.iter().zip([0.6, -0.8, 0.8, 0.6]) {
        assert!((got - want).abs() < 1e-6, "v = {v:?}");
    }
}

#[test]
fn svd_with_the_shorter_column_first() {
    for lanes in [false, true] {
        let [u, s, v] = svd(&[1.0, 4.5e-5, 0.0, 2.0], 2, 2, 2, 15, lanes);
        assert!((s[0] - 2.0).abs() < 1e-3 && (s[1] - 1.0).abs() < 1e-3, "s = {s:?}");
        assert!((v[0] * v[1] + v[2] * v[3]).abs() < 1e-3, "v = {v:?}");
        for r in 0..2 {
            for j in 0..2 {
                let got: f32 = (0..2).map(|i| v[r * 2 + i] * s[i] * u[j * 2 + i]).sum();
                assert!((got - [1.0, 4.5e-5, 0.0, 2.0][r * 2 + j]).abs() < 1e-6);
            }
        }
    }
}

#[test]
fn svd_of_a_matrix_of_low_rank_has_orthonormal_vectors() {
    // Rank 1, rank 0, and rank 2 with two equal columns.
    let rank2 = [1.0, 1.0, 2.0, 0.0, 0.0, 1.0, 3.0, 3.0, -1.0, 2.0, 2.0, 0.0];
    let rank1: Vec<f32> = (0..12).map(|x| ((x / 3 + 1) * (x % 3 + 2)) as f32).collect();
    for a in [rank1.as_slice(), &[0.0; 12], &rank2] {
        let [u, s, v] = svd(a, 4, 3, 3, 30, true);
        for i in 0..3 {
            for j in 0..3 {
                let want = if i == j { 1.0 } else { 0.0 };
                let uu: f32 = (0..3).map(|r| u[r * 3 + i] * u[r * 3 + j]).sum();
                let vv: f32 = (0..4).map(|r| v[r * 3 + i] * v[r * 3 + j]).sum();
                assert!((uu - want).abs() < 1e-5, "u = {u:?}");
                assert!((vv - want).abs() < 1e-5, "v = {v:?}");
            }
        }
        for x in 0..12 {
            let (r, j) = (x / 3, x % 3);
            let got: f32 = (0..3).map(|i| v[r * 3 + i] * s[i] * u[j * 3 + i]).sum();
            assert!((got - a[x]).abs() < 1e-4);
        }
    }
}

#[test]
fn svd_keeps_a_small_direction_beside_a_large_one() {
    let a = [1e20f32, 0.0, 0.0, 1.0, 0.0, 1.0];
    for (lanes, sweeps) in [(false, 0), (true, 0), (true, 15)] {
        let [u, s, v] = svd(&a, 3, 2, 2, sweeps, lanes);
        let half = 0.5f32.sqrt();
        for (got, want) in v.iter().zip([1.0, 0.0, 0.0, half, 0.0, half]) {
            assert!((got - want).abs() < 1e-6, "v = {v:?}");
        }
        for x in 0..6 {
            let (r, j) = (x / 2, x % 2);
            let got: f32 = (0..2).map(|i| v[r * 2 + i] * s[i] * u[j * 2 + i]).sum();
            assert!((got - a[x]).abs() <= 1e-6 * a[x].abs());
        }
    }
    // A small column behind one of zeros keeps its direction too.
    let [_, s, v] = svd(&[1e20, 0.0, 0.0, 0.0, 0.0, 3.0, 0.0, 0.0, 4.0], 3, 3, 3, 5, true);
    assert_eq!(s, vec![1e20, 5.0, 0.0]);
    let want = [1.0, 0.0, 0.0, 0.0, 0.6, -0.8, 0.0, 0.8, 0.6];
    for (got, want) in v.iter().zip(want) {
        assert!((got.abs() - f32::abs(want)).abs() < 1e-6, "v = {v:?}");
    }
}

#[test]
fn svd_of_a_wide_matrix_of_zeros() {
    // There are two orthonormal vectors of two entries, and no third one.
    let [_, s, v] = svd(&[0.0; 6], 2, 3, 3, 5, false);
    assert_eq!(s, vec![0.0; 3]);
    assert_eq!(v, vec![1.0, 0.0, 0.0, 0.0, 1.0, 0.0]);
}

#[test]
fn what_is_missing_is_as_large_as_the_values_left_out() {
    let (n, m) = (9, 6);
    let a: Vec<f32> = (0..n * m).map(|x| ((x * x) as f32 * 0.37).sin()).collect();
    let [u, s, v] = svd(&a, n, m, m, 60, true);
    for kk in 0..=m {
        let mut missing = 0.0;
        for r in 0..n {
            for j in 0..m {
                let kept: f32 = (0..kk).map(|i| v[r * m + i] * s[i] * u[j * m + i]).sum();
                missing += (a[r * m + j] - kept).powi(2);
            }
        }
        let out: f32 = (kk..m).map(|i| s[i] * s[i]).sum();
        assert!((missing - out).abs() < 1e-4, "{missing} and {out}");
    }
}

#[test]
fn no_product_of_two_vectors_comes_closer() {
    let (n, m) = (6, 4);
    let a: Vec<f32> = (0..n * m).map(|x| ((x * x) as f32 * 0.47).sin()).collect();
    let [u, s, v] = svd(&a, n, m, m, 40, true);
    let gap = |x: &[f32], y: &[f32]| -> f32 {
        (0..n * m).map(|e| (a[e] - x[e / m] * y[e % m]).powi(2)).sum()
    };
    let triplet = |i: usize| -> (Vec<f32>, Vec<f32>) {
        let left = (0..n).map(|r| v[r * m + i] * s[i]).collect();
        (left, (0..m).map(|j| u[j * m + i]).collect())
    };
    let (left, right) = triplet(0);
    let best = gap(&left, &right);
    for i in 1..m {
        let (x, y) = triplet(i);
        assert!(best <= gap(&x, &y) + 1e-5);
    }
    // Neither do vectors next to those of the first triplet, nor rows and columns of the matrix.
    for e in 0..200 {
        let turn = |x: &f32, t: usize| x + 0.1 * ((e * 31 + t * 17) as f32).sin();
        let x: Vec<f32> = left.iter().enumerate().map(|(t, x)| turn(x, t)).collect();
        let y: Vec<f32> = right.iter().enumerate().map(|(t, x)| turn(x, t + 9)).collect();
        assert!(best <= gap(&x, &y) + 1e-5);
        let row: Vec<f32> = (0..m).map(|j| a[e % n * m + j]).collect();
        let length: f32 = row.iter().map(|x| x * x).sum();
        let x: Vec<f32> = (0..n)
            .map(|r| (0..m).map(|j| a[r * m + j] * row[j]).sum::<f32>() / length)
            .collect();
        assert!(best <= gap(&x, &row) + 1e-5);
    }
}

/// The weight of a layer, `[out, in]`.
fn weight_of(l: &SctLinear) -> Vec<f32> {
    let (u, v) = (floats(&l.u.tensor), floats(&l.v.tensor));
    let s = l.s.tensor.clone().into_data().try_to_vec::<f32>().unwrap();
    let k = l.rank;
    let mut w = Vec::new();
    for o in 0..l.out_features {
        for f in 0..l.in_features {
            w.push((0..k).map(|i| u[f * k + i] * s[i] * v[o * k + i]).sum());
        }
    }
    w
}

#[test]
fn dense_weight_with_the_shorter_column_first() {
    let w = matrix(2, 2, &[1.0, 4.5e-5, 0.0, 2.0]);
    let l = SctLinear::from_dense_with_iters::<F32, F64>(w, 1, 15, true);
    let s = l.s.tensor.clone().into_data().try_to_vec::<f32>().unwrap();
    assert!((s[0] - 2.0).abs() < 1e-3, "s = {s:?}");
    for (got, want) in weight_of(&l).iter().zip([0.0, 0.0, 0.0, 2.0]) {
        assert!((got - want).abs() < 1e-3);
    }
}

#[test]
fn dense_weight_of_low_rank() {
    let cases: [(usize, usize, Vec<f32>); 4] = [
        (2, 2, vec![1.0, 0.0, 0.0, 0.0]),
        (2, 2, vec![0.0; 4]),
        (3, 2, vec![1.0, 2.0, 2.0, 4.0, 3.0, 6.0]),
        (2, 3, vec![1.0, 2.0, 3.0, 2.0, 4.0, 6.0]),
    ];
    for (n, m, w) in cases {
        let l = SctLinear::from_dense_with_iters::<F32, F64>(matrix(n, m, &w), 2, 15, false);
        assert_eq!(l.rank, 2);
        let e = l.ortho_error::<F32>().0;
        assert!(e < 1e-3, "error {e}");
        for (got, want) in weight_of(&l).iter().zip(&w) {
            assert!((got - want).abs() < 1e-3);
        }
    }
}

#[test]
fn dense_weight_of_low_rank_and_many_triplets() {
    for (n, m) in [(40, 20), (20, 40), (20, 20)] {
        // Rank 5.
        let w: Vec<f32> = (0..n * m)
            .map(|x| {
                let (r, c) = (x / m, x % m);
                (0..5).map(|t| ((r * (t + 2)) as f32).sin() * ((c * (t + 3)) as f32).cos()).sum()
            })
            .collect();
        let l = SctLinear::from_dense::<F32, F64>(matrix(n, m, &w), 20, true);
        let e = l.ortho_error::<F32>().0;
        assert!(e < 1e-4, "error {e}");
        let scale = w.iter().fold(0.0f32, |a, x| a.max(x.abs()));
        for (got, want) in weight_of(&l).iter().zip(&w) {
            assert!((got - want).abs() < 1e-5 * scale);
        }
        // The same without the triangular factor in between.
        let [u, s, v] = svd(&w, n, m, 5, 30, false);
        assert!(s[4] > 0.1);
        for x in 0..n * m {
            let (r, c) = (x / m, x % m);
            let got: f32 = (0..5).map(|i| v[r * 5 + i] * s[i] * u[c * 5 + i]).sum();
            assert!((got - w[x]).abs() < 1e-5 * scale);
        }
        let k = n.min(m);
        let [_, _, v] = svd(&w, n, m, k, 30, true);
        for i in 0..k {
            for j in 0..k {
                let want = if i == j { 1.0 } else { 0.0 };
                let dot: f32 = (0..n).map(|r| v[r * k + i] * v[r * k + j]).sum();
                assert!((dot - want).abs() < 1e-5, "{n} x {m}: {i}, {j}: {dot}");
            }
        }
    }
}

#[test]
fn numbers_in_and_out_of_a_matrix() {
    let m = matrix(2, 3, &[1.0, -2.5, 0.0, 4.0, 1e-30, 6.0]);
    let xs: Vec<F32> = load_mat(&m);
    assert_eq!(xs, [1.0, -2.5, 0.0, 4.0, 1e-30, 6.0].map(F32));
    let twice: Vec<F32> = xs.iter().map(|x| F32(2.0 * x.0)).collect();
    let r = store_mat(&twice, 3, 2, &m);
    assert_eq!(r.tensor.dims(), [3, 2]);
    assert_eq!(floats(&r.tensor), vec![2.0, -5.0, 0.0, 8.0, 2e-30, 12.0]);
    assert!(!r.tensor.is_require_grad());
}

#[test]
fn dense_weight_misses_the_values_left_out() {
    // diag(3, 1, 5) with two triplets misses the 1.
    let w = [3.0, 0.0, 0.0, 0.0, 1.0, 0.0, 0.0, 0.0, 5.0];
    let l = SctLinear::from_dense::<F32, F64>(matrix(3, 3, &w), 2, true);
    let missing: f32 = weight_of(&l).iter().zip(&w).map(|(x, y)| (x - y).powi(2)).sum();
    assert!((missing - 1.0).abs() < 1e-5, "missing {missing}");
}

#[test]
fn svd_keeps_the_largest_triplets() {
    let [u, s, v] = svd(&[1.0, 0.0, 0.0, 0.0, 5.0, 0.0, 0.0, 0.0, 3.0], 3, 3, 2, 10, true);
    assert_eq!(s, vec![5.0, 3.0]);
    assert_eq!(u, vec![0.0, 0.0, 1.0, 0.0, 0.0, 1.0]);
    assert_eq!(v, vec![0.0, 0.0, 1.0, 0.0, 0.0, 1.0]);
}

#[test]
fn svd_takes_right_vectors_to_left_ones() {
    let (n, m) = (7, 4);
    let a: Vec<f32> = (0..n * m).map(|x| ((x * x) as f32 * 0.53).cos()).collect();
    let [u, s, v] = svd(&a, n, m, m, 40, false);
    for i in 0..m {
        for r in 0..n {
            let image: f32 = (0..m).map(|j| a[r * m + j] * u[j * m + i]).sum();
            assert!((image - s[i] * v[r * m + i]).abs() < 1e-5);
        }
    }
}

#[test]
fn one_rotation_makes_a_pair_orthogonal() {
    // The longer column first, then the shorter one, then two of one length.
    for a in [[4.0, 1.0, 0.0, 1.0], [1.0, 4.0, 1.0, 0.0], [1.0, 2.0, 2.0, 1.0]] {
        let [_, s, v] = svd(&a, 2, 2, 2, 1, false);
        let dot = v[0] * v[1] + v[2] * v[3];
        assert!(dot.abs() < 1e-6, "dot = {dot}");
        // The product of the singular values is the determinant.
        let det: f32 = a[0] * a[3] - a[1] * a[2];
        assert!((s[0] * s[1] - det.abs()).abs() < 1e-5);
    }
}

#[test]
fn sweeps_bring_the_columns_closer_to_orthogonal() {
    let (n, m) = (8, 5);
    let a: Vec<f32> = (0..n * m).map(|x| ((x * x) as f32 * 0.71).sin()).collect();
    let mut last = f32::INFINITY;
    for sweeps in 0..8 {
        let [_, s, v] = svd(&a, n, m, m, sweeps, true);
        let mut tangle = 0.0;
        for i in 0..m {
            for j in (0..m).filter(|j| *j != i) {
                let dot: f32 = (0..n).map(|r| v[r * m + i] * v[r * m + j]).sum();
                tangle += (s[i] * s[j] * dot).powi(2);
            }
        }
        assert!(tangle <= last + 1e-9, "{tangle} after {last}");
        last = tangle;
    }
    assert!(last < 1e-9, "{last} in the end");
}

#[test]
fn settled_sweeps_change_nothing() {
    let (n, m) = (8, 5);
    let a: Vec<f32> = (0..n * m).map(|x| ((x * x) as f32 * 0.71).sin()).collect();
    for lanes in [false, true] {
        assert_eq!(svd(&a, n, m, m, 60, lanes), svd(&a, n, m, m, 600, lanes));
    }
}

#[test]
fn parameters_are_the_entries_of_the_factors() {
    let l = layer(9, 7, 4);
    let entries = l.u.tensor.shape().num_elements()
        + l.v.tensor.shape().num_elements()
        + l.s.tensor.shape().num_elements();
    assert_eq!(l.param_count(), entries);
}

#[test]
fn memory_savings_at_rank_32() {
    let ratio = |inputs: usize, outputs: usize| {
        let l = SctLinear {
            u: matrix(1, 1, &[1.0]),
            s: Row { tensor: Tensor::ones([1], &dev()) },
            v: matrix(1, 1, &[1.0]),
            rank: 32,
            in_features: inputs,
            out_features: outputs,
        };
        l.compression_ratio::<F64>().0.round()
    };
    assert_eq!(ratio(576, 1536), 13.0);
    assert_eq!(ratio(2048, 8192), 51.0);
    assert_eq!(ratio(4096, 11008), 93.0);
    assert_eq!(ratio(8192, 28672), 199.0);
}

#[test]
fn qr_of_tensor_with_zero_on_the_diagonal() {
    // The sign of 0 counts as that of a positive number.
    let (q, r) = qr(matrix(2, 2, &[0.0, 1.0, 2.0, 3.0]), true);
    let (qv, rv) = (floats(&q.tensor), floats(&r.tensor));
    let want_q = [0.0, 1.0, -1.0, 0.0];
    let want_r = [-2.0, -3.0, 0.0, 1.0];
    for i in 0..4 {
        assert!((qv[i] - want_q[i]).abs() < 1e-6, "q = {qv:?}");
        assert!((rv[i] - want_r[i]).abs() < 1e-6, "r = {rv:?}");
    }
}

#[test]
fn retracted_factors_have_no_error() {
    let mut l = layer(50, 40, 8);
    l.u = Mat { tensor: random(50, 8, 1.0) };
    l.v = Mat { tensor: random(40, 8, 1.0) };
    assert!(l.ortho_error::<F32>().0 > 1.0);
    l.retract::<F32>(false);
    assert!(l.ortho_error::<F32>().0 < 1e-5);
}

#[test]
fn truncation_keeps_the_largest_part() {
    // diag(5, 3, 1) without its smallest part.
    let w = matrix(3, 3, &[3.0, 0.0, 0.0, 0.0, 1.0, 0.0, 0.0, 0.0, 5.0]);
    let l = SctLinear::from_dense::<F32, F64>(w, 2, true);
    let y = l.forward(matrix(1, 3, &[1.0, 1.0, 1.0]));
    let vals = floats(&y.tensor);
    for (got, want) in vals.iter().zip([3.0, 0.0, 5.0]) {
        assert!((got - want).abs() < 1e-5, "y = {vals:?}");
    }
}
