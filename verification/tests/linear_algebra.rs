//! Vectors and matrices in double precision, held against `nalgebra` bit by bit, and against
//! results worked out by hand.
use dynakit::linalg::products::Line;
use dynakit::linalg::{
    gauss_step, gauss_step_swap, solve_lower_triangular_with_diag_mut, solve_upper_triangular_mut,
    DMatrix, DVector, MatrixLike, MatrixView, MatrixViewMut, OMatrix, PermutationSequence,
    ProductKernel, SMatrix, LU,
};
use dynakit::scalar::Real;
use nalgebra::DMatrix as NaDMatrix;
use nalgebra::DVector as NaDVector;
use nalgebra::OMatrix as NaOMatrix;

/// A double-precision scalar.
#[derive(Clone, Copy, Debug, PartialEq)]
struct F64(f64);

impl Real for F64 {
    fn zero() -> F64 {
        F64(0.0)
    }
    fn one() -> F64 {
        F64(1.0)
    }
    fn pi() -> F64 {
        F64(std::f64::consts::PI)
    }
    fn infinity() -> F64 {
        F64(f64::INFINITY)
    }
    fn neg_infinity() -> F64 {
        F64(f64::NEG_INFINITY)
    }
    fn decimal(mantissa: i64, digits: u32) -> F64 {
        F64(format!("{}e-{}", mantissa, digits).parse::<f64>().unwrap())
    }
    fn from_usize(n: usize) -> F64 {
        F64(n as f64)
    }
    fn add(self, rhs: F64) -> F64 {
        F64(self.0 + rhs.0)
    }
    fn sub(self, rhs: F64) -> F64 {
        F64(self.0 - rhs.0)
    }
    fn mul(self, rhs: F64) -> F64 {
        F64(self.0 * rhs.0)
    }
    fn div(self, rhs: F64) -> F64 {
        F64(self.0 / rhs.0)
    }
    fn neg(self) -> F64 {
        F64(-self.0)
    }
    fn inv(self) -> F64 {
        F64(if self.0 == 0.0 { 0.0 } else { 1.0 / self.0 })
    }
    fn powi(self, n: i32) -> F64 {
        F64(self.0.powi(n))
    }
    fn sqrt(self) -> F64 {
        F64(self.0.sqrt())
    }
    fn abs(self) -> F64 {
        F64(self.0.abs())
    }
    fn min(self, rhs: F64) -> F64 {
        F64(self.0.min(rhs.0))
    }
    fn max(self, rhs: F64) -> F64 {
        F64(self.0.max(rhs.0))
    }
    fn floor(self) -> i64 {
        self.0.floor() as i64
    }
    fn lt(self, rhs: F64) -> bool {
        self.0 < rhs.0
    }
    fn le(self, rhs: F64) -> bool {
        self.0 <= rhs.0
    }
    fn equals(self, rhs: F64) -> bool {
        self.0 == rhs.0
    }
    fn is_finite(self) -> bool {
        self.0.is_finite()
    }
    fn is_nan(self) -> bool {
        self.0.is_nan()
    }
    fn total_le(self, rhs: F64) -> bool {
        self.0.total_cmp(&rhs.0) != std::cmp::Ordering::Greater
    }
    fn spec_zero() -> F64 {
        F64::zero()
    }
    fn spec_one() -> F64 {
        F64::one()
    }
    fn spec_pi() -> F64 {
        F64::pi()
    }
    fn spec_infinity() -> F64 {
        F64::infinity()
    }
    fn spec_neg_infinity() -> F64 {
        F64::neg_infinity()
    }
    fn spec_decimal(mantissa: i64, digits: u32) -> F64 {
        F64::decimal(mantissa, digits)
    }
    fn spec_from_usize(n: usize) -> F64 {
        F64::from_usize(n)
    }
    fn spec_add(self, rhs: F64) -> F64 {
        self.add(rhs)
    }
    fn spec_sub(self, rhs: F64) -> F64 {
        self.sub(rhs)
    }
    fn spec_mul(self, rhs: F64) -> F64 {
        self.mul(rhs)
    }
    fn spec_div(self, rhs: F64) -> F64 {
        self.div(rhs)
    }
    fn spec_neg(self) -> F64 {
        self.neg()
    }
    fn spec_inv(self) -> F64 {
        self.inv()
    }
    fn spec_powi(self, n: i32) -> F64 {
        self.powi(n)
    }
    fn spec_sqrt(self) -> F64 {
        self.sqrt()
    }
    fn spec_abs(self) -> F64 {
        self.abs()
    }
    fn spec_min(self, rhs: F64) -> F64 {
        self.min(rhs)
    }
    fn spec_max(self, rhs: F64) -> F64 {
        self.max(rhs)
    }
    fn spec_floor(self) -> i64 {
        self.floor()
    }
    fn spec_lt(self, rhs: F64) -> bool {
        self.lt(rhs)
    }
    fn spec_le(self, rhs: F64) -> bool {
        self.le(rhs)
    }
    fn spec_equals(self, rhs: F64) -> bool {
        self.equals(rhs)
    }
    fn spec_is_finite(self) -> bool {
        self.is_finite()
    }
    fn spec_is_nan(self) -> bool {
        self.is_nan()
    }
    fn spec_total_le(self, rhs: F64) -> bool {
        self.total_le(rhs)
    }
    fn law_min_le(_: F64, _: F64, _: F64) {}
    fn law_le_max(_: F64, _: F64, _: F64) {}
    fn law_total_le_total(_: F64, _: F64) {}
    fn law_total_le_transitive(_: F64, _: F64, _: F64) {}
    fn law_zero_one() {}
    fn law_nothing_taken() {}
    fn law_le_itself(_: F64) {}
    fn law_room(_: F64, _: F64, _: i64, _: u32) {}
}


impl ProductKernel for F64 {
    fn spec_product_entry(
        _: F64,
        _: Line<F64>,
        _: Line<F64>,
        _: F64,
        c: F64,
        _: (usize, usize),
        _: (usize, usize),
    ) -> F64 {
        c
    }

    fn product(
        alpha: F64,
        a: &MatrixView<'_, F64>,
        b: &MatrixView<'_, F64>,
        beta: F64,
        c: &mut MatrixViewMut<'_, F64>,
    ) {
        // `nalgebra` hands products of this size to `matrixmultiply::dgemm`.
        let na_a = nalgebra::DMatrix::from_fn(a.nrows, a.ncols, |i, j| a[(i, j)].0);
        let na_b = nalgebra::DMatrix::from_fn(b.nrows, b.ncols, |i, j| b[(i, j)].0);
        let mut na_c = nalgebra::DMatrix::from_fn(c.nrows, c.ncols, |i, j| c[(i, j)].0);
        na_c.gemm(alpha.0, &na_a, &na_b, beta.0);
        for j in 0..c.ncols {
            for i in 0..c.nrows {
                *c.index_mut((i, j)) = F64(na_c[(i, j)]);
            }
        }
    }

    fn law_zero_beta(
        _: F64,
        _: Line<F64>,
        _: Line<F64>,
        _: F64,
        _: F64,
        _: F64,
        _: (usize, usize),
        _: (usize, usize),
    ) {
    }
}

fn approx_eq_bits(a: F64, b: f64) -> bool {
    a.0.to_bits() == b.to_bits()
}

fn wrap(data: &[f64]) -> Vec<F64> {
    data.iter().map(|&x| F64(x)).collect()
}

fn vector(data: &[f64]) -> DVector<F64> {
    DVector::from_vec(wrap(data))
}

fn matrix(nrows: usize, ncols: usize, data: &[f64]) -> DMatrix<F64> {
    DMatrix::from_row_slice(nrows, ncols, &wrap(data))
}

fn plain(data: &[F64]) -> Vec<f64> {
    data.iter().map(|x| x.0).collect()
}

#[test]
fn dvector_dot_bit_identical_to_nalgebra() {
    let data: Vec<f64> = (0..137).map(|i| (i as f64) * 1.137 + 0.25).collect();
    let data2: Vec<f64> = (0..137).map(|i| (i as f64) * 0.731 - 0.5).collect();

    let mine = vector(&data);
    let na = NaDVector::from_vec(data.clone());
    let mine2 = vector(&data2);
    let na2 = NaDVector::from_vec(data2.clone());

    let rd = mine.dot(&mine2);
    let rna = na.dot(&na2);
    assert!(approx_eq_bits(rd, rna), "dot mismatch: mine={:?} na={:?}", rd, rna);

    // various lengths, below a block of eight and above
    for n in [1usize, 2, 3, 4, 5, 7, 8, 9, 64, 137] {
        let a: Vec<f64> = (0..n).map(|i| i as f64 * 0.3 + 1.0).collect();
        let b: Vec<f64> = (0..n).map(|i| i as f64 * 0.7 - 0.2).collect();
        let m = vector(&a).dot(&vector(&b));
        let nref = NaDVector::from_vec(a).dot(&NaDVector::from_vec(b));
        assert!(approx_eq_bits(m, nref), "dot n={} mismatch: {:?} vs {}", n, m, nref);
    }
}

#[test]
fn dvector_component_mul_bit_identical() {
    let a: Vec<f64> = (0..100).map(|i| (i as f64) * 0.91 + 0.1).collect();
    let b: Vec<f64> = (0..100).map(|i| (i as f64) * 0.37 - 0.4).collect();
    let m = vector(&a).component_mul(&vector(&b));
    let nref = NaDVector::from_vec(a).component_mul(&NaDVector::from_vec(b));
    assert_eq!(m.data.len(), nref.len());
    for (x, y) in m.data.iter().zip(nref.iter()) {
        assert!(approx_eq_bits(*x, *y), "component_mul mismatch {:?} vs {}", x, y);
    }
}

#[test]
fn dvector_axpy_bit_identical() {
    for (a, b) in [(2.0, 3.0), (1.0, 0.0), (0.0, 1.0), (5.5, -2.0)] {
        let x: Vec<f64> = (0..60).map(|i| (i as f64) * 0.13 + 0.7).collect();
        let s: Vec<f64> = (0..60).map(|i| (i as f64) * 0.29 - 0.3).collect();
        let mut mine = vector(&s);
        let na_x = NaDVector::from_vec(x.clone());
        let mut na_s = NaDVector::from_vec(s.clone());
        mine.axpy(F64(a), &vector(&x), F64(b));
        na_s.axpy(a, &na_x, b);
        for (m, n) in mine.data.iter().zip(na_s.iter()) {
            assert!(approx_eq_bits(*m, *n), "axpy mismatch {:?} vs {}", m, n);
        }
    }
}

#[test]
fn dmatrix_gemm_bit_identical() {
    // both paths: large matrices by the kernel, small ones column by column
    for (nr, nc, mk) in [
        (10usize, 10, 10),
        (4, 4, 4),
        (7, 3, 5),
        (6, 6, 6),
        (20, 20, 20),
    ] {
        let a: Vec<f64> = (0..nr * mk).map(|i| (i as f64) * 0.137 + 0.5).collect();
        let b: Vec<f64> = (0..mk * nc).map(|i| (i as f64) * 0.731 - 0.3).collect();

        for (alpha, beta) in [(1.0, 0.0), (2.0, 1.0), (1.0, 1.0), (0.5, -1.0)] {
            let c0: Vec<f64> = (0..nr * nc).map(|i| (i as f64) * 0.21 - 0.7).collect();

            let mut mine = matrix(nr, nc, &c0);
            let mut na_res = NaDMatrix::from_row_slice(nr, nc, &c0);
            let na_a = NaDMatrix::from_row_slice(nr, mk, &a);
            let na_b = NaDMatrix::from_row_slice(mk, nc, &b);

            mine.gemm(F64(alpha), &matrix(nr, mk, &a), &matrix(mk, nc, &b), F64(beta));
            na_res.gemm(alpha, &na_a, &na_b, beta);

            for (m, n) in mine.data.iter().zip(na_res.iter()) {
                assert!(
                    approx_eq_bits(*m, *n),
                    "gemm ({},{},{}) a={}b={} mismatch: {:?} vs {}",
                    nr,
                    nc,
                    mk,
                    alpha,
                    beta,
                    m,
                    n
                );
            }
        }
    }
}

#[test]
fn dmatrix_transpose_bit_identical() {
    let (nr, nc) = (6usize, 4);
    let a: Vec<f64> = (0..nr * nc).map(|i| (i as f64) * 0.137 + 0.5).collect();
    let mine = matrix(nr, nc, &a).transpose();
    let na = NaDMatrix::from_row_slice(nr, nc, &a).transpose();
    for (m, n) in mine.data.iter().zip(na.iter()) {
        assert!(approx_eq_bits(*m, *n), "transpose mismatch {:?} vs {}", m, n);
    }
}

#[test]
fn omatrix_gemm_bit_identical() {
    let r = 6usize;
    let n = 7usize;
    let c = 5usize;
    let a_data: Vec<f64> = (0..r * n).map(|i| (i as f64) * 0.137 + 0.5).collect();
    let b_data: Vec<f64> = (0..n * c).map(|i| (i as f64) * 0.731 - 0.3).collect();
    let c0: Vec<f64> = (0..r * c).map(|i| (i as f64) * 0.21 - 0.7).collect();

    for (alpha, beta) in [(1.0, 0.0), (2.0, 1.0), (1.0, 1.0)] {
        let mut mine: OMatrix<F64> = OMatrix::from_row_slice(r, c, &wrap(&c0));
        let mut na_res = NaDMatrix::from_row_slice(r, c, &c0);
        let na_a = NaDMatrix::from_row_slice(r, n, &a_data);
        let na_b = NaDMatrix::from_row_slice(n, c, &b_data);
        mine.gemm(
            F64(alpha),
            &OMatrix::from_row_slice(r, n, &wrap(&a_data)),
            &OMatrix::from_row_slice(n, c, &wrap(&b_data)),
            F64(beta),
        );
        na_res.gemm(alpha, &na_a, &na_b, beta);

        for (m, n) in mine.data.iter().zip(na_res.iter()) {
            assert!(approx_eq_bits(*m, *n), "gemm mismatch {:?} vs {}", m, n);
        }
    }
}

#[test]
fn omatrix_fixed_rows_gemm_bit_identical() {
    // A 3x3 matrix times the lower three rows of a matrix of six rows.
    let n = 3usize;
    let c = 4usize;
    let shift: Vec<f64> = (0..n * n).map(|i| (i as f64) * 0.11 - 0.3).collect();
    let parent: Vec<f64> = (0..6 * c).map(|i| (i as f64) * 0.731 + 0.5).collect();

    let mut mine = OMatrix::<F64>::zeros(3, c);
    let shift_tr = OMatrix::<F64>::from_row_slice(n, n, &wrap(&shift));
    let parent_full = OMatrix::<F64>::from_row_slice(6, c, &wrap(&parent));
    let parent_j_w = parent_full.fixed_rows::<3>(3);
    mine.gemm(F64(1.0), &shift_tr, &parent_j_w, F64(1.0));

    let na_shift = NaDMatrix::from_row_slice(n, n, &shift);
    let na_parent = NaDMatrix::from_row_slice(6, c, &parent);
    let na_pw = na_parent.fixed_rows::<3>(3);
    let mut na_link = NaDMatrix::zeros(3, c);
    na_link.gemm(1.0, &na_shift, &na_pw, 1.0);

    for (m, n) in mine.data.iter().zip(na_link.iter()) {
        assert!(approx_eq_bits(*m, *n), "fixed_rows gemm mismatch {:?} vs {}", m, n);
    }
}

#[test]
fn omatrix_gemm_tr_bit_identical() {
    let n = 7usize;
    let c = 5usize;
    let a_data: Vec<f64> = (0..6 * n).map(|i| (i as f64) * 0.137 + 0.5).collect();
    let b_data: Vec<f64> = (0..6 * c).map(|i| (i as f64) * 0.731 - 0.3).collect();

    let mut mine = OMatrix::<F64>::zeros(n, c);
    let na_res = NaOMatrix::<f64, nalgebra::Const<7>, nalgebra::Dyn>::zeros(c);
    let na_a = NaOMatrix::<f64, nalgebra::Const<6>, nalgebra::Dyn>::from_row_slice(&a_data);
    let na_b = NaOMatrix::<f64, nalgebra::Const<6>, nalgebra::Dyn>::from_row_slice(&b_data);
    mine.gemm_tr(
        F64(1.5),
        &OMatrix::from_row_slice(6, n, &wrap(&a_data)),
        &OMatrix::from_row_slice(6, c, &wrap(&b_data)),
        F64(2.0),
    );
    let mut na_res = na_res;
    na_res.gemm_tr(1.5, &na_a, &na_b, 2.0);

    for (m, n) in mine.data.iter().zip(na_res.iter()) {
        assert!(approx_eq_bits(*m, *n), "gemm_tr mismatch {:?} vs {}", m, n);
    }
}

#[test]
fn omatrix_quadform_bit_identical() {
    let r = 6usize;
    let c = 4usize;
    let mid_data: Vec<f64> = (0..r * r).map(|i| (i as f64) * 0.137 + 0.5).collect();
    let rhs_data: Vec<f64> = (0..r * c).map(|i| (i as f64) * 0.731 - 0.3).collect();
    let c0: Vec<f64> = (0..c * c).map(|i| (i as f64) * 0.21 - 0.7).collect();

    let mid = matrix(r, r, &mid_data);
    let rhs = matrix(r, c, &rhs_data);
    let mut mine = matrix(c, c, &c0);
    mine.quadform(F64(1.0), &mid, &rhs, F64(1.0));

    let na_mid = nalgebra::DMatrix::<f64>::from_row_slice(r, r, &mid_data);
    let na_rhs = nalgebra::DMatrix::<f64>::from_row_slice(r, c, &rhs_data);
    let mut na_res = nalgebra::DMatrix::<f64>::from_row_slice(c, c, &c0);
    na_res.quadform(1.0, &na_mid, &na_rhs, 1.0);

    for (m, n) in mine.data.iter().zip(na_res.iter()) {
        assert!(approx_eq_bits(*m, *n), "quadform mismatch {:?} vs {}", m, n);
    }
}

#[test]
fn omatrix_ger_bit_identical() {
    let r = 2usize;
    let c = 3usize;
    let a_data: Vec<f64> = (0..r * c).map(|i| (i as f64) * 0.137 + 0.5).collect();
    let x: Vec<f64> = (0..r).map(|i| (i as f64) * 0.21 - 0.7).collect();
    let y: Vec<f64> = (0..c).map(|i| (i as f64) * 0.731 + 0.3).collect();

    let mut mine = matrix(r, c, &a_data);
    let mut na_res =
        NaOMatrix::<f64, nalgebra::Const<2>, nalgebra::Const<3>>::from_row_slice(&a_data);
    let na_x = nalgebra::DVector::from_vec(x.clone());
    let na_y = nalgebra::DVector::from_vec(y.clone());
    mine.ger(F64(1.0), &vector(&x), &vector(&y), F64(1.0));
    na_res.ger(1.0, &na_x, &na_y, 1.0);

    for (m, n) in mine.data.iter().zip(na_res.iter()) {
        assert!(approx_eq_bits(*m, *n), "ger mismatch {:?} vs {}", m, n);
    }
}

#[test]
fn omatrix_tr_mul_to_bit_identical() {
    let r = 6usize;
    let c = 4usize;
    let j: Vec<f64> = (0..r * c).map(|i| (i as f64) * 0.137 + 0.5).collect();
    let f: Vec<f64> = (0..r).map(|i| (i as f64) * 0.731 - 0.3).collect();

    let mine = matrix(r, c, &j);
    let na_j = NaOMatrix::<f64, nalgebra::Const<6>, nalgebra::Dyn>::from_row_slice(&j);
    let na_f = nalgebra::DVector::from_vec(f.clone());
    let mut out = DVector::zeros(c);
    let f_vec = vector(&f);
    let fv = f_vec.as_view();
    mine.tr_mul_to(&fv, &mut out);
    let na_out = na_j.tr_mul(&na_f);

    for (m, n) in out.data.iter().zip(na_out.iter()) {
        assert!(approx_eq_bits(*m, *n), "tr_mul_to mismatch {:?} vs {}", m, n);
    }
}

#[test]
fn smatrix_gemm_bit_identical() {
    let a_data: Vec<f64> = (0..3 * 3).map(|i| (i as f64) * 0.137 + 0.5).collect();
    let b_data: Vec<f64> = (0..3 * 3).map(|i| (i as f64) * 0.731 - 0.3).collect();

    let a = SMatrix::<F64, 3, 3>::from_row_slice(&wrap(&a_data));
    let b = SMatrix::<F64, 3, 3>::from_row_slice(&wrap(&b_data));
    let mut mine = SMatrix::<F64, 3, 3>::zeros();
    mine.gemm(F64(2.0), &a, &b, F64(1.0));

    let na_a = nalgebra::SMatrix::<f64, 3, 3>::from_row_slice(&a_data);
    let na_b = nalgebra::SMatrix::<f64, 3, 3>::from_row_slice(&b_data);
    let mut na_res = nalgebra::SMatrix::<f64, 3, 3>::zeros();
    na_res.gemm(2.0, &na_a, &na_b, 1.0);

    for (m, n) in mine.matrix.data.iter().zip(na_res.iter()) {
        assert!(approx_eq_bits(*m, *n), "gemm mismatch {:?} vs {}", m, n);
    }
}

/// A matrix of pseudo-random entries that are the same in every run.
fn rand_matrix(nrows: usize, ncols: usize, seed: u64) -> DMatrix<F64> {
    let mut data = Vec::with_capacity(nrows * ncols);
    let mut s = seed.wrapping_add(0x9E3779B97F4A7C15);
    for _ in 0..(nrows * ncols) {
        // xorshift64
        s ^= s << 13;
        s ^= s >> 7;
        s ^= s << 17;
        let v = ((s >> 11) as f64) / ((1u64 << 53) as f64) * 10.0 - 5.0;
        data.push(F64(v));
    }
    DMatrix::from_row_slice(nrows, ncols, &data)
}

#[test]
fn lu_decomposition_bit_identical() {
    for (r, c, seed) in [(3usize, 3, 1u64), (4, 4, 2), (5, 5, 7), (6, 6, 13)] {
        let m = rand_matrix(r, c, seed);
        let mine = LU::new(m.clone_owned());

        let na = nalgebra::LU::<f64, nalgebra::Dyn, nalgebra::Dyn>::new(
            nalgebra::DMatrix::from_column_slice(r, c, &plain(&m.data)),
        );

        let na_l = na.l();
        let na_u = na.u();
        for i in 0..r {
            for j in 0..c {
                let my_l = if i > j {
                    mine.lu.get(i, j)
                } else if i == j {
                    F64(1.0)
                } else {
                    F64(0.0)
                };
                let my_u = if i <= j { mine.lu.get(i, j) } else { F64(0.0) };
                assert!(
                    approx_eq_bits(my_l, na_l[(i, j)]),
                    "LU L mismatch r={r} c={c} seed={seed} ({i},{j}): {my_l:?} vs {}",
                    na_l[(i, j)]
                );
                assert!(
                    approx_eq_bits(my_u, na_u[(i, j)]),
                    "LU U mismatch r={r} c={c} seed={seed} ({i},{j}): {my_u:?} vs {}",
                    na_u[(i, j)]
                );
            }
        }
    }
}

#[test]
fn lu_solve_bit_identical() {
    for (n, seed, bseed) in [(4usize, 3u64, 100), (6, 9, 200), (5, 17, 300)] {
        let a = rand_matrix(n, n, seed);
        let b = rand_matrix(n, 2, bseed);
        let mine = LU::new(a.clone_owned());

        let mut x_mine = b.clone_owned();
        assert!(mine.solve_mut(&mut x_mine));

        let na = nalgebra::LU::<f64, nalgebra::Dyn, nalgebra::Dyn>::new(
            nalgebra::DMatrix::from_column_slice(n, n, &plain(&a.data)),
        );
        let na_b = nalgebra::DMatrix::from_column_slice(n, 2, &plain(&b.data));
        let x_na = na.solve(&na_b).unwrap();

        for i in 0..n {
            for j in 0..2 {
                assert!(
                    approx_eq_bits(x_mine.get(i, j), x_na[(i, j)]),
                    "LU solve mismatch n={n} ({i},{j}): {:?} vs {}",
                    x_mine.get(i, j),
                    x_na[(i, j)]
                );
            }
        }
    }
}

#[test]
fn lu_inverse_bit_identical() {
    for (n, seed) in [(4usize, 5u64), (5, 11), (6, 27)] {
        let a = rand_matrix(n, n, seed);
        let mine = LU::new(a.clone_owned());
        let inv_mine = mine.try_inverse().expect("invertible");

        let na = nalgebra::LU::<f64, nalgebra::Dyn, nalgebra::Dyn>::new(
            nalgebra::DMatrix::from_column_slice(n, n, &plain(&a.data)),
        );
        let inv_na = na.try_inverse().unwrap();

        for i in 0..n {
            for j in 0..n {
                assert!(
                    approx_eq_bits(inv_mine.get(i, j), inv_na[(i, j)]),
                    "LU inverse mismatch n={n} ({i},{j}): {:?} vs {}",
                    inv_mine.get(i, j),
                    inv_na[(i, j)]
                );
            }
        }
    }
}

#[test]
fn lu_determinant_bit_identical() {
    for (n, seed) in [(3usize, 2u64), (5, 8), (4, 19), (6, 33)] {
        let a = rand_matrix(n, n, seed);
        let mine = LU::new(a.clone_owned());
        let det_mine = mine.to_determinant();

        let na = nalgebra::LU::<f64, nalgebra::Dyn, nalgebra::Dyn>::new(
            nalgebra::DMatrix::from_column_slice(n, n, &plain(&a.data)),
        );
        let det_na = na.determinant();

        assert!(
            approx_eq_bits(det_mine, det_na),
            "LU determinant mismatch n={n}: {det_mine:?} vs {det_na}"
        );
    }
}

#[test]
fn quadform_scales_every_column_by_beta() {
    let mid_data: Vec<f64> = (0..9).map(|i| (i as f64) * 0.137 + 0.5).collect();
    let rhs_data: Vec<f64> = (0..6).map(|i| (i as f64) * 0.731 - 0.3).collect();
    let c0: Vec<f64> = vec![1.5, -2.0, 0.25, 4.0];
    let mut mine = matrix(2, 2, &c0);
    mine.quadform(F64(0.5), &matrix(3, 3, &mid_data), &matrix(3, 2, &rhs_data), F64(3.0));

    let na_mid = nalgebra::DMatrix::<f64>::from_row_slice(3, 3, &mid_data);
    let na_rhs = nalgebra::DMatrix::<f64>::from_row_slice(3, 2, &rhs_data);
    let mut na_res = nalgebra::DMatrix::<f64>::from_row_slice(2, 2, &c0);
    na_res.quadform(0.5, &na_mid, &na_rhs, 3.0);
    for (m, n) in mine.data.iter().zip(na_res.iter()) {
        assert!(approx_eq_bits(*m, *n), "quadform mismatch {:?} vs {}", m, n);
    }
}

#[test]
fn a_product_without_terms_scales_the_target() {
    // No columns: the product is zero, and only `beta * y` is left.
    let a = DMatrix::<F64>::zeros(2, 0);
    let x = vector(&[]);
    let mut y = vector(&[2.0, -3.0]);
    y.gemv(F64(7.0), &a, &x.as_view(), F64(0.5));
    assert_eq!(plain(&y.data), vec![1.0, -1.5]);
    let mut z = vector(&[f64::NAN, 1.0]);
    z.gemv(F64(7.0), &a, &x.as_view(), F64(0.0));
    assert_eq!(plain(&z.data), vec![0.0, 0.0]);

    let mut na = nalgebra::DVector::from_vec(vec![2.0, -3.0]);
    na.gemv(7.0, &nalgebra::DMatrix::zeros(2, 0), &nalgebra::DVector::zeros(0), 0.5);
    assert_eq!(na.as_slice(), &[1.0, -1.5]);
}

#[test]
fn a_zero_beta_ignores_the_target() {
    let a = matrix(2, 2, &[1.0, 2.0, 3.0, 4.0]);
    let x = vector(&[1.0, 1.0]);
    let mut y = vector(&[f64::NAN, f64::INFINITY]);
    y.gemv(F64(1.0), &a, &x.as_view(), F64(0.0));
    assert_eq!(plain(&y.data), vec![3.0, 7.0]);
    let mut y = vector(&[f64::NAN, f64::INFINITY]);
    y.gemv_tr(F64(1.0), &a, &x.as_view(), F64(0.0));
    assert_eq!(plain(&y.data), vec![4.0, 6.0]);
    let mut y = vector(&[f64::NAN, f64::INFINITY]);
    y.axpy(F64(2.0), &x, F64(0.0));
    assert_eq!(plain(&y.data), vec![2.0, 2.0]);
    let mut c = matrix(2, 2, &[f64::NAN, 0.0, 0.0, f64::NAN]);
    c.gemm(F64(1.0), &a, &a, F64(0.0));
    assert_eq!(plain(&c.data), vec![7.0, 15.0, 10.0, 22.0]);
    let mut c = matrix(2, 2, &[f64::NAN, 0.0, 0.0, f64::NAN]);
    c.ger(F64(1.0), &x, &vector(&[2.0, 3.0]), F64(0.0));
    assert_eq!(plain(&c.data), vec![2.0, 2.0, 3.0, 3.0]);
}

#[test]
fn transposing_twice_gives_the_matrix_back() {
    let m = matrix(2, 3, &[1.0, 2.0, 3.0, 4.0, 5.0, 6.0]);
    let t = m.transpose();
    assert_eq!(t.shape(), (3, 2));
    assert_eq!(plain(&t.data), vec![1.0, 2.0, 3.0, 4.0, 5.0, 6.0]);
    let back = t.transpose();
    assert_eq!(plain(&back.data), plain(&m.data));
    assert_eq!(back.shape(), (2, 3));
}

#[test]
fn blocks_keep_the_distance_of_their_matrix() {
    let mut m = matrix(3, 2, &[1.0, 2.0, 3.0, 4.0, 5.0, 6.0]);
    {
        let lower = m.rows_range(1, 2);
        assert_eq!((lower.nrows, lower.ncols, lower.col_stride), (2, 2, 3));
        assert_eq!(lower[(0, 0)], F64(3.0));
        assert_eq!(lower[(1, 1)], F64(6.0));
        let own = lower.into_owned();
        assert_eq!(own.col_stride, 2);
        assert_eq!(plain(&own.data), vec![3.0, 5.0, 4.0, 6.0]);
        let corner = m.view((2, 1), (1, 1));
        assert_eq!(corner[(0, 0)], F64(6.0));
        assert_eq!(m.columns(1, 1).column(0).data, wrap(&[2.0, 4.0, 6.0]));
    }
    // Filling the middle row leaves the rows around it.
    m.rows_range_mut(1, 1).fill(F64(9.0));
    assert_eq!(plain(&m.data), vec![1.0, 9.0, 5.0, 2.0, 9.0, 6.0]);
    m.view_mut((0, 1), (2, 1)).fill(F64(0.5));
    assert_eq!(plain(&m.data), vec![1.0, 9.0, 5.0, 0.5, 0.5, 6.0]);
    m.fixed_rows_mut::<1>(2).copy_from(&matrix(1, 2, &[7.0, 8.0]).as_view());
    assert_eq!(plain(&m.data), vec![1.0, 9.0, 7.0, 0.5, 0.5, 8.0]);
    m.columns_mut(0, 1).column_mut(0).fill(F64(4.0));
    assert_eq!(plain(&m.data), vec![4.0, 4.0, 4.0, 0.5, 0.5, 8.0]);
    m.columns_range_mut(1..2).swap((0, 0), (2, 0));
    assert_eq!(plain(&m.data), vec![4.0, 4.0, 4.0, 8.0, 0.5, 0.5]);
    m.rows_mut_block(0, 1).zip_apply(&matrix(3, 2, &[1.0; 6]).rows_range(0, 1), |e, x| {
        F64(e.0 + x.0)
    });
    assert_eq!(plain(&m.data), vec![5.0, 4.0, 4.0, 9.0, 0.5, 0.5]);

    let mut single = matrix(4, 1, &[1.0, 2.0, 3.0, 4.0]);
    {
        let (mut upper, mut lower) = single.rows_range_pair_mut(1, 2);
        upper.fill(F64(-1.0));
        lower.fill(F64(-2.0));
    }
    assert_eq!(plain(&single.data), vec![-1.0, -2.0, -2.0, 4.0]);
}

#[test]
fn two_groups_of_rows_can_be_written_at_once() {
    let mut m = matrix(
        4,
        3,
        &[1.0, 2.0, 3.0, 4.0, 5.0, 6.0, 7.0, 8.0, 9.0, 10.0, 11.0, 12.0],
    );
    {
        let (mut upper, mut lower) = m.rows_range_pair_mut(1, 2);
        assert_eq!((upper.nrows(), upper.ncols()), (1, 3));
        assert_eq!((lower.nrows(), lower.ncols()), (2, 3));
        assert_eq!(upper.get(0, 2), F64(3.0));
        assert_eq!(lower.get(1, 1), F64(8.0));
        upper.fill(F64(-1.0));
        lower.copy_from(&matrix(2, 3, &[0.5, 1.5, 2.5, 3.5, 4.5, 5.5]).as_view());
        upper.column_mut(1).fill(F64(20.0));
        lower.column_mut(2).copy_from(&vector(&[30.0, 40.0]));
        assert_eq!(lower.get(0, 0), F64(0.5));
    }
    assert_eq!(
        plain(&m.data),
        vec![-1.0, 0.5, 3.5, 10.0, 20.0, 1.5, 4.5, 11.0, -1.0, 30.0, 40.0, 12.0]
    );
    // A matrix without columns has nothing to lend.
    let mut none = matrix(2, 0, &[]);
    let (upper, lower) = none.rows_range_pair_mut(1, 1);
    assert_eq!((upper.ncols(), lower.ncols()), (0, 0));
}

#[test]
fn groups_of_rows_take_products() {
    let mut m = matrix(3, 2, &[1.0, 2.0, 3.0, 4.0, 5.0, 6.0]);
    {
        let (mut upper, mut lower) = m.rows_range_pair_mut(1, 2);
        // (1 2) becomes 2 * (1 1) * (1 2; 3 4) + (1 2).
        upper.gemm(
            F64(2.0),
            &matrix(1, 2, &[1.0, 1.0]),
            &matrix(2, 2, &[1.0, 2.0, 3.0, 4.0]),
            F64(1.0),
        );
        lower.ger(F64(2.0), &vector(&[1.0, -1.0]), &vector(&[3.0, 4.0]), F64(1.0));
    }
    assert_eq!(plain(&m.data), vec![9.0, 9.0, -1.0, 14.0, 12.0, -2.0]);
    {
        let (_, mut lower) = m.rows_range_pair_mut(1, 2);
        let rhs = matrix(2, 2, &[1.0, 1.0, 0.0, 2.0]);
        lower.quadform(F64(1.0), &matrix(2, 2, &[1.0, 0.0, 0.0, 3.0]), &rhs, F64(0.0));
    }
    assert_eq!(plain(&m.data), vec![9.0, 1.0, 1.0, 14.0, 1.0, 13.0]);

    // Large ones by the kernel, as in a matrix of their own.
    let a: Vec<f64> = (0..7 * 8).map(|i| (i as f64) * 0.137 + 0.5).collect();
    let b: Vec<f64> = (0..8 * 9).map(|i| (i as f64) * 0.731 - 0.3).collect();
    let c: Vec<f64> = (0..10 * 9).map(|i| (i as f64) * 0.21 - 0.7).collect();
    let mut whole = matrix(10, 9, &c);
    let mut alone = matrix(7, 9, &c[9..8 * 9]);
    {
        let (_, mut lower) = whole.rows_range_pair_mut(1, 7);
        lower.gemm(F64(0.5), &matrix(7, 8, &a), &matrix(8, 9, &b), F64(-1.0));
    }
    alone.gemm(F64(0.5), &matrix(7, 8, &a), &matrix(8, 9, &b), F64(-1.0));
    for j in 0..9 {
        for i in 0..7 {
            assert_eq!(whole.get(i + 1, j), alone.get(i, j));
        }
        assert_eq!(whole.get(0, j), F64(c[j]));
        assert_eq!(whole.get(8, j), F64(c[8 * 9 + j]));
    }
}

#[test]
fn a_large_product_of_whole_numbers_is_exact() {
    // No order of adding whole numbers rounds, so the entries are the sums of the products.
    let n = 12;
    let a: Vec<f64> = (0..n * n).map(|i| ((i * 7) % 11) as f64 - 5.0).collect();
    let b: Vec<f64> = (0..n * n).map(|i| ((i * 5) % 13) as f64 - 6.0).collect();
    let c: Vec<f64> = (0..n * n).map(|i| (i % 17) as f64).collect();
    let mut out = matrix(n, n, &c);
    out.gemm(F64(2.0), &matrix(n, n, &a), &matrix(n, n, &b), F64(-3.0));
    for i in 0..n {
        for j in 0..n {
            let sum: f64 = (0..n).map(|k| a[i * n + k] * b[k * n + j]).sum();
            assert_eq!(out.get(i, j), F64(2.0 * sum - 3.0 * c[i * n + j]));
        }
    }
}

#[test]
fn the_triangles_multiply_to_the_matrix_with_its_rows_exchanged() {
    // Pivots that are powers of two: nothing rounds.
    let g = [1.0, 3.0, 3.0, 2.0, 4.0, 8.0, 4.0, 4.0, 12.0];
    let lu = LU::new(matrix(3, 3, &g));
    let (l, u) = (
        |r: usize, k: usize| {
            if r == k {
                1.0
            } else if r > k {
                lu.lu.get(r, k).0
            } else {
                0.0
            }
        },
        |k: usize, c: usize| if k <= c { lu.lu.get(k, c).0 } else { 0.0 },
    );
    let mut exchanged = matrix(3, 3, &g);
    lu.p.permute_rows(&mut exchanged.rows_range_mut(0, 3));
    assert_ne!(plain(&exchanged.data), plain(&matrix(3, 3, &g).data));
    for r in 0..3 {
        for c in 0..3 {
            let sum: f64 = (0..3).map(|k| l(r, k) * u(k, c)).sum();
            assert_eq!(F64(sum), exchanged.get(r, c));
        }
    }
    // What solving finds is taken to the right-hand side.
    let b = [1.0, 6.0, 4.0];
    let x = lu.solve(&matrix(3, 1, &b)).unwrap();
    for r in 0..3 {
        let sum: f64 = (0..3).map(|k| g[r * 3 + k] * x.get(k, 0).0).sum();
        assert_eq!(sum, b[r]);
    }
}

#[test]
fn vectors_can_be_cut_and_joined() {
    let mut v = vector(&[1.0, 2.0, 3.0, 4.0]);
    assert_eq!((v.nrows(), v.ncols(), v.len(), v.is_empty()), (4, 1, 4, false));
    assert_eq!(plain(v.rows(1, 2).as_slice()), vec![2.0, 3.0]);
    assert_eq!(plain(&v.rows_owned(2, 2).data), vec![3.0, 4.0]);
    assert_eq!(plain(&v.index_range(3).data), vec![4.0]);
    assert_eq!(
        plain(&v.insert_rows(1, 2, F64(9.0)).data),
        vec![1.0, 9.0, 9.0, 2.0, 3.0, 4.0]
    );
    v.rows_mut(1, 2).fill(F64(0.0));
    assert_eq!(plain(&v.data), vec![1.0, 0.0, 0.0, 4.0]);
    v.rows_mut(0, 4).rows_range_mut(2).component_mul_assign(&vector(&[5.0, 0.5]));
    assert_eq!(plain(&v.data), vec![1.0, 0.0, 0.0, 2.0]);
    *v.at_mut(1) = F64(-2.0);
    assert_eq!(v.index(1), F64(-2.0));
    assert_eq!(v.amax(), F64(2.0));
    assert_eq!(v.norm(), F64(3.0));
    assert_eq!(v.rows_mut(0, 4).norm_squared(), F64(9.0));
    assert_eq!(plain(&vector(&[3.0, 4.0]).normalize().data), vec![0.6, 0.8]);
    assert_eq!(plain(&vector(&[0.0, 0.0]).normalize().data), vec![0.0, 0.0]);
    assert_eq!(plain(&DVector::from_fn(3, |i| F64(i as f64)).data), vec![0.0, 1.0, 2.0]);
    assert_eq!(plain(&DVector::from_element(2, F64(7.0)).data), vec![7.0, 7.0]);
    assert_eq!(plain(&DVector::<F64>::from(wrap(&[1.0])).data), vec![1.0]);
    assert_eq!(plain(&DVector::<F64>::from(&wrap(&[2.0])[..]).data), vec![2.0]);
    assert!(DVector::<F64>::default().is_empty());
    let mut other = DVector::zeros(4);
    other.copy_from(&v);
    assert_eq!(plain(&other.data), plain(&v.data));
    v.as_view().copy_to(&mut other);
    assert_eq!(plain(&other.transpose().data), plain(&v.data));
}

#[test]
fn matrices_can_be_changed_in_place() {
    let mut m = matrix(2, 2, &[1.0, 2.0, 3.0, 4.0]);
    assert_eq!(m.strides(), (1, 2));
    assert!(m.is_square());
    m.set_column(0, &vector(&[5.0, 6.0]));
    m.swap((0, 0), (1, 1));
    assert_eq!(plain(&m.data), vec![4.0, 6.0, 2.0, 5.0]);
    *m.get_mut(0, 1) = F64(0.0);
    *m.index_mut((1, 0)) = F64(-1.0);
    assert_eq!(m[(1, 0)], F64(-1.0));
    let sum = m.clone_owned() + matrix(2, 2, &[1.0, 1.0, 1.0, 1.0]);
    assert_eq!(plain(&sum.data), vec![5.0, 0.0, 1.0, 6.0]);
    m.fill_with_identity();
    assert_eq!(plain(&m.data), vec![1.0, 0.0, 0.0, 1.0]);
    let mut copy = DMatrix::zeros(2, 2);
    copy.copy_from(&m);
    assert_eq!(plain(&copy.data), plain(&m.data));
    copy.rows_range_mut(0, 2).copy_from_dmatrix(&sum);
    assert_eq!(plain(&copy.data), plain(&sum.data));
    assert_eq!(MatrixLike::nrows(&m), 2);
    assert_eq!(MatrixLike::strides(&m), (1, 2));
    let s = SMatrix::<F64, 2, 3>::zeros();
    assert_eq!((s.nrows(), s.ncols(), s.data.len()), (2, 3, 6));
    assert_eq!(DMatrix::<F64>::default().shape(), (0, 0));
}

#[test]
fn row_exchanges_are_undone_in_reverse_order() {
    let mut p = PermutationSequence::identity(3);
    p.append_permutation(0, 2);
    p.append_permutation(1, 1);
    p.append_permutation(1, 2);
    let mut q = PermutationSequence::identity(2);
    q.append_permutation(1, 2);
    q.append_permutation(0, 2);
    let m = matrix(3, 2, &[1.0, 2.0, 3.0, 4.0, 5.0, 6.0]);
    let mut n = m.clone_owned();
    p.permute_rows(&mut n.rows_range_mut(0, 3));
    assert_eq!(plain(&n.data), vec![5.0, 1.0, 3.0, 6.0, 2.0, 4.0]);
    q.permute_rows(&mut n.rows_range_mut(0, 3));
    assert_eq!(plain(&n.data), plain(&m.data));
    // Two exchanges: an exchange of a row with itself is none.
    assert_eq!(p.determinant::<F64>(), F64(1.0));
    let mut odd = PermutationSequence::identity(1);
    odd.append_permutation(0, 1);
    assert_eq!(odd.determinant::<F64>(), F64(-1.0));
}

#[test]
fn elimination_steps_by_hand() {
    let mut m = matrix(2, 2, &[2.0, 1.0, 4.0, 5.0]);
    gauss_step(&mut m, F64(2.0), 0);
    assert_eq!(plain(&m.data), vec![2.0, 2.0, 1.0, 3.0]);
    let mut m = matrix(2, 2, &[2.0, 1.0, 4.0, 5.0]);
    gauss_step_swap(&mut m, F64(4.0), 0, 1);
    assert_eq!(plain(&m.data), vec![4.0, 0.5, 5.0, -1.5]);
    let lu = LU::new(matrix(2, 2, &[2.0, 1.0, 4.0, 5.0]));
    assert_eq!(plain(&lu.lu.data), vec![4.0, 0.5, 5.0, -1.5]);
    assert_eq!(lu.to_determinant(), F64(6.0));
    let mut b = vector(&[4.0, 14.0]);
    assert!(lu.solve_mut(&mut b));
    assert_eq!(plain(&b.data), vec![1.0, 2.0]);
    let x = lu.solve(&matrix(2, 1, &[4.0, 14.0])).unwrap();
    assert_eq!(plain(&x.data), vec![1.0, 2.0]);
    let mut whole = vector(&[0.0, 4.0, 14.0]);
    assert!(lu.solve_mut(&mut whole.rows_mut(1, 2)));
    assert_eq!(plain(&whole.data), vec![0.0, 1.0, 2.0]);
}

#[test]
fn a_singular_matrix_is_not_solved() {
    let lu = LU::new(matrix(2, 2, &[1.0, 2.0, 2.0, 4.0]));
    assert!(lu.solve(&matrix(2, 1, &[1.0, 1.0])).is_none());
    assert!(lu.try_inverse().is_none());
    let mut out = DMatrix::zeros(2, 2);
    assert!(!lu.try_inverse_to(&mut out));
    assert_eq!(lu.to_determinant(), F64(0.0));
    // A column of zeros is passed over.
    let lu = LU::new(matrix(2, 2, &[0.0, 1.0, 0.0, 3.0]));
    assert_eq!(plain(&lu.lu.data), vec![0.0, 0.0, 1.0, 3.0]);
    // Nothing to solve for: nothing can fail.
    assert!(lu.solve(&DMatrix::zeros(2, 0)).is_some());
    // The matrix without rows and columns is its own inverse.
    let empty = LU::new(DMatrix::<F64>::zeros(0, 0));
    assert_eq!(empty.try_inverse().unwrap().shape(), (0, 0));
}

#[test]
fn triangles_are_solved_by_substitution() {
    let t = matrix(2, 2, &[2.0, 3.0, 4.0, 5.0]);
    let mut b = matrix(2, 1, &[6.0, 20.0]);
    assert!(solve_lower_triangular_with_diag_mut(&t, &mut b.rows_range_mut(0, 2), F64(2.0)));
    assert_eq!(plain(&b.data), vec![6.0, 8.0]);
    assert!(!solve_lower_triangular_with_diag_mut(&t, &mut b.rows_range_mut(0, 2), F64(0.0)));
    assert_eq!(plain(&b.data), vec![6.0, 8.0]);
    let mut b = matrix(2, 1, &[16.0, 10.0]);
    assert!(solve_upper_triangular_mut(&t, &mut b.rows_range_mut(0, 2)));
    assert_eq!(plain(&b.data), vec![5.0, 2.0]);
    // A zero on the diagonal stops the substitution in the first column, one row below it.
    let t = matrix(2, 2, &[0.0, 3.0, 0.0, 5.0]);
    let mut b = matrix(2, 2, &[16.0, 1.0, 10.0, 1.0]);
    assert!(!solve_upper_triangular_mut(&t, &mut b.rows_range_mut(0, 2)));
    assert_eq!(plain(&b.data), vec![10.0, 2.0, 1.0, 1.0]);
}
