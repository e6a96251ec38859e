use meanvar::{
    col_mean, col_mean_ignore, col_mean_propagate, col_varm, col_varm_ignore, col_varm_propagate,
    row_mean, row_mean_ignore, row_mean_propagate, row_varm, row_varm_ignore, row_varm_propagate,
    Additive, ComplexField, MatRef, NanHandling, RealField,
};
use num_complex::{Complex, Complex32, Complex64};

// Real scalars.

#[derive(Copy, Clone, Debug, PartialEq)]
struct R32(f32);

#[derive(Copy, Clone, Debug, PartialEq)]
struct R64(f64);

impl Additive for R32 {
    fn zero_spec() -> Self {
        unreachable!()
    }
    fn plus_spec(self, _: Self) -> Self {
        unreachable!()
    }
    fn zero() -> Self {
        R32(0.0)
    }
    fn plus(self, rhs: Self) -> Self {
        R32(self.0 + rhs.0)
    }
}

impl RealField for R32 {
    fn is_nan_spec(self) -> bool {
        unreachable!()
    }
    fn minus_spec(self, _: Self) -> Self {
        unreachable!()
    }
    fn times_spec(self, _: Self) -> Self {
        unreachable!()
    }
    fn inverse_spec(self) -> Self {
        unreachable!()
    }
    fn from_u64_spec(_: u64) -> Self {
        unreachable!()
    }
    fn nan() -> Self {
        R32(f32::NAN)
    }
    fn is_nan(self) -> bool {
        self.0.is_nan()
    }
    fn minus(self, rhs: Self) -> Self {
        R32(self.0 - rhs.0)
    }
    fn times(self, rhs: Self) -> Self {
        R32(self.0 * rhs.0)
    }
    fn inverse(self) -> Self {
        R32(1.0 / self.0)
    }
    fn from_u64(n: u64) -> Self {
        R32(n as f64 as f32)
    }
}

impl Additive for R64 {
    fn zero_spec() -> Self {
        unreachable!()
    }
    fn plus_spec(self, _: Self) -> Self {
        unreachable!()
    }
    fn zero() -> Self {
        R64(0.0)
    }
    fn plus(self, rhs: Self) -> Self {
        R64(self.0 + rhs.0)
    }
}

impl RealField for R64 {
    fn is_nan_spec(self) -> bool {
        unreachable!()
    }
    fn minus_spec(self, _: Self) -> Self {
        unreachable!()
    }
    fn times_spec(self, _: Self) -> Self {
        unreachable!()
    }
    fn inverse_spec(self) -> Self {
        unreachable!()
    }
    fn from_u64_spec(_: u64) -> Self {
        unreachable!()
    }
    fn nan() -> Self {
        R64(f64::NAN)
    }
    fn is_nan(self) -> bool {
        self.0.is_nan()
    }
    fn minus(self, rhs: Self) -> Self {
        R64(self.0 - rhs.0)
    }
    fn times(self, rhs: Self) -> Self {
        R64(self.0 * rhs.0)
    }
    fn inverse(self) -> Self {
        R64(1.0 / self.0)
    }
    fn from_u64(n: u64) -> Self {
        R64(n as f64)
    }
}

// A real scalar as a matrix entry.

impl ComplexField for R64 {
    type Real = R64;

    fn is_nan_spec(self) -> bool {
        unreachable!()
    }
    fn minus_spec(self, _: Self) -> Self {
        unreachable!()
    }
    fn abs2_spec(self) -> R64 {
        unreachable!()
    }
    fn scale_real_spec(self, _: R64) -> Self {
        unreachable!()
    }
    fn nan() -> Self {
        R64(f64::NAN)
    }
    fn is_nan(self) -> bool {
        self.0.is_nan()
    }
    fn minus(self, rhs: Self) -> Self {
        R64(self.0 - rhs.0)
    }
    fn abs2(self) -> R64 {
        R64(self.0 * self.0)
    }
    fn scale_real(self, factor: R64) -> Self {
        R64(self.0 * factor.0)
    }
}

// Packed complex numbers: a pair of adjacent components.

#[allow(non_camel_case_types)]
#[derive(Copy, Clone, Debug, PartialEq)]
struct c32 {
    re: f32,
    im: f32,
}

#[allow(non_camel_case_types)]
#[derive(Copy, Clone, Debug, PartialEq)]
struct c64 {
    re: f64,
    im: f64,
}

impl c32 {
    fn new(re: f32, im: f32) -> Self {
        c32 { re, im }
    }
}

impl c64 {
    fn new(re: f64, im: f64) -> Self {
        c64 { re, im }
    }
}

impl Additive for c32 {
    fn zero_spec() -> Self {
        unreachable!()
    }
    fn plus_spec(self, _: Self) -> Self {
        unreachable!()
    }
    fn zero() -> Self {
        c32::new(0.0, 0.0)
    }
    fn plus(self, rhs: Self) -> Self {
        c32::new(self.re + rhs.re, self.im + rhs.im)
    }
}

impl ComplexField for c32 {
    type Real = R32;

    fn is_nan_spec(self) -> bool {
        unreachable!()
    }
    fn minus_spec(self, _: Self) -> Self {
        unreachable!()
    }
    fn abs2_spec(self) -> R32 {
        unreachable!()
    }
    fn scale_real_spec(self, _: R32) -> Self {
        unreachable!()
    }
    fn nan() -> Self {
        c32::new(f32::NAN, f32::NAN)
    }
    fn is_nan(self) -> bool {
        self.re.is_nan() || self.im.is_nan()
    }
    fn minus(self, rhs: Self) -> Self {
        c32::new(self.re - rhs.re, self.im - rhs.im)
    }
    fn abs2(self) -> R32 {
        R32(self.re * self.re + self.im * self.im)
    }
    fn scale_real(self, factor: R32) -> Self {
        c32::new(self.re * factor.0, self.im * factor.0)
    }
}

impl Additive for c64 {
    fn zero_spec() -> Self {
        unreachable!()
    }
    fn plus_spec(self, _: Self) -> Self {
        unreachable!()
    }
    fn zero() -> Self {
        c64::new(0.0, 0.0)
    }
    fn plus(self, rhs: Self) -> Self {
        c64::new(self.re + rhs.re, self.im + rhs.im)
    }
}

impl ComplexField for c64 {
    type Real = R64;

    fn is_nan_spec(self) -> bool {
        unreachable!()
    }
    fn minus_spec(self, _: Self) -> Self {
        unreachable!()
    }
    fn abs2_spec(self) -> R64 {
        unreachable!()
    }
    fn scale_real_spec(self, _: R64) -> Self {
        unreachable!()
    }
    fn nan() -> Self {
        c64::new(f64::NAN, f64::NAN)
    }
    fn is_nan(self) -> bool {
        self.re.is_nan() || self.im.is_nan()
    }
    fn minus(self, rhs: Self) -> Self {
        c64::new(self.re - rhs.re, self.im - rhs.im)
    }
    fn abs2(self) -> R64 {
        R64(self.re * self.re + self.im * self.im)
    }
    fn scale_real(self, factor: R64) -> Self {
        c64::new(self.re * factor.0, self.im * factor.0)
    }
}

// A two by two matrix kept column by column: entry (i, j) at position i + 2 j.

fn two_by_two<E: Copy>(data: &[E]) -> MatRef<'_, E> {
    MatRef::new(data, 2, 2, 0, 1, 2).unwrap()
}

fn stats_propagate<E: ComplexField>(
    data: &[E],
) -> (Vec<E>, Vec<E::Real>, Vec<E>, Vec<E::Real>) {
    let a = two_by_two(data);
    let mut row_mean = vec![E::zero(); 2];
    let mut row_var = vec![E::Real::zero(); 2];
    row_mean_propagate(&mut row_mean, &a);
    row_varm_propagate(&mut row_var, &a, &row_mean);
    let mut col_mean = vec![E::zero(); 2];
    let mut col_var = vec![E::Real::zero(); 2];
    col_mean_propagate(&mut col_mean, &a);
    col_varm_propagate(&mut col_var, &a, &col_mean);
    (row_mean, row_var, col_mean, col_var)
}

fn stats_ignore<E: ComplexField>(data: &[E]) -> (Vec<E>, Vec<E::Real>, Vec<E>, Vec<E::Real>) {
    let a = two_by_two(data);
    let mut row_mean = vec![E::zero(); 2];
    let mut row_var = vec![E::Real::zero(); 2];
    row_mean_ignore(&mut row_mean, &a);
    row_varm_ignore(&mut row_var, &a, &row_mean);
    let mut col_mean = vec![E::zero(); 2];
    let mut col_var = vec![E::Real::zero(); 2];
    col_mean_ignore(&mut col_mean, &a);
    col_varm_ignore(&mut col_var, &a, &col_mean);
    (row_mean, row_var, col_mean, col_var)
}

fn half32(x: c32) -> c32 {
    c32::new(x.re / 2.0, x.im / 2.0)
}

fn half64(x: c64) -> c64 {
    c64::new(x.re / 2.0, x.im / 2.0)
}

fn one32(x: c32) -> c32 {
    c32::new(x.re / 1.0, x.im / 1.0)
}

fn one64(x: c64) -> c64 {
    c64::new(x.re / 1.0, x.im / 1.0)
}

fn abs2_32(x: c32) -> f32 {
    x.abs2().0
}

fn abs2_64(x: c64) -> f64 {
    x.abs2().0
}

#[test]
fn test_meanvar() {
    let a00 = c32::new(1.2, 2.3);
    let a01 = c32::new(3.4, 1.2);
    let a10 = c32::new(1.7, -1.0);
    let a11 = c32::new(-3.8, 1.95);
    let data = [a00, a10, a01, a11];

    let (row_mean, row_var, col_mean, col_var) = stats_propagate(&data);

    assert_eq!(row_mean, vec![half32(a00.plus(a10)), half32(a01.plus(a11))]);
    assert_eq!(
        row_var,
        vec![
            R32(abs2_32(a00.minus(row_mean[0])) + abs2_32(a10.minus(row_mean[0]))),
            R32(abs2_32(a01.minus(row_mean[1])) + abs2_32(a11.minus(row_mean[1]))),
        ]
    );

    assert_eq!(col_mean, vec![half32(a00.plus(a01)), half32(a10.plus(a11))]);
    assert_eq!(
        col_var,
        vec![
            R32(abs2_32(a00.minus(col_mean[0])) + abs2_32(a01.minus(col_mean[0]))),
            R32(abs2_32(a10.minus(col_mean[1])) + abs2_32(a11.minus(col_mean[1]))),
        ]
    );
}

#[test]
fn test_meanvar_ignore_nan_nonan_c32() {
    let a00 = c32::new(1.2, 2.3);
    let a01 = c32::new(3.4, 1.2);
    let a10 = c32::new(1.7, -1.0);
    let a11 = c32::new(-3.8, 1.95);
    let data = [a00, a10, a01, a11];

    let (row_mean, row_var, col_mean, col_var) = stats_ignore(&data);

    assert_eq!(row_mean, vec![half32(a00.plus(a10)), half32(a01.plus(a11))]);
    assert_eq!(
        row_var,
        vec![
            R32(abs2_32(a00.minus(row_mean[0])) + abs2_32(a10.minus(row_mean[0]))),
            R32(abs2_32(a01.minus(row_mean[1])) + abs2_32(a11.minus(row_mean[1]))),
        ]
    );

    assert_eq!(col_mean, vec![half32(a00.plus(a01)), half32(a10.plus(a11))]);
    assert_eq!(
        col_var,
        vec![
            R32(abs2_32(a00.minus(col_mean[0])) + abs2_32(a01.minus(col_mean[0]))),
            R32(abs2_32(a10.minus(col_mean[1])) + abs2_32(a11.minus(col_mean[1]))),
        ]
    );
}

#[test]
fn test_meanvar_ignore_nan_yesnan_c32() {
    let nan = f32::NAN;
    let a00 = c32::new(1.2, nan);
    let a01 = c32::new(3.4, 1.2);
    let a10 = c32::new(1.7, -1.0);
    let a11 = c32::new(-3.8, 1.95);
    let data = [a00, a10, a01, a11];

    let (row_mean, row_var, col_mean, col_var) = stats_ignore(&data);

    assert_eq!(row_mean, vec![one32(a10), half32(a01.plus(a11))]);
    assert_eq!(
        row_var,
        vec![
            R32(abs2_32(a10.minus(row_mean[0]))),
            R32(abs2_32(a01.minus(row_mean[1])) + abs2_32(a11.minus(row_mean[1]))),
        ]
    );

    assert_eq!(col_mean, vec![one32(a01), half32(a10.plus(a11))]);
    assert_eq!(
        col_var,
        vec![
            R32(abs2_32(a01.minus(col_mean[0]))),
            R32(abs2_32(a10.minus(col_mean[1])) + abs2_32(a11.minus(col_mean[1]))),
        ]
    );
}

#[test]
fn test_meanvar_ignore_nan_nonan_c64() {
    let a00 = c64::new(1.2, 2.3);
    let a01 = c64::new(3.4, 1.2);
    let a10 = c64::new(1.7, -1.0);
    let a11 = c64::new(-3.8, 1.95);
    let data = [a00, a10, a01, a11];

    let (row_mean, row_var, col_mean, col_var) = stats_ignore(&data);

    assert_eq!(row_mean, vec![half64(a00.plus(a10)), half64(a01.plus(a11))]);
    assert_eq!(
        row_var,
        vec![
            R64(abs2_64(a00.minus(row_mean[0])) + abs2_64(a10.minus(row_mean[0]))),
            R64(abs2_64(a01.minus(row_mean[1])) + abs2_64(a11.minus(row_mean[1]))),
        ]
    );

    assert_eq!(col_mean, vec![half64(a00.plus(a01)), half64(a10.plus(a11))]);
    assert_eq!(
        col_var,
        vec![
            R64(abs2_64(a00.minus(col_mean[0])) + abs2_64(a01.minus(col_mean[0]))),
            R64(abs2_64(a10.minus(col_mean[1])) + abs2_64(a11.minus(col_mean[1]))),
        ]
    );
}

#[test]
fn test_meanvar_ignore_nan_yesnan_c64() {
    let nan = f64::NAN;
    let a00 = c64::new(1.2, nan);
    let a01 = c64::new(3.4, 1.2);
    let a10 = c64::new(1.7, -1.0);
    let a11 = c64::new(-3.8, 1.95);
    let data = [a00, a10, a01, a11];

    let (row_mean, row_var, col_mean, col_var) = stats_ignore(&data);

    assert_eq!(row_mean, vec![one64(a10), half64(a01.plus(a11))]);
    assert_eq!(
        row_var,
        vec![
            R64(abs2_64(a10.minus(row_mean[0]))),
            R64(abs2_64(a01.minus(row_mean[1])) + abs2_64(a11.minus(row_mean[1]))),
        ]
    );

    assert_eq!(col_mean, vec![one64(a01), half64(a10.plus(a11))]);
    assert_eq!(
        col_var,
        vec![
            R64(abs2_64(a01.minus(col_mean[0]))),
            R64(abs2_64(a10.minus(col_mean[1])) + abs2_64(a11.minus(col_mean[1]))),
        ]
    );
}

// Complex numbers of the general complex type, over each real scalar.

fn cplx32(z: Complex32) -> Complex<R32> {
    Complex::new(R32(z.re), R32(z.im))
}

fn cplx64(z: Complex64) -> Complex<R64> {
    Complex::new(R64(z.re), R64(z.im))
}

fn plain32(z: Complex<R32>) -> Complex32 {
    Complex::new(z.re.0, z.im.0)
}

fn plain64(z: Complex<R64>) -> Complex64 {
    Complex::new(z.re.0, z.im.0)
}

fn norm32(x: Complex32) -> f32 {
    x.re * x.re + x.im * x.im
}

fn norm64(x: Complex64) -> f64 {
    x.re * x.re + x.im * x.im
}

#[test]
fn test_meanvar_ignore_nan_nonan_cplx32() {
    let a00 = Complex32::new(1.2, 2.3);
    let a01 = Complex32::new(3.4, 1.2);
    let a10 = Complex32::new(1.7, -1.0);
    let a11 = Complex32::new(-3.8, 1.95);
    let data = [cplx32(a00), cplx32(a10), cplx32(a01), cplx32(a11)];

    let (row_mean, row_var, col_mean, col_var) = stats_ignore(&data);

    assert_eq!(row_mean, vec![cplx32((a00 + a10) / 2.0), cplx32((a01 + a11) / 2.0)]);
    assert_eq!(
        row_var,
        vec![
            R32(norm32(a00 - plain32(row_mean[0])) + norm32(a10 - plain32(row_mean[0]))),
            R32(norm32(a01 - plain32(row_mean[1])) + norm32(a11 - plain32(row_mean[1]))),
        ]
    );

    assert_eq!(col_mean, vec![cplx32((a00 + a01) / 2.0), cplx32((a10 + a11) / 2.0)]);
    assert_eq!(
        col_var,
        vec![
            R32(norm32(a00 - plain32(col_mean[0])) + norm32(a01 - plain32(col_mean[0]))),
            R32(norm32(a10 - plain32(col_mean[1])) + norm32(a11 - plain32(col_mean[1]))),
        ]
    );
}

#[test]
fn test_meanvar_ignore_nan_yesnan_cplx32() {
    let nan = f32::NAN;
    let a00 = Complex32::new(1.2, nan);
    let a01 = Complex32::new(3.4, 1.2);
    let a10 = Complex32::new(1.7, -1.0);
    let a11 = Complex32::new(-3.8, 1.95);
    let data = [cplx32(a00), cplx32(a10), cplx32(a01), cplx32(a11)];

    let (row_mean, row_var, col_mean, col_var) = stats_ignore(&data);

    assert_eq!(row_mean, vec![cplx32(a10 / 1.0), cplx32((a01 + a11) / 2.0)]);
    assert_eq!(
        row_var,
        vec![
            R32(norm32(a10 - plain32(row_mean[0]))),
            R32(norm32(a01 - plain32(row_mean[1])) + norm32(a11 - plain32(row_mean[1]))),
        ]
    );

    assert_eq!(col_mean, vec![cplx32(a01 / 1.0), cplx32((a10 + a11) / 2.0)]);
    assert_eq!(
        col_var,
        vec![
            R32(norm32(a01 - plain32(col_mean[0]))),
            R32(norm32(a10 - plain32(col_mean[1])) + norm32(a11 - plain32(col_mean[1]))),
        ]
    );
}

#[test]
fn test_meanvar_ignore_nan_nonan_cplx64() {
    let a00 = Complex64::new(1.2, 2.3);
    let a01 = Complex64::new(3.4, 1.2);
    let a10 = Complex64::new(1.7, -1.0);
    let a11 = Complex64::new(-3.8, 1.95);
    let data = [cplx64(a00), cplx64(a10), cplx64(a01), cplx64(a11)];

    let (row_mean, row_var, col_mean, col_var) = stats_ignore(&data);

    assert_eq!(row_mean, vec![cplx64((a00 + a10) / 2.0), cplx64((a01 + a11) / 2.0)]);
    assert_eq!(
        row_var,
        vec![
            R64(norm64(a00 - plain64(row_mean[0])) + norm64(a10 - plain64(row_mean[0]))),
            R64(norm64(a01 - plain64(row_mean[1])) + norm64(a11 - plain64(row_mean[1]))),
        ]
    );

    assert_eq!(col_mean, vec![cplx64((a00 + a01) / 2.0), cplx64((a10 + a11) / 2.0)]);
    assert_eq!(
        col_var,
        vec![
            R64(norm64(a00 - plain64(col_mean[0])) + norm64(a01 - plain64(col_mean[0]))),
            R64(norm64(a10 - plain64(col_mean[1])) + norm64(a11 - plain64(col_mean[1]))),
        ]
    );
}

#[test]
fn test_meanvar_ignore_nan_yesnan_cplx64() {
    let nan = f64::NAN;
    let a00 = Complex64::new(1.2, nan);
    let a01 = Complex64::new(3.4, 1.2);
    let a10 = Complex64::new(1.7, -1.0);
    let a11 = Complex64::new(-3.8, 1.95);
    let data = [cplx64(a00), cplx64(a10), cplx64(a01), cplx64(a11)];

    let (row_mean, row_var, col_mean, col_var) = stats_ignore(&data);

    assert_eq!(row_mean, vec![cplx64(a10 / 1.0), cplx64((a01 + a11) / 2.0)]);
    assert_eq!(
        row_var,
        vec![
            R64(norm64(a10 - plain64(row_mean[0]))),
            R64(norm64(a01 - plain64(row_mean[1])) + norm64(a11 - plain64(row_mean[1]))),
        ]
    );

    assert_eq!(col_mean, vec![cplx64(a01 / 1.0), cplx64((a10 + a11) / 2.0)]);
    assert_eq!(
        col_var,
        vec![
            R64(norm64(a01 - plain64(col_mean[0]))),
            R64(norm64(a10 - plain64(col_mean[1])) + norm64(a11 - plain64(col_mean[1]))),
        ]
    );
}

// Real matrices.

fn reals(values: &[f64]) -> Vec<R64> {
    values.iter().map(|&x| R64(x)).collect()
}

fn close(a: f64, b: f64) -> bool {
    (a - b).abs() <= 1e-12
}

// The rows (1.2, 1.7) and (3.4, -3.8), kept row by row.
fn sample(data: &[R64]) -> MatRef<'_, R64> {
    MatRef::new(data, 2, 2, 0, 2, 1).unwrap()
}

#[test]
fn real_two_by_two_means_and_variances() {
    let data = reals(&[1.2, 1.7, 3.4, -3.8]);
    let a = sample(&data);
    let mut mean = vec![R64(0.0); 2];
    col_mean(&mut mean, &a, NanHandling::Propagate);
    assert!(close(mean[0].0, 1.45));
    assert!(close(mean[1].0, -0.2));

    let mut var = vec![R64(0.0); 2];
    col_varm(&mut var, &a, &mean, NanHandling::Propagate);
    assert!(close(var[0].0, 0.125));
    assert!(close(var[1].0, 25.92));

    let mut mean_ignoring = vec![R64(0.0); 2];
    let mut var_ignoring = vec![R64(0.0); 2];
    col_mean(&mut mean_ignoring, &a, NanHandling::Ignore);
    col_varm(&mut var_ignoring, &a, &mean_ignoring, NanHandling::Ignore);
    assert_eq!(mean_ignoring, mean);
    assert_eq!(var_ignoring, var);
}

#[test]
fn real_two_by_two_with_one_nan_ignored() {
    let data = reals(&[1.2, f64::NAN, 3.4, -3.8]);
    let a = sample(&data);
    let mut mean = vec![R64(0.0); 2];
    col_mean(&mut mean, &a, NanHandling::Ignore);
    assert_eq!(mean[0], R64(1.2));
    assert!(close(mean[1].0, -0.2));

    let mut var = vec![R64(7.0); 2];
    col_varm(&mut var, &a, &mean, NanHandling::Ignore);
    assert_eq!(var[0], R64(0.0));
    assert!(close(var[1].0, 25.92));
}

#[test]
fn single_number_in_a_row_has_variance_zero() {
    // One row of five entries, of which only the fourth is a number. The mean
    // handed in is deliberately not the mean of the row.
    let nan = f64::NAN;
    let data = reals(&[nan, nan, nan, 8.5, nan]);
    for stride in [1isize, -1] {
        let start = if stride == 1 { 0 } else { 4 };
        let a = MatRef::new(&data, 1, 5, start, 5, stride).unwrap();
        let mut mean = vec![R64(0.0); 1];
        col_mean(&mut mean, &a, NanHandling::Ignore);
        assert_eq!(mean, vec![R64(8.5)]);
        let mut var = vec![R64(3.0); 1];
        col_varm(&mut var, &a, &[R64(100.0)], NanHandling::Ignore);
        assert_eq!(var, vec![R64(0.0)]);
    }
}

#[test]
fn row_of_nans_is_nan_under_both_policies() {
    let nan = f64::NAN;
    let data = reals(&[nan, nan, nan, 1.0, 2.0, 3.0]);
    let a = MatRef::new(&data, 2, 3, 0, 3, 1).unwrap();
    for policy in [NanHandling::Ignore, NanHandling::Propagate] {
        let mut mean = vec![R64(0.0); 2];
        col_mean(&mut mean, &a, policy);
        assert!(mean[0].0.is_nan());
        assert_eq!(mean[1], R64(2.0));
        let mut var = vec![R64(0.0); 2];
        col_varm(&mut var, &a, &[R64(0.0), R64(2.0)], policy);
        assert!(var[0].0.is_nan());
        assert_eq!(var[1], R64(1.0));
    }
}

#[test]
fn propagate_poisons_a_row_with_one_nan() {
    let data = reals(&[1.0, f64::NAN, 3.0]);
    let a = MatRef::new(&data, 1, 3, 0, 3, 1).unwrap();
    let mut mean = vec![R64(0.0); 1];
    col_mean(&mut mean, &a, NanHandling::Propagate);
    assert!(mean[0].0.is_nan());
    let mut var = vec![R64(0.0); 1];
    col_varm(&mut var, &a, &[R64(2.0)], NanHandling::Propagate);
    assert!(var[0].0.is_nan());
}

#[test]
fn no_columns_gives_nan_everywhere() {
    let data: Vec<R64> = Vec::new();
    let a = MatRef::new(&data, 3, 0, 0, 0, 1).unwrap();
    for policy in [NanHandling::Ignore, NanHandling::Propagate] {
        let mut mean = vec![R64(0.0); 3];
        col_mean(&mut mean, &a, policy);
        assert!(mean.iter().all(|x| x.0.is_nan()));
        let mut var = vec![R64(0.0); 3];
        col_varm(&mut var, &a, &[R64(0.0); 3], policy);
        assert!(var.iter().all(|x| x.0.is_nan()));
    }
}

#[test]
fn no_rows_writes_nothing() {
    let data: Vec<R64> = Vec::new();
    let a = MatRef::new(&data, 0, 4, 0, 4, 1).unwrap();
    let mut mean: Vec<R64> = Vec::new();
    col_mean(&mut mean, &a, NanHandling::Ignore);
    assert!(mean.is_empty());
    let mut across = vec![R64(0.0); 4];
    row_mean(&mut across, &a, NanHandling::Ignore);
    assert!(across.iter().all(|x| x.0.is_nan()));
}

#[test]
fn one_column_has_variance_zero_under_propagate_whatever_it_holds() {
    let data = reals(&[5.0, f64::NAN]);
    let a = MatRef::new(&data, 2, 1, 0, 1, 1).unwrap();
    let mut var = vec![R64(9.0); 2];
    col_varm(&mut var, &a, &[R64(1.0), R64(1.0)], NanHandling::Propagate);
    assert_eq!(var, vec![R64(0.0), R64(0.0)]);

    // Under the ignoring policy the second row has no number left.
    let mut var = vec![R64(9.0); 2];
    col_varm(&mut var, &a, &[R64(1.0), R64(1.0)], NanHandling::Ignore);
    assert_eq!(var[0], R64(0.0));
    assert!(var[1].0.is_nan());
}

#[test]
fn variance_divides_by_count_minus_one() {
    // Deviations 1, 2, 3 and 4 from the mean 10: squares 1 + 4 + 9 + 16 = 30.
    let data = reals(&[11.0, 12.0, 13.0, 14.0]);
    let a = MatRef::new(&data, 1, 4, 0, 4, 1).unwrap();
    let mut var = vec![R64(0.0); 1];
    col_varm(&mut var, &a, &[R64(10.0)], NanHandling::Propagate);
    assert_eq!(var, vec![R64(30.0 * (1.0 / 3.0))]);

    // With one entry ignored: squares 1 + 9 + 16 = 26 over two.
    let data = reals(&[11.0, f64::NAN, 13.0, 14.0]);
    let a = MatRef::new(&data, 1, 4, 0, 4, 1).unwrap();
    let mut var = vec![R64(0.0); 1];
    col_varm(&mut var, &a, &[R64(10.0)], NanHandling::Ignore);
    assert_eq!(var, vec![R64(13.0)]);
    let mut mean = vec![R64(0.0); 1];
    col_mean(&mut mean, &a, NanHandling::Ignore);
    assert_eq!(mean, vec![R64(38.0 * (1.0 / 3.0))]);
}

// A matrix of small whole numbers, in which every sum is exact whatever the
// order of the additions.
fn whole(nrows: usize, ncols: usize) -> Vec<f64> {
    let mut values = Vec::new();
    for i in 0..nrows {
        for j in 0..ncols {
            values.push(((i * 7 + j * 3) % 11) as f64 - 4.0);
        }
    }
    values
}

fn all_four(
    a: &MatRef<'_, R64>,
    policy: NanHandling,
) -> (Vec<R64>, Vec<R64>, Vec<R64>, Vec<R64>) {
    let mut cm = vec![R64(0.0); a.nrows()];
    col_mean(&mut cm, a, policy);
    let mut cv = vec![R64(0.0); a.nrows()];
    col_varm(&mut cv, a, &cm, policy);
    let mut rm = vec![R64(0.0); a.ncols()];
    row_mean(&mut rm, a, policy);
    let mut rv = vec![R64(0.0); a.ncols()];
    row_varm(&mut rv, a, &rm, policy);
    (cm, cv, rm, rv)
}

fn same(a: &[R64], b: &[R64]) -> bool {
    a.len() == b.len()
        && a.iter().zip(b).all(|(x, y)| (x.0.is_nan() && y.0.is_nan()) || close(x.0, y.0))
}

#[test]
fn row_statistics_are_column_statistics_of_the_transpose() {
    let data = reals(&whole(5, 13));
    let a = MatRef::new(&data, 5, 13, 0, 13, 1).unwrap();
    let t = a.transpose();
    assert_eq!((t.nrows(), t.ncols()), (13, 5));
    for policy in [NanHandling::Ignore, NanHandling::Propagate] {
        let (cm, cv, rm, rv) = all_four(&a, policy);
        let (tcm, tcv, trm, trv) = all_four(&t, policy);
        assert_eq!(rm, tcm);
        assert_eq!(rv, tcv);
        assert_eq!(cm, trm);
        assert_eq!(cv, trv);
    }
}

#[test]
fn policies_agree_where_there_is_no_nan() {
    let data = reals(&whole(6, 300));
    let a = MatRef::new(&data, 6, 300, 0, 300, 1).unwrap();
    let ignoring = all_four(&a, NanHandling::Ignore);
    let keeping = all_four(&a, NanHandling::Propagate);
    assert_eq!(ignoring, keeping);
}

#[test]
fn layouts_agree_on_the_same_entries() {
    let nrows = 4;
    let ncols = 29;
    let by_rows = whole(nrows, ncols);
    let mut by_cols = vec![0.0; nrows * ncols];
    let mut spread = vec![0.0; 2 + 3 * nrows * ncols];
    let mut backwards = vec![0.0; nrows * ncols];
    for i in 0..nrows {
        for j in 0..ncols {
            let x = by_rows[i * ncols + j];
            by_cols[i + j * nrows] = x;
            spread[2 + 3 * (i * ncols + j)] = x;
            backwards[i * ncols + (ncols - 1 - j)] = x;
        }
    }
    let by_rows = reals(&by_rows);
    let by_cols = reals(&by_cols);
    let spread = reals(&spread);
    let backwards = reals(&backwards);
    let n = ncols as isize;
    let first = MatRef::new(&by_rows, nrows, ncols, 0, n, 1).unwrap();
    let others = [
        MatRef::new(&by_cols, nrows, ncols, 0, 1, nrows as isize).unwrap(),
        MatRef::new(&spread, nrows, ncols, 2, 3 * n, 3).unwrap(),
        MatRef::new(&backwards, nrows, ncols, ncols - 1, n, -1).unwrap(),
    ];
    for policy in [NanHandling::Ignore, NanHandling::Propagate] {
        let (cm, cv, rm, rv) = all_four(&first, policy);
        for other in &others {
            for i in 0..nrows {
                for j in 0..ncols {
                    assert_eq!(other.read(i, j), first.read(i, j));
                }
            }
            let (ocm, ocv, orm, orv) = all_four(other, policy);
            assert!(same(&cm, &ocm));
            assert!(same(&cv, &ocv));
            assert!(same(&rm, &orm));
            assert!(same(&rv, &orv));
        }
    }
}

#[test]
fn layouts_agree_with_nans_ignored() {
    let ncols = 1100;
    let mut forward = whole(1, ncols);
    for j in (0..ncols).step_by(7) {
        forward[j] = f64::NAN;
    }
    let kept: Vec<f64> = forward.iter().copied().filter(|x| !x.is_nan()).collect();
    let total: f64 = kept.iter().sum();
    let expected = total * (1.0 / kept.len() as f64);
    let mut apart = vec![0.0; 2 * ncols];
    for j in 0..ncols {
        apart[2 * j] = forward[j];
    }
    let forward = reals(&forward);
    let apart = reals(&apart);
    let views = [
        MatRef::new(&forward, 1, ncols, 0, ncols as isize, 1).unwrap(),
        MatRef::new(&forward, 1, ncols, ncols - 1, ncols as isize, -1).unwrap(),
        MatRef::new(&apart, 1, ncols, 0, 2 * ncols as isize, 2).unwrap(),
    ];
    for view in &views {
        let mut mean = vec![R64(0.0); 1];
        col_mean(&mut mean, view, NanHandling::Ignore);
        assert_eq!(mean, vec![R64(expected)]);
    }
}

#[test]
fn packed_and_general_complex_agree() {
    let mut packed = Vec::new();
    let mut general = Vec::new();
    for k in 0..40 {
        let re = if k % 9 == 4 { f32::NAN } else { (k % 7) as f32 - 2.5 };
        let im = if k % 13 == 6 { f32::NAN } else { (k % 5) as f32 * 0.75 };
        packed.push(c32::new(re, im));
        general.push(Complex::new(R32(re), R32(im)));
    }
    let a = MatRef::new(&packed, 4, 10, 0, 10, 1).unwrap();
    let b = MatRef::new(&general, 4, 10, 0, 10, 1).unwrap();
    for policy in [NanHandling::Ignore, NanHandling::Propagate] {
        let mut am = vec![c32::new(0.0, 0.0); 4];
        let mut bm = vec![Complex::new(R32(0.0), R32(0.0)); 4];
        col_mean(&mut am, &a, policy);
        col_mean(&mut bm, &b, policy);
        let mut av = vec![R32(0.0); 4];
        let mut bv = vec![R32(0.0); 4];
        col_varm(&mut av, &a, &am, policy);
        col_varm(&mut bv, &b, &bm, policy);
        for i in 0..4 {
            let both_nan = am[i].is_nan() && bm[i].is_nan();
            assert!(both_nan || (am[i].re == bm[i].re.0 && am[i].im == bm[i].im.0));
            assert!((av[i].0.is_nan() && bv[i].0.is_nan()) || av[i] == bv[i]);
        }
    }
}

#[test]
fn general_complex_is_nan_when_either_part_is() {
    let z = Complex::new(R64(1.0), R64(f64::NAN));
    assert!(z.is_nan());
    assert!(Complex::new(R64(f64::NAN), R64(1.0)).is_nan());
    assert!(!Complex::new(R64(0.0), R64(1.0)).is_nan());
    let made: Complex<R64> = ComplexField::nan();
    assert!(made.is_nan());
}

#[test]
fn general_complex_arithmetic() {
    let a = Complex::new(R64(3.0), R64(-4.0));
    let b = Complex::new(R64(0.5), R64(1.5));
    assert_eq!(a.plus(b), Complex::new(R64(3.5), R64(-2.5)));
    assert_eq!(a.minus(b), Complex::new(R64(2.5), R64(-5.5)));
    assert_eq!(a.abs2(), R64(25.0));
    assert_eq!(a.scale_real(R64(2.0)), Complex::new(R64(6.0), R64(-8.0)));
    let zero: Complex<R64> = Additive::zero();
    assert_eq!(zero, Complex::new(R64(0.0), R64(0.0)));
}
