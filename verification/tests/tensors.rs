use tensor_kernels::binary32::Binary32;
use tensor_kernels::checked::{
    any_stray_index, try_dot, try_gather, try_masked_softmax, try_matmul_transb,
    try_random_sample, try_rms_norm, try_rope, try_swiglu, Violation,
};
use tensor_kernels::arithmetic::Arithmetic;
use tensor_kernels::tensor::Tensor;

struct Hardware;

fn f(x: Binary32) -> f32 {
    f32::from_bits(x.to_bits())
}

fn b(x: f32) -> Binary32 {
    Binary32::from_bits(x.to_bits())
}

impl Arithmetic for Hardware {
    fn add(a: Binary32, c: Binary32) -> Binary32 {
        b(f(a) + f(c))
    }

    fn sub(a: Binary32, c: Binary32) -> Binary32 {
        b(f(a) - f(c))
    }

    fn mul(a: Binary32, c: Binary32) -> Binary32 {
        b(f(a) * f(c))
    }

    fn div(a: Binary32, c: Binary32) -> Binary32 {
        b(f(a) / f(c))
    }

    fn exp(a: Binary32) -> Binary32 {
        b(f(a).exp())
    }

    fn sqrt(a: Binary32) -> Binary32 {
        b(f(a).sqrt())
    }

    fn powf(base: Binary32, exponent: Binary32) -> Binary32 {
        b(f(base).powf(f(exponent)))
    }

    fn sin_cos(a: Binary32) -> (Binary32, Binary32) {
        let (sin, cos) = f(a).sin_cos();
        (b(sin), b(cos))
    }

    fn from_usize(n: usize) -> Binary32 {
        b(n as f32)
    }
}

fn tensor(data: &[f32], shape: &[usize]) -> Tensor<Binary32> {
    let bits: Vec<Binary32> = data.iter().map(|x| b(*x)).collect();
    Tensor::new(bits, &shape.to_vec()).unwrap()
}

fn values(t: &Tensor<Binary32>) -> Vec<f32> {
    t.data().iter().map(|x| f(*x)).collect()
}

#[test]
fn a_tensor_needs_a_shape_that_fits() {
    assert!(Tensor::new(vec![1, 2, 3, 4, 5, 6], &vec![2, 3]).is_some());
    assert!(Tensor::new(vec![1, 2, 3, 4, 5, 6], &vec![6]).is_some());
    assert!(Tensor::new(vec![1, 2, 3, 4, 5, 6], &vec![1, 3, 1, 2]).is_some());
    assert!(Tensor::new(vec![7], &vec![]).is_some());
    assert!(Tensor::new(vec![1, 2, 3, 4, 5, 6], &vec![2, 2]).is_none());
    assert!(Tensor::new(vec![1, 2, 3, 4, 5, 6], &vec![7]).is_none());
    assert!(Tensor::new(vec![1, 2], &vec![]).is_none());
    assert!(Tensor::new(Vec::<u8>::new(), &vec![]).is_none());
}

#[test]
fn a_tensor_has_no_empty_dimension() {
    assert!(Tensor::new(Vec::<u8>::new(), &vec![0]).is_none());
    assert!(Tensor::new(Vec::<u8>::new(), &vec![3, 0]).is_none());
    assert!(Tensor::new(Vec::<u8>::new(), &vec![0, usize::MAX, usize::MAX]).is_none());
}

#[test]
fn a_tensor_refuses_a_shape_larger_than_memory() {
    assert!(Tensor::new(vec![1u8, 2], &vec![usize::MAX, 2]).is_none());
    assert!(Tensor::new(vec![1u8, 2], &vec![usize::MAX, usize::MAX, 2]).is_none());
    assert!(Tensor::new(vec![1u8, 2], &vec![2, usize::MAX / 2 + 1]).is_none());
}

#[test]
fn a_tensor_hands_out_what_it_holds() {
    let mut t = Tensor::new(vec![10, 20, 30, 40], &vec![2, 2]).unwrap();
    assert_eq!(t.size(), 4);
    assert_eq!(t.shape(), &vec![2, 2]);
    assert_eq!(t.data(), &vec![10, 20, 30, 40]);
    assert_eq!(*t.get(2), 30);
    t.set(2, 31);
    assert_eq!(t.data(), &vec![10, 20, 31, 40]);
    assert_eq!(t.shape(), &vec![2, 2]);
}

#[test]
fn stray_indices_are_found() {
    assert!(!any_stray_index(&vec![0, 1, 2], 3));
    assert!(any_stray_index(&vec![0, 3, 2], 3));
    assert!(any_stray_index(&vec![0], 0));
    assert!(!any_stray_index(&vec![], 0));
}

#[test]
fn try_gather_checks_rank_size_and_indices() {
    let table = tensor(&[1., 2., 3., 4., 5., 6.], &[3, 2]);
    let indices = Tensor::new(vec![2u32, 1], &vec![2]).unwrap();
    let mut y = tensor(&[0.; 4], &[2, 2]);
    assert_eq!(try_gather(&mut y, &indices, &table), Ok(()));
    assert_eq!(values(&y), vec![5., 6., 3., 4.]);

    let flat = tensor(&[1., 2., 3., 4., 5., 6.], &[6]);
    assert_eq!(try_gather(&mut y, &indices, &flat), Err(Violation::Rank));
    let cube = tensor(&[1., 2., 3., 4., 5., 6.], &[3, 2, 1]);
    assert_eq!(try_gather(&mut y, &indices, &cube), Err(Violation::Rank));
    let mut short = tensor(&[0.; 3], &[3]);
    assert_eq!(try_gather(&mut short, &indices, &table), Err(Violation::Size));
    let mut long = tensor(&[0.; 6], &[6]);
    assert_eq!(try_gather(&mut long, &indices, &table), Err(Violation::Size));
    let stray = Tensor::new(vec![0u32, 3], &vec![2]).unwrap();
    assert_eq!(try_gather(&mut y, &stray, &table), Err(Violation::Index));
    assert_eq!(values(&y), vec![5., 6., 3., 4.]);
}

#[test]
fn try_rope_checks_rank_parity_and_position() {
    let mut y = tensor(&[1., 0., 1., 0.], &[2, 1, 2]);
    assert_eq!(try_rope::<Hardware>(&mut y, 0, b(10000.)), Ok(()));
    let (s, c) = 1f32.sin_cos();
    assert_eq!(values(&y), vec![1., 0., c, s]);

    let mut flat = tensor(&[1., 0., 1., 0.], &[2, 2]);
    assert_eq!(try_rope::<Hardware>(&mut flat, 0, b(10000.)), Err(Violation::Rank));
    let mut odd = tensor(&[1., 2., 3.], &[1, 1, 3]);
    assert_eq!(try_rope::<Hardware>(&mut odd, 0, b(10000.)), Err(Violation::OddDimension));
    assert_eq!(values(&odd), vec![1., 2., 3.]);
    let mut far = tensor(&[1., 0., 1., 0.], &[2, 1, 2]);
    assert_eq!(try_rope::<Hardware>(&mut far, usize::MAX - 1, b(10000.)), Err(Violation::Position));
    assert_eq!(try_rope::<Hardware>(&mut far, usize::MAX - 2, b(10000.)), Ok(()));
}

#[test]
fn try_masked_softmax_checks_rank_and_mask() {
    let mut y = tensor(&[0., 0., 0., 0.], &[2, 2]);
    assert_eq!(try_masked_softmax::<Hardware>(&mut y), Ok(()));
    assert_eq!(values(&y), vec![1., 0., 0.5, 0.5]);

    let mut flat = tensor(&[1., 2.], &[2]);
    assert_eq!(try_masked_softmax::<Hardware>(&mut flat), Err(Violation::Rank));
    assert_eq!(values(&flat), vec![1., 2.]);
    let mut scalar = tensor(&[1.], &[]);
    assert_eq!(try_masked_softmax::<Hardware>(&mut scalar), Err(Violation::Rank));
    let mut tall = tensor(&[1., 2., 3., 4., 5., 6.], &[3, 2]);
    assert_eq!(try_masked_softmax::<Hardware>(&mut tall), Err(Violation::Mask));
    assert_eq!(values(&tall), vec![1., 2., 3., 4., 5., 6.]);
}

#[test]
fn try_rms_norm_checks_the_sizes() {
    let mut y = tensor(&[0., 0.], &[2]);
    let x = tensor(&[3., 4.], &[2]);
    let w = tensor(&[1., 1.], &[1, 2]);
    assert_eq!(try_rms_norm::<Hardware>(&mut y, &x, &w, b(0.)), Ok(()));
    let rms = 12.5f32.sqrt();
    assert_eq!(values(&y), vec![3. / rms, 4. / rms]);

    let mut four = tensor(&[1., 2., 3., 4.], &[2, 2]);
    let x4 = tensor(&[1., 2., 3., 4.], &[2, 2]);
    let w2 = tensor(&[1., 2.], &[2]);
    assert_eq!(try_rms_norm::<Hardware>(&mut four, &x4, &w2, b(1e-6)), Err(Violation::Size));
    assert_eq!(values(&four), vec![1., 2., 3., 4.]);
    assert_eq!(try_rms_norm::<Hardware>(&mut four, &x, &w2, b(1e-6)), Err(Violation::Size));
}

#[test]
fn try_swiglu_checks_the_sizes() {
    let mut y = tensor(&[2., 3., 4.], &[1, 3]);
    let x = tensor(&[1., 2., 3.], &[3]);
    assert_eq!(try_swiglu::<Hardware>(&mut y, &x), Ok(()));
    assert!((values(&y)[2] - 11.43089).abs() < 1e-3);
    let short = tensor(&[1., 2.], &[2]);
    let before = values(&y);
    assert_eq!(try_swiglu::<Hardware>(&mut y, &short), Err(Violation::Size));
    assert_eq!(values(&y), before);
}

#[test]
fn try_matmul_transb_checks_ranks_and_dimensions() {
    let a = tensor(&[1., 2., 3., 4., 5., 6.], &[2, 3]);
    let bb = tensor(&[1., 0., 0., 0., 1., 0.], &[2, 3]);
    let mut c = tensor(&[0.; 4], &[2, 2]);
    assert_eq!(try_matmul_transb::<Hardware>(&mut c, b(0.), &a, &bb, b(1.)), Ok(()));
    assert_eq!(values(&c), vec![1., 2., 4., 5.]);

    let flat = tensor(&[1., 2., 3., 4., 5., 6.], &[6]);
    assert_eq!(
        try_matmul_transb::<Hardware>(&mut c, b(0.), &flat, &bb, b(1.)),
        Err(Violation::Rank)
    );
    assert_eq!(
        try_matmul_transb::<Hardware>(&mut c, b(0.), &a, &flat, b(1.)),
        Err(Violation::Rank)
    );
    let mut c4 = tensor(&[0.; 4], &[4]);
    assert_eq!(
        try_matmul_transb::<Hardware>(&mut c4, b(0.), &a, &bb, b(1.)),
        Err(Violation::Rank)
    );
    let wide = tensor(&[1., 2., 3., 4., 5., 6.], &[3, 2]);
    assert_eq!(
        try_matmul_transb::<Hardware>(&mut c, b(0.), &a, &wide, b(1.)),
        Err(Violation::Size)
    );
    assert_eq!(
        try_matmul_transb::<Hardware>(&mut c, b(0.), &wide, &bb, b(1.)),
        Err(Violation::Size)
    );
    let mut c3 = tensor(&[0.; 6], &[2, 3]);
    assert_eq!(
        try_matmul_transb::<Hardware>(&mut c3, b(0.), &a, &bb, b(1.)),
        Err(Violation::Size)
    );
    assert_eq!(values(&c), vec![1., 2., 4., 5.]);
}

#[test]
fn try_dot_checks_the_sizes() {
    let x = tensor(&[1., 2., 3.], &[3]);
    let y = tensor(&[4., 5., 6.], &[3, 1]);
    assert_eq!(try_dot::<Hardware>(&x, &y).map(f), Ok(32.));
    let short = tensor(&[4., 5.], &[2]);
    assert_eq!(try_dot::<Hardware>(&x, &short).map(f), Err(Violation::Size));
}

#[test]
fn try_random_sample_checks_the_logits() {
    let x = tensor(&[1., 3., 2.], &[1, 1, 3]);
    let r = try_random_sample::<Hardware, _>(&x, b(1.), 3, b(1.), || b(0.7));
    assert_eq!(r, Ok(Some(2)));
    let r = try_random_sample::<Hardware, _>(&x, b(1.), 3, b(0.), || b(0.7));
    assert_eq!(r, Ok(Some(1)));

    let never = || -> Binary32 { panic!("no draw is needed") };
    let scalar = tensor(&[1.], &[]);
    assert_eq!(
        try_random_sample::<Hardware, _>(&scalar, b(1.), 3, b(1.), never),
        Err(Violation::Rank)
    );
    let never = || -> Binary32 { panic!("no draw is needed") };
    let rows = tensor(&[1., 3., 2., 4.], &[2, 2]);
    assert_eq!(
        try_random_sample::<Hardware, _>(&rows, b(1.), 3, b(1.), never),
        Err(Violation::Size)
    );
}
