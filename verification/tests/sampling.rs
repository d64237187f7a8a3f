use tensor_kernels::arithmetic::Arithmetic;
use tensor_kernels::binary32::Binary32;
use tensor_kernels::operators::random_sample;
use tensor_kernels::sampler::{
    argmax, cumulate, is_greedy, rank, sample_with_draw, select, threshold,
};
use tensor_kernels::tensor::Tensor;

struct Hardware;

fn f(x: Binary32) -> f32 {
    f32::from_bits(x.to_bits())
}

fn b(x: f32) -> Binary32 {
    Binary32::from_bits(x.to_bits())
}

impl Arithmetic for Hardware {
    fn add(a: Binary32, c: Binary32) -> Binary32 {
        b(f(a) + f(c))
    }

    fn sub(a: Binary32, c: Binary32) -> Binary32 {
        b(f(a) - f(c))
    }

    fn mul(a: Binary32, c: Binary32) -> Binary32 {
        b(f(a) * f(c))
    }

    fn div(a: Binary32, c: Binary32) -> Binary32 {
        b(f(a) / f(c))
    }

    fn exp(a: Binary32) -> Binary32 {
        b(f(a).exp())
    }

    fn sqrt(a: Binary32) -> Binary32 {
        b(f(a).sqrt())
    }

    fn powf(base: Binary32, exponent: Binary32) -> Binary32 {
        b(f(base).powf(f(exponent)))
    }

    fn sin_cos(a: Binary32) -> (Binary32, Binary32) {
        let (sin, cos) = f(a).sin_cos();
        (b(sin), b(cos))
    }

    fn from_usize(n: usize) -> Binary32 {
        b(n as f32)
    }
}

fn bits(data: &[f32]) -> Vec<Binary32> {
    data.iter().map(|x| b(*x)).collect()
}

fn logits(data: &[f32]) -> Tensor<Binary32> {
    Tensor::new(bits(data), &vec![data.len()]).unwrap()
}

fn floats(data: &[Binary32]) -> Vec<f32> {
    data.iter().map(|x| f(*x)).collect()
}

/// Draws in [0, 1), spread evenly and ending just under 1.
fn draws(n: u32) -> Vec<f32> {
    let mut all: Vec<f32> = (0..n).map(|i| i as f32 / n as f32).collect();
    all.push(f32::from_bits(1f32.to_bits() - 1));
    all
}

#[test]
fn greedy_when_sampling_is_switched_off() {
    assert!(is_greedy(b(0.9), 5, b(0.)));
    assert!(is_greedy(b(0.9), 5, b(-0.)));
    assert!(is_greedy(b(0.9), 5, b(-1.)));
    assert!(is_greedy(b(0.9), 1, b(1.)));
    assert!(is_greedy(b(0.9), 0, b(1.)));
    assert!(is_greedy(b(0.), 5, b(1.)));
    assert!(is_greedy(b(-0.5), 5, b(1.)));
    assert!(!is_greedy(b(0.9), 2, b(1.)));
    assert!(!is_greedy(b(1.), 5, b(1e-30)));
    assert!(!is_greedy(b(0.9), 5, b(f32::NAN)));
    assert!(!is_greedy(b(f32::NAN), 5, b(1.)));
}

#[test]
fn argmax_takes_the_first_of_equal_maxima() {
    assert_eq!(argmax(&bits(&[1., 3., 3., 2.])), Some(1));
    assert_eq!(argmax(&bits(&[5., 3., 5., 5.])), Some(0));
    assert_eq!(argmax(&bits(&[-0., 0., -1.])), Some(0));
    assert_eq!(argmax(&bits(&[0., -0., -1.])), Some(0));
    assert_eq!(argmax(&bits(&[-3., -2., -1.])), Some(2));
    assert_eq!(argmax(&bits(&[f32::NEG_INFINITY, f32::INFINITY, 1e38])), Some(1));
    assert_eq!(argmax(&bits(&[7.])), Some(0));
}

#[test]
fn argmax_finds_nothing_among_nans_or_nothing() {
    assert_eq!(argmax(&bits(&[])), None);
    assert_eq!(argmax(&bits(&[1., f32::NAN])), None);
    assert_eq!(argmax(&bits(&[f32::NAN, 1.])), None);
    assert_eq!(argmax(&bits(&[1., 2., -f32::NAN, 3.])), None);
    assert_eq!(argmax(&bits(&[f32::NAN])), Some(0));
}

#[test]
fn rank_sorts_by_falling_logit_then_rising_token() {
    assert_eq!(rank(&bits(&[1., 3., 2.])), vec![1, 2, 0]);
    assert_eq!(rank(&bits(&[2., 2., 5., 2.])), vec![2, 0, 1, 3]);
    assert_eq!(rank(&bits(&[0., 1., 2., 3., 4.])), vec![4, 3, 2, 1, 0]);
    assert_eq!(rank(&bits(&[])), Vec::<u32>::new());
    assert_eq!(rank(&bits(&[-1.5])), vec![0]);
}

#[test]
fn rank_follows_the_total_order() {
    let x = [-0., 0., f32::NAN, f32::NEG_INFINITY, -f32::NAN, f32::INFINITY, -0., 1.];
    assert_eq!(rank(&bits(&x)), vec![2, 5, 7, 1, 0, 6, 3, 4]);
}

#[test]
fn rank_of_many_logits_is_a_sorted_permutation() {
    let x: Vec<f32> = (0..1000u32).map(|i| ((i * 7919) % 613) as f32 - 300.).collect();
    let order = rank(&bits(&x));
    let mut seen = vec![false; x.len()];
    for t in &order {
        assert!(!seen[*t as usize]);
        seen[*t as usize] = true;
    }
    assert_eq!(order.len(), x.len());
    for w in order.windows(2) {
        let (s, t) = (w[0] as usize, w[1] as usize);
        assert!(x[s] > x[t] || (x[s] == x[t] && s < t));
    }
}

#[test]
fn cumulate_adds_the_weights_along_the_ranking() {
    let x = bits(&[1., 3., 2.]);
    let cum = floats(&cumulate::<Hardware>(&x, &vec![1, 2, 0], b(1.)));
    let second = 1. + (-1f32).exp();
    let third = second + (-2f32).exp();
    assert_eq!(cum, vec![1., second, third]);
    assert!((cum[1] - 1.3678794).abs() < 1e-6);
    assert!((cum[2] - 1.5032147).abs() < 1e-6);
}

#[test]
fn cumulate_divides_by_the_temperature() {
    let x = bits(&[4., 2.]);
    let cum = floats(&cumulate::<Hardware>(&x, &vec![0, 1], b(0.5)));
    assert_eq!(cum, vec![1., 1. + (-4f32).exp()]);
    assert!(cumulate::<Hardware>(&bits(&[]), &vec![], b(1.)).is_empty());
}

#[test]
fn threshold_is_the_draw_times_the_smaller_mass() {
    let cum = bits(&[1., 1.5, 1.75, 2.]);
    assert_eq!(f(threshold::<Hardware>(&cum, b(1.), 2, b(0.5))), 0.75);
    assert_eq!(f(threshold::<Hardware>(&cum, b(0.5), 2, b(0.5))), 0.5);
    assert_eq!(f(threshold::<Hardware>(&cum, b(1.), 9, b(0.25))), 0.5);
    assert_eq!(f(threshold::<Hardware>(&cum, b(1.), 4, b(0.25))), 0.5);
    assert_eq!(f(threshold::<Hardware>(&cum, b(1.), 1, b(0.25))), 0.25);
    assert_eq!(f(threshold::<Hardware>(&cum, b(0.6), 3, b(1.))), 2. * 0.6);
}

#[test]
fn select_takes_the_first_that_reaches() {
    let order = vec![7, 3, 5];
    let cum = bits(&[1., 1.5, 1.75]);
    assert_eq!(select(&order, &cum, b(0.)), Some(7));
    assert_eq!(select(&order, &cum, b(1.)), Some(7));
    assert_eq!(select(&order, &cum, b(1.25)), Some(3));
    assert_eq!(select(&order, &cum, b(1.5)), Some(3));
    assert_eq!(select(&order, &cum, b(1.75)), Some(5));
    assert_eq!(select(&order, &cum, b(2.)), None);
    assert_eq!(select(&order, &cum, b(f32::NAN)), None);
    assert_eq!(select(&vec![], &vec![], b(0.)), None);
}

#[test]
fn sample_with_draw_walks_the_table() {
    let x = bits(&[1., 3., 2.]);
    assert_eq!(sample_with_draw::<Hardware>(&x, b(1.), 3, b(1.), b(0.)), Some(1));
    assert_eq!(sample_with_draw::<Hardware>(&x, b(1.), 3, b(1.), b(0.6)), Some(1));
    assert_eq!(sample_with_draw::<Hardware>(&x, b(1.), 3, b(1.), b(0.7)), Some(2));
    assert_eq!(sample_with_draw::<Hardware>(&x, b(1.), 3, b(1.), b(0.9)), Some(2));
    assert_eq!(sample_with_draw::<Hardware>(&x, b(1.), 3, b(1.), b(0.95)), Some(0));
    assert_eq!(sample_with_draw::<Hardware>(&x, b(1.), 2, b(1.), b(0.95)), Some(2));
    assert_eq!(sample_with_draw::<Hardware>(&x, b(0.5), 3, b(1.), b(0.95)), Some(1));
}

#[test]
fn sample_with_draw_finds_nothing_behind_a_nan() {
    let x = bits(&[1., f32::NAN, 2.]);
    assert_eq!(sample_with_draw::<Hardware>(&x, b(1.), 3, b(1.), b(0.5)), None);
    let y = bits(&[1., 2.]);
    assert_eq!(sample_with_draw::<Hardware>(&y, b(1.), 2, b(f32::NAN), b(0.5)), None);
}

#[test]
fn random_sample_is_greedy_at_temperature_zero() {
    let x = logits(&[0.5, 2.5, -1., 2.5, 0.]);
    for top_k in [0u32, 1, 2, 5, 1000] {
        for top_p in [0f32, 0.1, 0.9, 1.] {
            let r = random_sample::<Hardware, _>(&x, b(top_p), top_k, b(0.), || {
                panic!("no draw is needed")
            });
            assert_eq!(r, Some(1), "top_k {top_k}, top_p {top_p}");
        }
    }
}

#[test]
fn random_sample_is_greedy_without_a_choice() {
    let x = logits(&[0.5, 2.5, 3.5]);
    let never = || -> Binary32 { panic!("no draw is needed") };
    assert_eq!(random_sample::<Hardware, _>(&x, b(0.9), 1, b(1.), never), Some(2));
    let never = || -> Binary32 { panic!("no draw is needed") };
    assert_eq!(random_sample::<Hardware, _>(&x, b(0.), 3, b(1.), never), Some(2));
    let never = || -> Binary32 { panic!("no draw is needed") };
    assert_eq!(random_sample::<Hardware, _>(&x, b(0.9), 3, b(-2.), never), Some(2));
    let with_nan = logits(&[0.5, f32::NAN]);
    let never = || -> Binary32 { panic!("no draw is needed") };
    assert_eq!(random_sample::<Hardware, _>(&with_nan, b(0.9), 3, b(0.), never), None);
}

#[test]
fn random_sample_draws_once_when_it_samples() {
    let x = logits(&[1., 3., 2.]);
    let mut calls = 0;
    let r = random_sample::<Hardware, _>(&x, b(1.), 3, b(1.), || {
        calls += 1;
        b(0.7)
    });
    assert_eq!(r, Some(2));
    assert_eq!(calls, 1);
}

#[test]
fn random_sample_stays_within_top_k() {
    let x = logits(&[0.1, 2., 1.9, -3., 1.5, 0.7, 1.95]);
    for top_k in 2u32..=7 {
        let allowed: Vec<u32> = vec![1, 6, 2, 4, 5, 0, 3][..top_k as usize].to_vec();
        let mut seen = vec![false; 7];
        for u in draws(2000) {
            let r = random_sample::<Hardware, _>(&x, b(1.), top_k, b(1.), || b(u)).unwrap();
            assert!(allowed.contains(&r), "token {r} with top_k {top_k} and draw {u}");
            seen[r as usize] = true;
        }
        for t in &allowed {
            assert!(seen[*t as usize], "token {t} never drawn with top_k {top_k}");
        }
    }
}

#[test]
fn random_sample_stays_within_the_nucleus() {
    let x = [0.1f32, 2., 1.9, -3., 1.5, 0.7, 1.95];
    let order = [1usize, 6, 2, 4, 5, 0, 3];
    let weights: Vec<f32> = order.iter().map(|t| (x[*t] - 2.).exp()).collect();
    let total: f32 = weights.iter().sum();
    for top_p in [0.05f32, 0.3, 0.5, 0.8, 0.99, 1.] {
        let mut mass = 0.;
        let mut nucleus = Vec::new();
        for (p, t) in order.iter().enumerate() {
            nucleus.push(*t as u32);
            mass += weights[p];
            if mass >= top_p * total {
                break;
            }
        }
        for u in draws(2000) {
            let r = random_sample::<Hardware, _>(&logits(&x), b(top_p), 7, b(1.), || b(u));
            let r = r.unwrap();
            assert!(nucleus.contains(&r), "token {r} with top_p {top_p} and draw {u}");
        }
    }
}

#[test]
fn random_sample_follows_the_weights() {
    let x = logits(&[0., 2f32.ln(), 0.]);
    let mut counts = [0u32; 3];
    for u in draws(4000) {
        let r = random_sample::<Hardware, _>(&x, b(1.), 3, b(1.), || b(u)).unwrap();
        counts[r as usize] += 1;
    }
    assert!((counts[1] as i64 - 2000).abs() <= 2, "{counts:?}");
    assert!((counts[0] as i64 - 1000).abs() <= 2, "{counts:?}");
    assert!((counts[2] as i64 - 1000).abs() <= 2, "{counts:?}");
}

#[test]
fn random_sample_sharpens_with_a_low_temperature() {
    let x = logits(&[1., 1.5, 0.5]);
    let mut cold = [0u32; 3];
    let mut warm = [0u32; 3];
    for u in draws(1000) {
        cold[random_sample::<Hardware, _>(&x, b(1.), 3, b(0.05), || b(u)).unwrap() as usize] += 1;
        warm[random_sample::<Hardware, _>(&x, b(1.), 3, b(5.), || b(u)).unwrap() as usize] += 1;
    }
    assert!(cold[1] > 990, "{cold:?}");
    assert!(warm[1] < 450 && warm[0] > 250 && warm[2] > 250, "{warm:?}");
}
