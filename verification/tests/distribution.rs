use std::fmt::Debug;

use categorical::binary64::greater;
use categorical::{is_valid_prob_mass, Categorical, StatsError};
use rand::{Rng, SeedableRng, StdRng};

fn bits(xs: &[f64]) -> Vec<u64> {
    xs.iter().map(|x| x.to_bits()).collect()
}

fn numbers(bits: &[u64]) -> Vec<f64> {
    bits.iter().map(|&b| f64::from_bits(b)).collect()
}

fn try_create(prob_mass: &[f64]) -> Categorical {
    let n = Categorical::new(&bits(prob_mass));
    assert!(n.is_ok());
    n.unwrap()
}

fn create_case(prob_mass: &[f64]) {
    try_create(prob_mass);
}

fn bad_create_case(prob_mass: &[f64]) {
    let n = Categorical::new(&bits(prob_mass));
    assert!(n.is_err());
}

fn test_case<T, F>(prob_mass: &[f64], expected: T, eval: F)
where
    T: PartialEq + Debug,
    F: Fn(Categorical) -> T,
{
    let n = try_create(prob_mass);
    let x = eval(n);
    assert_eq!(expected, x);
}

fn mean(n: &Categorical) -> f64 {
    f64::from_bits(n.mean())
}

/// The distribution function, refusing a point outside its domain.
fn cdf(n: &Categorical, x: f64) -> f64 {
    assert!(n.admits(x.to_bits()));
    f64::from_bits(n.cdf(x.to_bits()))
}

/// The same distribution, computed with the machine's arithmetic.
struct Machine {
    norm_pmf: Vec<f64>,
    cdf: Vec<f64>,
}

impl Machine {
    fn new(prob_mass: &[f64]) -> Machine {
        let mut cdf = vec![0.0; prob_mass.len()];
        cdf[0] = prob_mass[0];
        for i in 1..prob_mass.len() {
            cdf[i] = cdf[i - 1] + prob_mass[i];
        }
        let sum = cdf[cdf.len() - 1];
        let norm_pmf = prob_mass.iter().map(|x| x / sum).collect();
        Machine { norm_pmf, cdf }
    }

    fn sample(&self, uniform: f64) -> usize {
        let draw = uniform * self.cdf[self.cdf.len() - 1];
        let mut idx = 0;
        if draw == 0.0 {
            while self.cdf[idx] == 0.0 {
                idx += 1;
            }
        }
        while draw > self.cdf[idx] {
            idx += 1;
        }
        idx
    }

    fn cdf(&self, x: f64) -> f64 {
        if x == self.cdf.len() as f64 {
            1.0
        } else {
            self.cdf[x as usize] / self.cdf[self.cdf.len() - 1]
        }
    }

    fn mean(&self) -> f64 {
        self.norm_pmf
            .iter()
            .enumerate()
            .fold(0.0, |acc, (idx, &val)| acc + idx as f64 * val)
    }
}

fn random_weights(rng: &mut StdRng) -> Vec<f64> {
    let k = 1 + (rng.next_u64() % 12) as usize;
    let kind = rng.next_u64() % 4;
    let mut w: Vec<f64> = (0..k)
        .map(|_| {
            let u = rng.next_f64();
            match (kind, rng.next_u64() % 4) {
                (_, 0) => 0.0,
                (0, _) => u,
                (1, _) => (u * 20.0).floor(),
                (2, _) => u * 10f64.powi((rng.next_u64() % 40) as i32 - 20),
                _ => f64::from_bits(rng.next_u64() >> 2),
            }
        })
        .collect();
    if w.iter().all(|&x| x == 0.0) {
        w[k - 1] = 1.0 + rng.next_f64();
    }
    w
}

#[test]
fn test_is_valid_prob_mass() {
    let invalid = [1.0, f64::NAN, 3.0];
    assert!(!is_valid_prob_mass(&bits(&invalid)));
    let invalid2 = [-2.0, 5.0, 1.0, 6.2];
    assert!(!is_valid_prob_mass(&bits(&invalid2)));
    let invalid3 = [0.0, 0.0, 0.0];
    assert!(!is_valid_prob_mass(&bits(&invalid3)));
    let invalid4: [f64; 0] = [];
    assert!(!is_valid_prob_mass(&bits(&invalid4)));
    let valid = [5.2, 0.00001, 1e-15, 1000000.12];
    assert!(is_valid_prob_mass(&bits(&valid)));
}

#[test]
fn test_create() {
    create_case(&[1.0, 2.0, 3.0, 4.0, 5.0, 6.0, 7.0, 8.0, 9.0]);
}

#[test]
fn test_bad_create() {
    bad_create_case(&[-1.0, 1.0]);
    bad_create_case(&[0.0, 0.0]);
}

#[test]
fn test_mean() {
    test_case(&[0.0, 0.25, 0.5, 0.25], 2.0, |x| mean(&x));
    test_case(&[0.0, 1.0, 2.0, 1.0], 2.0, |x| mean(&x));
    test_case(&[0.0, 0.5, 0.5], 1.5, |x| mean(&x));
    test_case(&[0.75, 0.25], 0.25, |x| mean(&x));
    test_case(&[1.0, 1.0, 1.0, 1.0, 1.0, 1.0, 1.0, 1.0, 1.0, 1.0, 1.0], 5.0, |x| mean(&x));
}

#[test]
fn test_min_max() {
    test_case(&[4.0, 2.5, 2.5, 1.0], 0, |x| x.min());
    test_case(&[4.0, 2.5, 2.5, 1.0], 3, |x| x.max());
}

#[test]
fn test_cdf() {
    test_case(&[0.0, 3.0, 1.0, 1.0], 3.0 / 5.0, |x| cdf(&x, 1.5));
    test_case(&[1.0, 1.0, 1.0, 1.0], 0.25, |x| cdf(&x, 0.0));
    test_case(&[4.0, 2.5, 2.5, 1.0], 0.4, |x| cdf(&x, 0.8));
    test_case(&[4.0, 2.5, 2.5, 1.0], 1.0, |x| cdf(&x, 3.2));
    test_case(&[4.0, 2.5, 2.5, 1.0], 1.0, |x| cdf(&x, 4.0));
}

#[test]
#[should_panic]
fn test_cdf_input_low() {
    test_case(&[4.0, 2.5, 2.5, 1.0], 1.0, |x| cdf(&x, -1.0));
}

#[test]
#[should_panic]
fn test_cdf_input_high() {
    test_case(&[4.0, 2.5, 2.5, 1.0], 1.0, |x| cdf(&x, 4.5));
}

#[test]
fn create_reports_bad_params() {
    let err = |w: &[f64]| Categorical::new(&bits(w)).unwrap_err();
    assert_eq!(err(&[]), StatsError::BadParams);
    assert_eq!(err(&[1.0, -0.5]), StatsError::BadParams);
    assert_eq!(err(&[1.0, f64::NAN]), StatsError::BadParams);
    assert_eq!(err(&[0.0, 0.0, 0.0]), StatsError::BadParams);
    assert_eq!(err(&[-0.0, 0.0]), StatsError::BadParams);
    assert_eq!(err(&[f64::NEG_INFINITY, 1.0]), StatsError::BadParams);
    assert_eq!(err(&[1.0, -5e-324]), StatsError::BadParams);
}

#[test]
fn create_accepts_what_is_at_or_above_zero() {
    create_case(&[5.2, 0.00001, 1e-15, 1000000.12]);
    create_case(&[-0.0, 1.0]);
    create_case(&[0.0, 5e-324]);
    create_case(&[1e308, 1e308, 1e308]);
    create_case(&[1.0, f64::INFINITY]);
    create_case(&[3.0]);
}

#[test]
fn create_sums_from_the_left_and_divides_by_the_sum() {
    let n = try_create(&[4.0, 2.5, 2.5, 1.0]);
    assert_eq!(numbers(n.totals()), vec![4.0, 6.5, 9.0, 10.0]);
    assert_eq!(numbers(n.norm_pmf()), vec![0.4, 0.25, 0.25, 0.1]);
    assert_eq!(f64::from_bits(n.cdf_max()), 10.0);
    let m = try_create(&[0.1, 0.2, 0.3]);
    assert_eq!(numbers(m.totals()), vec![0.1, 0.30000000000000004, 0.6000000000000001]);
    assert_eq!(
        numbers(m.norm_pmf()),
        vec![0.16666666666666666, 0.3333333333333333, 0.4999999999999999]
    );
    // the order of the weights is the order of the sums
    let a = try_create(&[1e16, 1.0, 1.0]);
    let b = try_create(&[1.0, 1.0, 1e16]);
    assert_eq!(f64::from_bits(a.cdf_max()), 1e16);
    assert_eq!(f64::from_bits(b.cdf_max()), 10000000000000002.0);
}

#[test]
fn masses_sum_to_one() {
    let seed: &[usize] = &[3, 1, 4, 1, 5];
    let mut rng: StdRng = SeedableRng::from_seed(seed);
    for _ in 0..300 {
        let w: Vec<f64> = (0..1 + rng.next_u64() % 30).map(|_| rng.next_f64() * 100.0).collect();
        if w.iter().all(|&x| x == 0.0) {
            continue;
        }
        let n = try_create(&w);
        let sum: f64 = numbers(n.norm_pmf()).iter().sum();
        assert!((sum - 1.0).abs() < 1e-14, "{:?}", w);
    }
}

#[test]
fn every_result_is_that_of_the_machine() {
    let seed: &[usize] = &[2, 7, 1, 8];
    let mut rng: StdRng = SeedableRng::from_seed(seed);
    for _ in 0..3000 {
        let w = random_weights(&mut rng);
        let n = try_create(&w);
        let r = Machine::new(&w);
        assert_eq!(n.totals(), &bits(&r.cdf), "{:?}", w);
        for (mass, expected) in n.norm_pmf().iter().zip(r.norm_pmf.iter()) {
            assert!(
                *mass == expected.to_bits() || (expected.is_nan() && f64::from_bits(*mass).is_nan()),
                "{:?}",
                w
            );
        }
        let (m, e) = (mean(&n), r.mean());
        assert!(m.to_bits() == e.to_bits() || (m.is_nan() && e.is_nan()), "{:?}", w);
        for _ in 0..20 {
            let uniform = if rng.next_u64() % 8 == 0 { 0.0 } else { rng.next_f64() };
            assert_eq!(n.sample(uniform.to_bits()), r.sample(uniform), "{:?} {}", w, uniform);
            let x = rng.next_f64() * w.len() as f64;
            let x = if rng.next_u64() % 4 == 0 { x.floor() } else { x };
            let (c, e) = (cdf(&n, x), r.cdf(x));
            assert!(c.to_bits() == e.to_bits() || (c.is_nan() && e.is_nan()), "{:?} {}", w, x);
        }
        assert_eq!(cdf(&n, w.len() as f64), 1.0);
    }
}

#[test]
fn sample_scales_the_draw_by_the_sum() {
    let n = try_create(&[1.0, 2.0, 3.0]);
    let at = |uniform: f64| n.sample(uniform.to_bits());
    assert_eq!(at(0.0), 0);
    assert_eq!(at(0.1), 0);
    assert_eq!(at(1.0 / 6.0), 0);
    assert_eq!(at(0.16666666666666669), 0);
    assert_eq!(at(0.1666666666666667), 1);
    assert_eq!(at(0.25), 1);
    assert_eq!(at(0.5), 1);
    assert_eq!(at(0.5000000000000001), 2);
    assert_eq!(at(0.9999999999999999), 2);
}

#[test]
fn locate_finds_the_first_total_not_exceeded() {
    let n = try_create(&[1.0, 2.0, 3.0]);
    let at = |draw: f64| n.locate(draw.to_bits());
    assert_eq!(at(0.5), 0);
    assert_eq!(at(1.0), 0);
    assert_eq!(at(1.0000000000000002), 1);
    assert_eq!(at(1.5), 1);
    assert_eq!(at(3.0), 1);
    assert_eq!(at(3.0000000000000004), 2);
    assert_eq!(at(5.999), 2);
    assert_eq!(at(6.0), 2);
    assert_eq!(at(5e-324), 0);
}

#[test]
fn a_zero_draw_skips_leading_zero_weights() {
    let n = try_create(&[0.0, 0.0, 1.0, 0.0, 2.0]);
    assert_eq!(n.sample(0.0f64.to_bits()), 2);
    assert_eq!(n.sample((-0.0f64).to_bits()), 2);
    assert_eq!(n.locate(0.0f64.to_bits()), 2);
    assert_eq!(n.locate((-0.0f64).to_bits()), 2);
    let m = try_create(&[-0.0, 0.0, 0.5]);
    assert_eq!(m.sample(0.0f64.to_bits()), 2);
    let first = try_create(&[2.0, 0.0]);
    assert_eq!(first.sample(0.0f64.to_bits()), 0);
}

#[test]
fn a_draw_never_lands_on_a_zero_weight() {
    let w = [0.0, 0.0, 1.5, 0.0, 2.0, 0.0, 0.25, 0.0];
    let n = try_create(&w);
    let seed: &[usize] = &[17, 4, 2029, 6];
    let mut rng: StdRng = SeedableRng::from_seed(seed);
    let mut seen = vec![0usize; w.len()];
    for i in 0..20000 {
        let uniform = if i % 1000 == 0 { 0.0 } else { rng.next_f64() };
        assert!(greater(1.0f64.to_bits(), uniform.to_bits()));
        let idx = n.sample(uniform.to_bits());
        assert!(w[idx] > 0.0, "landed on {}", idx);
        seen[idx] += 1;
    }
    assert!(seen[2] > 0 && seen[4] > 0 && seen[6] > 0);
    // on the boundaries between outcomes
    for &draw in &[0.0, 1.5, 3.5, 3.75] {
        assert!(w[n.locate(f64::to_bits(draw))] > 0.0);
    }
}

#[test]
fn outcomes_are_drawn_as_often_as_they_weigh() {
    let n = try_create(&[1.0, 0.0, 3.0, 4.0]);
    let seed: &[usize] = &[8, 6, 7, 5, 3, 0, 9];
    let mut rng: StdRng = SeedableRng::from_seed(seed);
    let mut seen = [0u32; 4];
    for _ in 0..80000 {
        seen[n.sample(rng.next_f64().to_bits())] += 1;
    }
    assert!(seen[0] > 9500 && seen[0] < 10500);
    assert_eq!(seen[1], 0);
    assert!(seen[2] > 29000 && seen[2] < 31000);
    assert!(seen[3] > 39000 && seen[3] < 41000);
}

#[test]
fn a_zero_draw_from_an_infinite_sum_lands_on_the_first_outcome() {
    let n = try_create(&[0.0, 1e308, 1e308]);
    assert!(f64::from_bits(n.cdf_max()).is_infinite());
    assert_eq!(n.sample(0.0f64.to_bits()), 0);
    assert_eq!(n.sample(0.5f64.to_bits()), 2);
    assert_eq!(n.locate(f64::NAN.to_bits()), 0);
    assert_eq!(n.locate((-1.0f64).to_bits()), 0);
}

#[test]
fn cdf_reads_the_total_at_the_whole_part() {
    let n = try_create(&[4.0, 2.5, 2.5, 1.0]);
    assert_eq!(cdf(&n, 0.0), 0.4);
    assert_eq!(cdf(&n, -0.0), 0.4);
    assert_eq!(cdf(&n, 0.8), 0.4);
    assert_eq!(cdf(&n, 1.0), 0.65);
    assert_eq!(cdf(&n, 1.9999999999999998), 0.65);
    assert_eq!(cdf(&n, 2.0), 0.9);
    assert_eq!(cdf(&n, 3.2), 1.0);
    assert_eq!(cdf(&n, 3.9999999999999996), 1.0);
    assert_eq!(cdf(&n, 4.0), 1.0);
}

#[test]
fn cdf_is_defined_from_zero_to_the_number_of_outcomes() {
    let n = try_create(&[4.0, 2.5, 2.5, 1.0]);
    for &x in &[0.0, -0.0, 5e-324, 0.8, 1.0, 3.2, 3.9999999999999996, 4.0] {
        assert!(n.admits(f64::to_bits(x)), "{}", x);
    }
    for &x in &[-1.0, -5e-324, 4.000000000000001, 4.5, 1e300, f64::INFINITY, f64::NAN] {
        assert!(!n.admits(f64::to_bits(x)), "{}", x);
    }
}

#[test]
fn cdf_never_falls() {
    let n = try_create(&[0.5, 0.0, 3.0, 1e-3, 2.0]);
    let mut last = 0.0;
    let mut i = 0;
    while i <= 500 {
        let x = f64::from(i) / 100.0;
        let y = cdf(&n, x);
        assert!(y >= last && y <= 1.0);
        assert_eq!(y, cdf(&n, x.floor()));
        last = y;
        i += 1;
    }
    assert_eq!(cdf(&n, 5.0), 1.0);
}

#[test]
fn min_and_max_bound_the_outcomes() {
    for k in 1..30 {
        let n = try_create(&vec![0.5; k]);
        assert_eq!(n.min(), 0);
        assert_eq!(n.max(), k as u64 - 1);
    }
}

#[test]
fn mean_does_not_change_with_the_scale_of_the_weights() {
    let w = [1.0, 2.0, 3.0, 4.0, 5.0, 6.0, 7.0, 8.0, 9.0];
    let base = mean(&try_create(&w));
    assert!((base - 5.333333333333333).abs() < 1e-12);
    for &scale in &[0.5, 2.0, 10.0, 1e-3, 12345.0] {
        let scaled: Vec<f64> = w.iter().map(|x| x * scale).collect();
        assert!((mean(&try_create(&scaled)) - base).abs() < 1e-12);
    }
}

#[test]
fn a_clone_is_the_same_distribution() {
    let n = try_create(&[4.0, 2.5, 2.5, 1.0]);
    let m = n.clone();
    assert_eq!(m.norm_pmf(), n.norm_pmf());
    assert_eq!(m.totals(), n.totals());
    assert_eq!(m.max(), 3);
    assert_eq!(m.mean(), n.mean());
    assert_eq!(m.cdf(1.5f64.to_bits()), n.cdf(1.5f64.to_bits()));
    assert_eq!(m.sample(0.5f64.to_bits()), n.sample(0.5f64.to_bits()));
}
