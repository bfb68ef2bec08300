//! Sampling: candidates, draws and verification.

use moe::sample::{Check, Rng, Sampler};

/// The candidates and their probabilities.
fn distribution(s: &Sampler, logits: &mut [f32], history: &[u32]) -> (Vec<u32>, Vec<f32>) {
    let penalty = f32::from_bits(s.repeat_penalty);
    for t in s.penalised(&history.to_vec()) {
        let l = &mut logits[t as usize];
        *l = if *l > 0.0 { *l / penalty } else { *l * penalty };
    }
    let bits: Vec<u32> = logits.iter().map(|v| v.to_bits()).collect();
    if s.is_greedy() {
        return (vec![s.best(&bits) as u32], vec![1.0]);
    }
    let temp = f32::from_bits(s.temp);
    let mut idx = s.candidates(&bits);
    let max = logits[idx[0] as usize];
    let mut probs: Vec<f32> = idx.iter().map(|i| ((logits[*i as usize] - max) / temp).exp()).collect();
    let z: f32 = probs.iter().sum();
    probs.iter_mut().for_each(|p| *p /= z);
    let cut = s.kept(&sums(&probs));
    idx.truncate(cut);
    probs.truncate(cut);
    let z: f32 = probs.iter().sum();
    probs.iter_mut().for_each(|p| *p /= z);
    (idx, probs)
}

fn sums(probs: &[f32]) -> Vec<u32> {
    let mut acc = 0.0f32;
    probs
        .iter()
        .map(|p| {
            acc += p;
            acc.to_bits()
        })
        .collect()
}

fn pick(s: &Sampler, logits: &mut [f32], history: &[u32], rng: &mut Rng) -> u32 {
    let (idx, probs) = distribution(s, logits, history);
    s.pick(&idx, &sums(&probs), rng)
}

fn verify(s: &Sampler, logits: &mut [f32], history: &[u32], guess: u32, rng: &mut Rng) -> Result<(), u32> {
    let (idx, probs) = distribution(s, logits, history);
    let bits = probs.iter().map(|p| p.to_bits()).collect();
    match s.verify(&idx, &bits, guess, rng) {
        Check::Keep => Ok(()),
        Check::Redraw(places) => {
            let z: f32 = places.iter().map(|k| probs[*k]).sum();
            if z <= 0.0 {
                return Ok(());
            }
            let ids: Vec<u32> = places.iter().map(|k| idx[*k]).collect();
            let ps: Vec<f32> = places.iter().map(|k| probs[*k] / z).collect();
            Err(s.pick(&ids, &sums(&ps), rng))
        }
    }
}

fn sampler(temp: f32, top_p: f32, top_k: usize) -> Sampler {
    Sampler { temp: temp.to_bits(), top_p: top_p.to_bits(), top_k, ..Sampler::default() }
}

#[test]
fn greedy_picks_argmax() {
    let s = Sampler::default();
    let mut rng = Rng::new(1);
    assert_eq!(pick(&s, &mut [0.1, 5.0, -2.0], &[], &mut rng), 1);
}

#[test]
fn temperature_zero_ignores_seed() {
    let s = Sampler::default();
    let mut logits = vec![1.0, 2.0, 3.0, 0.5];
    let a = pick(&s, &mut logits.clone(), &[], &mut Rng::new(7));
    let b = pick(&s, &mut logits, &[], &mut Rng::new(99));
    assert_eq!(a, b);
}

#[test]
fn top_k_one_is_greedy() {
    let s = sampler(1.0, 0.95, 1);
    let mut rng = Rng::new(3);
    assert_eq!(pick(&s, &mut [0.0, 0.2, 9.0], &[], &mut rng), 2);
}

#[test]
fn repeat_penalty_demotes_history() {
    let s = Sampler { repeat_penalty: 2.0f32.to_bits(), ..Sampler::default() };
    let mut rng = Rng::new(1);
    assert_eq!(pick(&s, &mut [3.0, 2.0], &[0], &mut rng), 1);
}

/// Greedily, a guess is accepted exactly when it is the argmax, which is
/// what makes speculative decoding bit-identical rather than merely close.
#[test]
fn greedy_verification_is_exactly_the_argmax() {
    let s = Sampler::default();
    let logits = [0.5f32, 9.0, -1.0];
    let mut rng = Rng::new(4);
    assert_eq!(verify(&s, &mut logits.clone(), &[], 1, &mut rng), Ok(()));
    assert_eq!(verify(&s, &mut logits.clone(), &[], 0, &mut rng), Err(1));
    assert_eq!(verify(&s, &mut logits.clone(), &[], 2, &mut rng), Err(1));
}

/// A token outside the truncated candidate set has probability zero, so it
/// can never be accepted: top-k must bind on verification as it does on
/// sampling, or speculation would smuggle tokens past the cutoff.
#[test]
fn truncation_binds_on_verification() {
    let s = sampler(1.0, 0.95, 1);
    let mut rng = Rng::new(9);
    assert_eq!(verify(&s, &mut [0.0, 0.2, 9.0], &[], 0, &mut rng), Err(2));
    assert_eq!(verify(&s, &mut [0.0, 0.2, 9.0], &[], 2, &mut rng), Ok(()));
}

/// The distribution of accepted-or-corrected tokens must match plain
/// sampling. Verified empirically over many draws.
#[test]
fn verification_preserves_the_sampled_distribution() {
    let s = sampler(1.0, 1.0, 0);
    let logits = [1.0f32, 2.0, 0.5, -0.5];
    let n: usize = 60_000;

    let mut direct = [0usize; 4];
    let mut rng = Rng::new(11);
    for _ in 0..n {
        direct[pick(&s, &mut logits.clone(), &[], &mut rng) as usize] += 1;
    }

    // Draft a fixed token every time, the worst case for a naive scheme,
    // which would over-represent whatever was guessed.
    for guess in 0..4u32 {
        let mut spec = [0usize; 4];
        let mut rng = Rng::new(11);
        for _ in 0..n {
            match verify(&s, &mut logits.clone(), &[], guess, &mut rng) {
                Ok(()) => spec[guess as usize] += 1,
                Err(t) => spec[t as usize] += 1,
            }
        }
        for i in 0..4 {
            let (a, b) = (direct[i] as f32 / n as f32, spec[i] as f32 / n as f32);
            assert!((a - b).abs() < 0.01, "guess {guess}, token {i}: {a:.3} direct vs {b:.3} speculative");
        }
    }
}

/// xorshift64*, checked against the formula in plain arithmetic.
#[test]
fn draws_are_fractions_of_the_generator() {
    let mut rng = Rng::new(42);
    let mut x = 42u64.wrapping_mul(0x9e37_79b9_7f4a_7c15) | 1;
    for _ in 0..1000 {
        x ^= x >> 12;
        x ^= x << 25;
        x ^= x >> 27;
        let want = ((x.wrapping_mul(0x2545_f491_4f6c_dd1d) >> 40) as f32) / (1u32 << 24) as f32;
        let got = f32::from_bits(rng.next_f32());
        assert_eq!(got, want);
        assert!((0.0..1.0).contains(&got));
    }
}

#[test]
fn candidates_are_ordered_and_cut() {
    let bits: Vec<u32> = [1.0f32, -3.0, 7.0, 1.0].iter().map(|v| v.to_bits()).collect();
    assert_eq!(sampler(1.0, 1.0, 0).candidates(&bits), vec![2, 0, 3, 1]);
    assert_eq!(sampler(1.0, 1.0, 2).candidates(&bits), vec![2, 0]);
    let s = sampler(1.0, 0.5, 0);
    let sums: Vec<u32> = [0.25f32, 0.5, 1.0].iter().map(|v| v.to_bits()).collect();
    assert_eq!(s.kept(&sums), 2);
    assert_eq!(sampler(1.0, 1.0, 0).kept(&sums), 3);
    assert_eq!(Sampler { repeat_penalty: 0, repeat_window: 2, ..s }.penalised(&vec![5, 6, 7]), vec![7, 6]);
    // Not a number is never greedy, and never best.
    assert!(!sampler(f32::NAN, 1.0, 0).is_greedy());
    let nan: Vec<u32> = [0.0f32, f32::NAN, 1.0].iter().map(|v| v.to_bits()).collect();
    assert_eq!(s.best(&nan), 2);
}
