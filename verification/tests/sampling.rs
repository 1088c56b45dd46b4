use transformer::generation::penalized_ids;
use transformer::float_order::{is_at_least, is_less, is_not_a_number, key_of};
use transformer::sampling::{draw_place, greedy, nucleus_size, ranked, top_k};

fn bits(values: &[f32]) -> Vec<u32> {
    values.iter().map(|v| v.to_bits()).collect()
}

#[test]
fn keys_order_floats() {
    let values = [
        f32::NEG_INFINITY,
        f32::MIN,
        -1.5,
        -1.0,
        -f32::MIN_POSITIVE,
        -0.0,
        0.0,
        f32::MIN_POSITIVE,
        1.0,
        1.5,
        f32::MAX,
        f32::INFINITY,
    ];
    for a in values {
        for b in values {
            assert_eq!(
                key_of(a.to_bits()).cmp(&key_of(b.to_bits())),
                a.partial_cmp(&b).unwrap()
            );
        }
    }
    for a in values {
        for b in values {
            assert_eq!(is_less(a.to_bits(), b.to_bits()), a < b);
            assert_eq!(is_at_least(a.to_bits(), b.to_bits()), a >= b);
        }
        assert!(!is_less(a.to_bits(), f32::NAN.to_bits()));
        assert!(!is_at_least(f32::NAN.to_bits(), a.to_bits()));
        assert!(!is_not_a_number(a.to_bits()));
    }
    assert!(is_not_a_number(f32::NAN.to_bits()) && is_not_a_number((-f32::NAN).to_bits()));
    assert_eq!(key_of((1.0f32).to_bits()), 0x3f80_0000);
    assert_eq!(key_of((-1.0f32).to_bits()), -0x3f80_0000);
}

#[test]
fn tokens_are_ranked_as_a_stable_sort_does() {
    let values: Vec<f32> = (0..500).map(|i| ((i * 37) % 101) as f32 / 7.0 - 5.0).collect();
    let mut expected: Vec<usize> = (0..values.len()).collect();
    expected.sort_by(|&a, &b| values[b].partial_cmp(&values[a]).unwrap());
    assert_eq!(ranked(&bits(&values)), expected);
    assert_eq!(top_k(&bits(&values), 5), expected[..5].to_vec());
    assert_eq!(top_k(&bits(&values), 1000), expected);
    assert!(ranked(&[]).is_empty());
}

#[test]
fn equal_scores_keep_the_order_of_ids() {
    assert_eq!(ranked(&bits(&[1.0, 2.0, 1.0, 2.0, 0.0, -0.0])), vec![1, 3, 0, 2, 4, 5]);
}

#[test]
fn greedy_takes_the_last_of_the_highest() {
    assert_eq!(greedy(&bits(&[0.5, 3.0, -1.0])), 1);
    assert_eq!(greedy(&bits(&[2.0, 1.0, 2.0])), 2);
    assert_eq!(greedy(&bits(&[-3.0, -2.0, -4.0])), 1);
}

#[test]
fn a_penalty_applies_once_to_each_known_id() {
    let mut ids = penalized_ids(&[5, 2, 5, 9, 2, 0], 6);
    ids.sort();
    assert_eq!(ids, vec![0, 2, 5]);
    assert!(penalized_ids(&[], 6).is_empty());
}

#[test]
fn a_nucleus_reaches_the_share() {
    let sums = bits(&[0.5, 0.75, 0.875, 1.0]);
    let size = |p: f32| nucleus_size(&sums, p.to_bits());
    assert_eq!(size(0.0), 1);
    assert_eq!(size(0.5), 1);
    assert_eq!(size(0.6), 2);
    assert_eq!(size(0.75), 2);
    assert_eq!(size(1.0), 4);
    assert_eq!(size(2.0), 4);
    assert_eq!(nucleus_size(&[], 0), 0);
    assert_eq!(nucleus_size(&bits(&[f32::NAN, 0.5]), 0.25f32.to_bits()), 2);
}

fn softmax(logits: &[f32]) -> Vec<f32> {
    let max = logits.iter().cloned().fold(f32::NEG_INFINITY, f32::max);
    let exps: Vec<f32> = logits.iter().map(|&x| (x - max).exp()).collect();
    let sum: f32 = exps.iter().sum();
    exps.iter().map(|e| e / sum).collect()
}

/// The ids and probabilities of the candidates that a share of `p` keeps.
fn candidates(logits: &[f32], p: f32, temperature: f32) -> Vec<(usize, f32)> {
    let scaled: Vec<f32> = logits.iter().map(|&x| x / temperature).collect();
    let probs = softmax(&scaled);
    let order = ranked(&bits(&probs));
    let mut sums: Vec<f32> = Vec::new();
    let mut sum = 0.0f32;
    for &id in &order {
        sum += probs[id];
        sums.push(sum);
    }
    let kept = &order[..nucleus_size(&bits(&sums), p.to_bits())];
    let total: f32 = kept.iter().map(|&id| probs[id]).sum();
    kept.iter().map(|&id| (id, probs[id] / total)).collect()
}

#[test]
fn top_p_one_keeps_all_candidates() {
    let logits = vec![1.0, 2.0, 3.0, 4.0, 0.5];
    let kept = candidates(&logits, 1.0, 1.0);
    assert_eq!(kept.len(), logits.len());
    let sum: f32 = kept.iter().map(|&(_, p)| p).sum();
    assert!((sum - 1.0).abs() < 1e-5, "sum should be 1.0, got {sum}");
    let mut ids: Vec<usize> = kept.iter().map(|&(i, _)| i).collect();
    ids.sort();
    assert_eq!(ids, vec![0, 1, 2, 3, 4]);
}

#[test]
fn top_p_zero_keeps_top_one() {
    let logits = vec![1.0, 5.0, 2.0, 0.5];
    let kept = candidates(&logits, 0.0, 1.0);
    assert_eq!(kept.len(), 1);
    assert_eq!(kept[0].0, 1);
    assert!((kept[0].1 - 1.0).abs() < 1e-6);
}

#[test]
fn top_p_cutoff_is_inclusive_at_first_overshoot() {
    let probs = [0.5_f32, 0.3, 0.15, 0.05];
    let logits: Vec<f32> = probs.iter().map(|p| p.ln()).collect();
    let kept = candidates(&logits, 0.7, 1.0);
    assert_eq!(kept.len(), 2);
    let mut kept_ids: Vec<usize> = kept.iter().map(|&(i, _)| i).collect();
    kept_ids.sort();
    assert_eq!(kept_ids, vec![0, 1]);
    let sum: f32 = kept.iter().map(|&(_, p)| p).sum();
    assert!((sum - 1.0).abs() < 1e-5);
    let top = kept.iter().find(|&&(i, _)| i == 0).unwrap().1;
    let next = kept.iter().find(|&&(i, _)| i == 1).unwrap().1;
    assert!((top - 0.625).abs() < 1e-5);
    assert!((next - 0.375).abs() < 1e-5);
}

#[test]
fn top_p_temperature_affects_distribution_sharpness() {
    let logits = vec![1.0, 2.0, 3.0, 4.0, 5.0];
    let sharp = candidates(&logits, 0.9, 0.5);
    let flat = candidates(&logits, 0.9, 2.0);
    assert!(sharp.len() <= flat.len(), "sharp={} flat={}", sharp.len(), flat.len());
    assert_eq!(sharp[0].0, 4);
    assert_eq!(flat[0].0, 4);
}

#[test]
fn top_p_one_robust_to_float_error() {
    let logits = vec![0.0_f32; 100];
    let kept = candidates(&logits, 1.0, 1.0);
    assert_eq!(kept.len(), 100);
    let sum: f32 = kept.iter().map(|&(_, p)| p).sum();
    assert!((sum - 1.0).abs() < 1e-4);
}

#[test]
fn top_p_returns_unique_ids() {
    let logits = vec![1.0, 2.0, 3.0, 4.0, 5.0];
    let kept = candidates(&logits, 0.8, 1.0);
    let mut ids: Vec<usize> = kept.iter().map(|&(i, _)| i).collect();
    let before = ids.len();
    ids.sort();
    ids.dedup();
    assert_eq!(before, ids.len(), "ids must be unique");
}

#[test]
fn top_p_sample_returns_id_from_kept_set() {
    let logits = vec![1.0, 10.0, 2.0];
    let kept = candidates(&logits, 0.5, 1.0);
    let sums: Vec<f32> = kept
        .iter()
        .scan(0.0f32, |acc, &(_, p)| {
            *acc += p;
            Some(*acc)
        })
        .collect();
    for r in [0.0f32, 0.25, 0.5, 0.999] {
        assert_eq!(kept[draw_place(&bits(&sums), r.to_bits())].0, 1);
    }
}

#[test]
fn the_whole_share_keeps_what_a_full_sum_leaves() {
    assert_eq!(candidates(&[100.0, 0.0], 1.0, 1.0).len(), 2);
    assert_eq!(nucleus_size(&bits(&[1.0, 1.0, 1.0]), 1.0f32.to_bits()), 3);
    assert_eq!(nucleus_size(&bits(&[1.000001, 1.000002]), 1.0f32.to_bits()), 2);
    assert_eq!(nucleus_size(&bits(&[1.0, 1.0]), 0.999f32.to_bits()), 1);
}

#[test]
fn a_draw_falls_into_a_part() {
    let sums = bits(&[0.5, 0.75, 0.875]);
    let place = |r: f32| draw_place(&sums, r.to_bits());
    assert_eq!(place(0.0), 0);
    assert_eq!(place(0.49), 0);
    assert_eq!(place(0.5), 1);
    assert_eq!(place(0.8), 2);
    assert_eq!(place(0.9), 0);
}
