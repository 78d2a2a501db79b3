use gemma4_serving::sampling::{draw, nucleus, rank, SamplingConfig};
use std::collections::HashSet;

fn bits(logits: &[f32]) -> Vec<u32> {
    logits.iter().map(|value| value.to_bits()).collect()
}

fn banned(ids: &[usize]) -> HashSet<usize> {
    ids.iter().copied().collect()
}

#[test]
fn recommended_settings_are_exact() {
    let config = SamplingConfig::gemma_recommended();
    assert_eq!(f32::from_bits(config.temperature), 1.0);
    assert_eq!(config.top_k, 64);
    assert_eq!(f32::from_bits(config.top_p), 0.95);
}

#[test]
fn tokens_are_ranked_by_logit() {
    let logits = bits(&[0.5, -1.0, 3.0, -0.0, 0.0, f32::INFINITY, f32::NEG_INFINITY]);
    assert_eq!(rank(&logits, 0, &banned(&[])), vec![5, 2, 0, 4, 3, 1, 6]);
    assert_eq!(rank(&logits, 3, &banned(&[])), vec![5, 2, 0]);
}

#[test]
fn ranking_follows_the_total_order() {
    let values: Vec<f32> = (0..400).map(|i| ((i * 7919 % 401) as f32 - 200.0) / 8.0).collect();
    let mut expected: Vec<usize> = (0..values.len()).collect();
    expected.sort_by(|&a, &b| values[b].total_cmp(&values[a]));
    assert_eq!(rank(&bits(&values), 0, &banned(&[])), expected);
    assert_eq!(rank(&bits(&values), 10, &banned(&[])), expected[..10].to_vec());
}

#[test]
fn banned_tokens_are_passed_over() {
    let logits = bits(&[1.0, 9.0, 8.0, 7.0]);
    assert_eq!(rank(&logits, 2, &banned(&[1, 2])), vec![3, 0]);
    assert_eq!(rank(&logits, 0, &banned(&[1])), vec![2, 3, 0]);
}

#[test]
fn banning_everything_bans_nothing() {
    let logits = bits(&[1.0, 9.0]);
    assert_eq!(rank(&logits, 1, &banned(&[0, 1])), vec![1]);
}

#[test]
fn nucleus_ends_where_the_mass_suffices() {
    assert_eq!(nucleus(&vec![false, true, true]), 2);
    assert_eq!(nucleus(&vec![true]), 1);
    assert_eq!(nucleus(&vec![false, false]), 2);
}

#[test]
fn draw_takes_the_first_that_reaches_the_threshold() {
    let ranked = vec![40, 41, 42];
    assert_eq!(draw(&ranked, &vec![false, true, true]), 41);
    assert_eq!(draw(&ranked, &vec![true, true]), 40);
    assert_eq!(draw(&ranked, &vec![false, false]), 41);
}
