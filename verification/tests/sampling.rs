use z1::float::ONE;
use z1::sampling::{can_compare, divides, greedy, is_greedy, penalised, pick, top_k, top_p};

fn bits(values: &[f32]) -> Vec<u32> {
    values.iter().map(|v| v.to_bits()).collect()
}

#[test]
fn penalties_reach_the_last_tokens() {
    let recent = vec![1, 2, 3, 2, -1, 900, 0];
    let penalty = 1.1f32.to_bits();
    assert_eq!(penalised(&recent, 64, 10, penalty), vec![1, 2, 3, 2, 0]);
    assert_eq!(penalised(&recent, 4, 10, penalty), vec![2, 0]);
    assert_eq!(penalised(&recent, 0, 10, penalty), Vec::<usize>::new());
    assert_eq!(penalised(&recent, 64, 10, 1.0f32.to_bits()), Vec::<usize>::new());
    assert_eq!(ONE, 1.0f32.to_bits());
}

#[test]
fn zero_temperature_is_greedy() {
    assert!(is_greedy(0.0f32.to_bits()));
    assert!(is_greedy((-0.0f32).to_bits()));
    assert!(is_greedy((-1.0f32).to_bits()));
    assert!(!is_greedy(0.7f32.to_bits()));
    assert!(!is_greedy(f32::NAN.to_bits()));
}

#[test]
fn greedy_takes_the_last_of_the_likeliest() {
    assert_eq!(greedy(&bits(&[])), None);
    assert_eq!(greedy(&bits(&[f32::NAN])), Some(0));
    assert_eq!(greedy(&bits(&[-1.0, 3.0, 2.0, 3.0, -5.0])), Some(3));
    assert_eq!(greedy(&bits(&[0.0, -0.0])), Some(1));
    assert_eq!(greedy(&bits(&[-3.0, -2.0, -4.0])), Some(1));
}

#[test]
fn numbers_can_be_compared() {
    assert!(can_compare(&bits(&[])));
    assert!(can_compare(&bits(&[f32::NAN])));
    assert!(can_compare(&bits(&[1.0, f32::INFINITY])));
    assert!(!can_compare(&bits(&[1.0, f32::NAN])));
}

#[test]
fn top_k_keeps_the_likeliest_first() {
    let ps = bits(&[0.1, 0.4, 0.05, 0.4, 0.05]);
    assert_eq!(top_k(&ps, 3), vec![1, 3, 0]);
    assert_eq!(top_k(&ps, 0), Vec::<usize>::new());
    assert_eq!(top_k(&ps, 40), vec![1, 3, 0, 2, 4]);
    assert_eq!(top_k(&ps, -1), vec![1, 3, 0, 2, 4]);
}

#[test]
fn top_k_agrees_with_a_sort() {
    let mut seed: u64 = 12345;
    let mut values = Vec::new();
    for _ in 0..2000 {
        seed = seed.wrapping_mul(6364136223846793005).wrapping_add(1442695040888963407);
        values.push(((seed >> 40) as f32) / 65536.0 - 100.0);
    }
    let mut order: Vec<usize> = (0..values.len()).collect();
    order.sort_by(|a, b| values[*b].partial_cmp(&values[*a]).unwrap().then(a.cmp(b)));
    assert_eq!(top_k(&bits(&values), 100), order[..100].to_vec());
}

#[test]
fn top_p_stops_where_the_sum_reaches_it() {
    let sums = bits(&[0.5, 0.8, 0.9, 1.0]);
    assert_eq!(top_p(&sums, 0.9f32.to_bits()), 3);
    assert_eq!(top_p(&sums, 0.1f32.to_bits()), 1);
    assert_eq!(top_p(&sums, 1.5f32.to_bits()), 4);
    assert_eq!(top_p(&bits(&[]), 0.5f32.to_bits()), 0);
    assert_eq!(top_p(&bits(&[f32::NAN, f32::NAN]), 0.5f32.to_bits()), 2);
}

#[test]
fn a_number_picks_a_candidate() {
    let ids = vec![7, 3, 9];
    let sums = bits(&[0.5, 0.8, 0.99]);
    assert_eq!(pick(&ids, &sums, 0.0f32.to_bits()), 7);
    assert_eq!(pick(&ids, &sums, 0.5f32.to_bits()), 7);
    assert_eq!(pick(&ids, &sums, 0.6f32.to_bits()), 3);
    assert_eq!(pick(&ids, &sums, 0.999f32.to_bits()), 9);
}

#[test]
fn a_penalty_divides_what_is_above_zero() {
    for v in [1.0f32, 0.5, f32::MIN_POSITIVE, 1e-45, f32::INFINITY, f32::MAX] {
        assert!(divides(v.to_bits()));
        assert!(!divides((-v).to_bits()));
    }
    for v in [0.0f32, -0.0, f32::NAN, -f32::NAN] {
        assert!(!divides(v.to_bits()));
    }
    let mut seed: u64 = 7;
    for _ in 0..1000 {
        seed = seed.wrapping_mul(6364136223846793005).wrapping_add(1442695040888963407);
        let bits = (seed >> 32) as u32;
        assert_eq!(divides(bits), f32::from_bits(bits) > 0.0);
    }
}
