use kime::round::{largest_remainder as units_of, scale, Scaled};

fn largest_remainder(p: &[f64], digits: u32) -> Vec<u64> {
    let total: f64 = p.iter().sum();
    let whole = scale(digits);
    let scaled: Vec<Scaled> = p
        .iter()
        .map(|x| {
            let v = x / total * whole as f64;
            let f = v.floor();
            Scaled { floor: f as u64, rest: (v - f).to_bits(), value: v.to_bits() }
        })
        .collect();
    units_of(&scaled, digits)
}

fn round_distribution(p: &[f64], digits: u32) -> Vec<f64> {
    let whole = scale(digits) as f64;
    largest_remainder(p, digits).into_iter().map(|u| u as f64 / whole).collect()
}

#[test]
fn the_worked_example_is_already_exact() {
    assert_eq!(largest_remainder(&[0.91, 0.02, 0.03, 0.04], 2), vec![91, 2, 3, 4]);
}

#[test]
fn thirds_sum_to_one() {
    let units = largest_remainder(&[1.0 / 3.0; 3], 2);
    assert_eq!(units.iter().sum::<u64>(), 100);
    assert_eq!(units, vec![34, 33, 33]);
}

#[test]
fn many_small_values_still_sum_to_one() {
    for k in [7, 32, 255] {
        for digits in 0..=6 {
            let p = vec![1.0 / k as f64; k];
            let units = largest_remainder(&p, digits);
            assert_eq!(units.iter().sum::<u64>(), 10u64.pow(digits), "k={k} digits={digits}");
        }
    }
}

#[test]
fn the_argmax_survives_rounding() {
    let p = [0.3349, 0.3351, 0.33];
    let units = largest_remainder(&p, 2);
    assert_eq!(units.iter().sum::<u64>(), 100);
    let top = units.iter().enumerate().max_by_key(|&(i, u)| (*u, std::cmp::Reverse(i))).unwrap();
    assert_eq!(top.0, 1);
}

#[test]
fn an_unnormalized_softmax_is_renormalized() {
    let units = largest_remainder(&[0.4999999, 0.4999999], 2);
    assert_eq!(units, vec![50, 50]);
}

#[test]
fn floats_come_back_on_the_grid() {
    let v = round_distribution(&[0.123456, 0.876544], 3);
    assert_eq!(v, vec![0.123, 0.877]);
}

#[test]
fn a_tie_of_rests_goes_to_the_larger_value() {
    // Both lose half a unit, and the second is larger.
    let units = largest_remainder(&[0.125, 0.875], 2);
    assert_eq!(units, vec![12, 88]);
    assert_eq!(scale(6), 1_000_000);
}
