use cellsim::brain::{Brain, Synapse, LAYER_COUNT, LAYER_SIZE};
use cellsim::fixed::{mul_fixed, sigmoid, ONE};

fn zero_synapses(count: usize) -> Vec<Synapse> {
    vec![Synapse { weight: 0, bias: 0 }; count]
}

fn to_real(v: i64) -> f64 {
    v as f64 / ONE as f64
}

#[test]
fn zero_parameters_give_zero_layers() {
    let brain = Brain::from_synapses(5, 3, zero_synapses(50)).unwrap();
    let input = vec![ONE / 2; 5];
    let layers = brain.compute_network(input.clone());
    assert_eq!(layers.len(), 3);
    assert_eq!(layers[0], input);
    assert_eq!(layers[1], vec![0; 5]);
    assert_eq!(layers[2], vec![0; 5]);
}

#[test]
fn single_connection_gives_inverse_root_two() {
    let brain = Brain::from_synapses(1, 2, vec![Synapse { weight: ONE, bias: 0 }]).unwrap();
    let layers = brain.compute_network(vec![ONE]);
    assert_eq!(layers.len(), 2);
    assert_eq!(layers[0], vec![ONE]);
    assert_eq!(layers[1], vec![46341]);
    assert!((to_real(layers[1][0]) - 0.70710678).abs() < 1e-6);
}

#[test]
fn sums_carry_over_between_layers() {
    // The second transition adds nothing, so its result is the bounded value
    // of the first layer's own activation.
    let synapses = vec![Synapse { weight: 0, bias: ONE }, Synapse { weight: 0, bias: 0 }];
    let brain = Brain::from_synapses(1, 3, synapses).unwrap();
    let layers = brain.compute_network(vec![0]);
    assert_eq!(layers[1], vec![46341]);
    assert_eq!(layers[2], vec![37837]);
    assert_eq!(layers[2][0], sigmoid(layers[1][0]));
}

#[test]
fn neuron_reads_only_its_own_index() {
    // Layer of two: neuron 0 owns connections 0 and 1, neuron 1 owns 2 and 3.
    let synapses = vec![
        Synapse { weight: ONE, bias: 0 },
        Synapse { weight: ONE, bias: 0 },
        Synapse { weight: 0, bias: 0 },
        Synapse { weight: 0, bias: 0 },
    ];
    let brain = Brain::from_synapses(2, 2, synapses).unwrap();
    let layers = brain.compute_network(vec![ONE / 2, ONE]);
    // Neuron 0 sums 0.5 twice; neuron 1 has only zero parameters.
    assert_eq!(layers[1], vec![sigmoid(ONE), 0]);
}

#[test]
fn evaluation_is_repeatable() {
    let brain = Brain::new();
    let input = vec![ONE / 2; LAYER_SIZE];
    let first = brain.compute_network(input.clone());
    let second = brain.compute_network(input);
    assert_eq!(first, second);
}

#[test]
fn output_has_every_layer_at_full_width() {
    let brain = Brain::new();
    let layers = brain.compute_network(vec![ONE / 2; LAYER_SIZE]);
    assert_eq!(layers.len(), LAYER_COUNT);
    for layer in &layers {
        assert_eq!(layer.len(), LAYER_SIZE);
    }
}

#[test]
fn first_layer_is_the_input() {
    let brain = Brain::new();
    let input = vec![3, -ONE, 0, i64::MAX, i64::MIN];
    let layers = brain.compute_network(input.clone());
    assert_eq!(layers[0], input);
}

#[test]
fn later_layers_stay_inside_the_open_unit_range() {
    let brain = Brain::random(4, 5);
    for input in [vec![i64::MAX; 4], vec![i64::MIN; 4], vec![0, ONE, -ONE, 12345]] {
        let layers = brain.compute_network(input);
        for layer in &layers[1..] {
            for &v in layer {
                assert!(-ONE < v && v < ONE);
            }
        }
    }
}

#[test]
fn large_inputs_saturate_before_bounding() {
    let synapses = vec![Synapse { weight: ONE, bias: ONE }; 9];
    let brain = Brain::from_synapses(3, 2, synapses).unwrap();
    let layers = brain.compute_network(vec![i64::MAX, i64::MIN, 0]);
    assert_eq!(layers[1], vec![65535, -65535, sigmoid(3 * ONE)]);
}

#[test]
fn bound_of_zero_is_zero() {
    assert_eq!(sigmoid(0), 0);
}

#[test]
fn bound_is_odd() {
    for x in [1, 7, ONE / 3, ONE, 5 * ONE, 1 << 40, i64::MAX] {
        assert_eq!(sigmoid(-x), -sigmoid(x));
    }
}

#[test]
fn bound_keeps_the_sign() {
    for x in [1, 2, 100, ONE / 3, ONE, 1 << 30, 1 << 40, i64::MAX] {
        assert!(sigmoid(x) > 0);
        assert!(sigmoid(-x) < 0);
    }
    assert!(sigmoid(i64::MIN) < 0);
}

#[test]
fn bound_is_monotone() {
    let mut prev = sigmoid(-20 * ONE);
    let mut x = -20 * ONE;
    while x <= 20 * ONE {
        let v = sigmoid(x);
        assert!(prev <= v);
        prev = v;
        x += 997;
    }
}

#[test]
fn bound_exact_values() {
    assert_eq!(sigmoid(ONE), 46341);
    assert_eq!(sigmoid(-ONE), -46341);
    assert_eq!(sigmoid(ONE / 2), 29309);
    assert_eq!(sigmoid(1), 1);
    assert_eq!(sigmoid(-1), -1);
    assert_eq!(sigmoid(i64::MAX), 65535);
    assert_eq!(sigmoid(i64::MIN), -65535);
    assert!((to_real(sigmoid(ONE / 2)) - 0.5 / 1.25f64.sqrt()).abs() < 1e-5);
    // Around the cap: from 2^25 on every value gives ONE - 1.
    assert_eq!(sigmoid(1 << 23), 65534);
    assert_eq!(sigmoid(1 << 25), 65535);
    assert_eq!(sigmoid((1 << 25) - 1), 65535);
    assert_eq!(sigmoid(-(1 << 25)), -65535);
}

#[test]
fn fixed_product_rounds_toward_zero() {
    assert_eq!(mul_fixed(ONE / 2, ONE / 2), (ONE / 4) as i128);
    assert_eq!(mul_fixed(-3, 1), 0);
    assert_eq!(mul_fixed(3 * ONE, -ONE), -(3 * ONE) as i128);
    assert_eq!(mul_fixed(-ONE - 1, ONE / 2), -(ONE / 2) as i128);
    assert_eq!(mul_fixed(i64::MIN, i64::MIN), 1i128 << 110);
}

#[test]
fn random_parameters_lie_in_unit_range() {
    let brain = Brain::new();
    assert_eq!(brain.layer_size(), LAYER_SIZE);
    assert_eq!(brain.layer_count(), LAYER_COUNT);
    let synapses = brain.synapses();
    assert_eq!(synapses.len(), LAYER_SIZE * LAYER_SIZE * (LAYER_COUNT - 1));
    for s in synapses {
        assert!(-ONE <= s.weight && s.weight <= ONE);
        assert!(-ONE <= s.bias && s.bias <= ONE);
    }
}

#[test]
fn random_parameters_vary() {
    let brain = Brain::random(5, 3);
    let synapses = brain.synapses();
    // Draws that always gave the lower end would leave every parameter at -1.0.
    assert!(synapses.iter().any(|s| s.weight != -ONE || s.bias != -ONE));
    assert!(synapses.iter().any(|s| s.weight != synapses[0].weight));
}

#[test]
fn single_layer_network_has_no_connections() {
    let brain = Brain::random(3, 1);
    assert!(brain.synapses().is_empty());
    let layers = brain.compute_network(vec![1, 2, 3]);
    assert_eq!(layers, vec![vec![1, 2, 3]]);
}

#[test]
fn from_synapses_rejects_zero_dimensions() {
    assert!(Brain::from_synapses(0, 3, vec![]).is_none());
    assert!(Brain::from_synapses(2, 0, vec![]).is_none());
}

#[test]
fn from_synapses_rejects_wrong_count() {
    assert!(Brain::from_synapses(5, 3, zero_synapses(49)).is_none());
    assert!(Brain::from_synapses(5, 3, zero_synapses(51)).is_none());
    assert!(Brain::from_synapses(usize::MAX, 3, vec![]).is_none());
}

#[test]
fn from_synapses_rejects_parameters_outside_unit_range() {
    let mut synapses = zero_synapses(8);
    synapses[5].bias = ONE + 1;
    assert!(Brain::from_synapses(2, 3, synapses.clone()).is_none());
    synapses[5].bias = -ONE;
    synapses[2].weight = -ONE - 1;
    assert!(Brain::from_synapses(2, 3, synapses.clone()).is_none());
    synapses[2].weight = ONE;
    let brain = Brain::from_synapses(2, 3, synapses).unwrap();
    assert_eq!(brain.layer_size(), 2);
    assert_eq!(brain.layer_count(), 3);
    assert_eq!(brain.synapses().len(), 8);
}

#[test]
fn draws_fill_weight_then_bias() {
    let draws: Vec<i64> = vec![1, 2, 3, 4, -5, -6, ONE, -ONE];
    let brain = Brain::from_draws(2, 2, &draws);
    assert_eq!(brain.layer_size(), 2);
    assert_eq!(brain.layer_count(), 2);
    let pairs: Vec<(i64, i64)> = brain.synapses().iter().map(|s| (s.weight, s.bias)).collect();
    assert_eq!(pairs, vec![(1, 2), (3, 4), (-5, -6), (ONE, -ONE)]);
}
