use neural::fixed::Fx;
use neural::matrix::{update_elems, normalise_cols, Mat};
use neural::network::{cost, logistic, Network};
use neural::neuron::{
    BinaryThreshold, Linear, Neuron, RectifiedLinear, Sigmoid, StochasticBinary, Synapse,
};
use neural::utils::map_range;

fn fx(units: i64) -> Fx {
    Fx { units }
}

fn syn(input: i64, weight: i64) -> Synapse {
    Synapse::new(fx(input), fx(weight))
}

#[test]
fn fixed_point_constructors() {
    assert_eq!(Fx::from_units(123).units, 123);
    assert_eq!(Fx::from_int(2).units, 2_000_000);
    assert_eq!(Fx::from_int(-3).units, -3_000_000);
}

#[test]
fn logistic_midpoint() {
    assert_eq!(logistic(fx(0)).units, 500_000);
}

#[test]
fn logistic_sides_and_bounds() {
    let hi = logistic(fx(1_000_000));
    let lo = logistic(fx(-1_000_000));
    assert_eq!(hi.units, 731_058);
    assert_eq!(lo.units, 268_941);
    assert!(0 < lo.units && lo.units < 1_000_000);
    assert!(0 < hi.units && hi.units < 1_000_000);
    assert!(lo.units < 500_000 && 500_000 < hi.units);
}

#[test]
fn logistic_saturates_at_extremes() {
    assert_eq!(logistic(fx(22_000_000)).units, 999_999);
    assert_eq!(logistic(fx(-22_000_000)).units, 0);
    assert_eq!(logistic(fx(10_000_000)).units, 999_954);
    assert_eq!(logistic(fx(-10_000_000)).units, 45);
}

#[test]
fn map_range_degenerate_interval_falls_back() {
    let r = map_range(fx(3_000_000), fx(7), fx(7), fx(2_000_000), fx(9_000_000));
    assert_eq!(r.units, 2_000_000);
}

#[test]
fn map_range_endpoints() {
    let lo = map_range(fx(0), fx(0), fx(2_000_000), fx(-10_000_000), fx(10_000_000));
    let hi = map_range(fx(2_000_000), fx(0), fx(2_000_000), fx(-10_000_000), fx(10_000_000));
    let mid = map_range(fx(1_000_000), fx(0), fx(2_000_000), fx(-10_000_000), fx(10_000_000));
    assert_eq!(lo.units, -10_000_000);
    assert_eq!(hi.units, 10_000_000);
    assert_eq!(mid.units, 0);
}

#[test]
fn linear_neuron_mean_of_weighted_inputs() {
    let n = Linear::new(vec![syn(1_000_000, 1_000_000), syn(1_000_000, 1_000_000)]);
    assert_eq!(n.evaluate().units, 1_000_000);
}

#[test]
fn linear_neuron_uneven_inputs() {
    let n = Linear::new(vec![syn(1_000_000, 1_000_000), syn(500_000, 1_000_000)]);
    assert_eq!(n.evaluate().units, 750_000);
}

#[test]
fn sigmoid_zero_inputs_lands_at_low_end_of_remap() {
    // Zero inputs give a zero weighted sum, the low end of the source
    // interval, which remaps to minus ten and squashes to nearly zero.
    let n = Sigmoid::new(vec![syn(0, 1_000_000), syn(0, 1_000_000)]);
    assert_eq!(n.evaluate().units, 45);
}

#[test]
fn sigmoid_half_total_evaluates_to_one_half() {
    let n = Sigmoid::new(vec![syn(500_000, 1_000_000), syn(500_000, 1_000_000)]);
    assert_eq!(n.evaluate().units, 500_000);
}

#[test]
fn binary_threshold_compares_strictly() {
    let above = BinaryThreshold::new(
        vec![syn(1_000_000, 1_000_000), syn(500_000, 1_000_000)],
        fx(500_000),
    );
    assert!(above.evaluate());
    let at = BinaryThreshold::new(
        vec![syn(1_000_000, 1_000_000), syn(500_000, 1_000_000)],
        fx(750_000),
    );
    assert!(!at.evaluate());
    let below = BinaryThreshold::new(
        vec![syn(1_000_000, 1_000_000), syn(500_000, 1_000_000)],
        fx(800_000),
    );
    assert!(!below.evaluate());
}

#[test]
fn rectified_linear_above_threshold_remaps() {
    let n = RectifiedLinear::new(
        vec![syn(1_000_000, 1_000_000), syn(500_000, 1_000_000)],
        fx(500_000),
    );
    let out = n.evaluate();
    assert_eq!(out, Some(fx(500_000)));
}

#[test]
fn rectified_linear_below_threshold_is_absent() {
    let n = RectifiedLinear::new(
        vec![syn(1_000_000, 1_000_000), syn(500_000, 1_000_000)],
        fx(800_000),
    );
    assert_eq!(n.evaluate(), None);
}

#[test]
fn stochastic_binary_follows_the_probability() {
    let high = StochasticBinary::new(vec![syn(1_000_000, 1_000_000), syn(1_000_000, 1_000_000)]);
    assert!(high.evaluate());
    let low = StochasticBinary::new(vec![syn(0, 1_000_000), syn(0, 1_000_000)]);
    assert!(!low.evaluate());
}

#[test]
fn set_inputs_length_mismatch_is_reported() {
    let mut n = Linear::new(vec![syn(1_000_000, 1_000_000), syn(1_000_000, 1_000_000)]);
    let before = n.evaluate();
    let r = n.set_inputs(&vec![fx(100_000), fx(200_000), fx(300_000)]);
    match r {
        Err(e) => {
            assert_eq!(e.expected, 2);
            assert_eq!(e.actual, 3);
        },
        Ok(()) => panic!("a mismatched input length must be rejected"),
    }
    // Nothing was silently truncated: the neuron is unchanged.
    assert_eq!(n.evaluate(), before);
}

#[test]
fn set_inputs_replaces_positionally() {
    let mut n = Linear::new(vec![syn(1_000_000, 1_000_000), syn(1_000_000, 500_000)]);
    let r = n.set_inputs(&vec![fx(200_000), fx(400_000)]);
    assert!(r.is_ok());
    let syns = n.get_synapses();
    assert_eq!(syns.len(), 2);
    assert_eq!(syns[0].input, fx(200_000));
    assert_eq!(syns[0].weight, fx(1_000_000));
    assert_eq!(syns[1].input, fx(400_000));
    assert_eq!(syns[1].weight, fx(500_000));
}

#[test]
fn set_inputs_keeps_the_threshold() {
    let mut n = BinaryThreshold::new(vec![syn(0, 1_000_000), syn(0, 1_000_000)], fx(500_000));
    assert!(!n.evaluate());
    let r = n.set_inputs(&vec![fx(1_000_000), fx(1_000_000)]);
    assert!(r.is_ok());
    assert!(n.evaluate());
}

#[test]
fn synapse_setters_keep_the_other_half() {
    let mut s = syn(1_000, 2_000);
    s.set_input(fx(5_000));
    assert_eq!(s.input, fx(5_000));
    assert_eq!(s.weight, fx(2_000));
    s.set_weight(fx(7_000));
    assert_eq!(s.input, fx(5_000));
    assert_eq!(s.weight, fx(7_000));
}

#[test]
fn cost_of_perfect_guesses_is_zero() {
    let a = vec![fx(750_000), fx(820_000), fx(930_000)];
    assert_eq!(cost(&a, &a.clone()).units, 0);
}

#[test]
fn cost_of_opposite_guesses() {
    let g = vec![fx(0), fx(0)];
    let t = vec![fx(1_000_000), fx(1_000_000)];
    assert_eq!(cost(&g, &t).units, 1_000_000);
}

#[test]
fn cost_pairs_up_to_the_shorter_sequence() {
    let g = vec![fx(0)];
    let t = vec![fx(1_000_000), fx(1_000_000)];
    assert_eq!(cost(&g, &t).units, 500_000);
}

#[test]
fn matrix_is_column_major() {
    let m = Mat::from_col_vec(2, 2, vec![fx(1), fx(2), fx(3), fx(4)]);
    assert_eq!(m.at(0, 0), fx(1));
    assert_eq!(m.at(1, 0), fx(2));
    assert_eq!(m.at(0, 1), fx(3));
    assert_eq!(m.at(1, 1), fx(4));
}

#[test]
fn update_elems_visits_every_element_and_keeps_dimensions() {
    let mut m = Mat::from_col_vec(2, 3, vec![fx(0), fx(1), fx(2), fx(3), fx(4), fx(5)]);
    update_elems(&mut m, |x: Fx| fx(x.units * 2));
    assert_eq!(m.nrows(), 2);
    assert_eq!(m.ncols(), 3);
    for i in 0..6i64 {
        assert_eq!(m.at((i % 2) as usize, (i / 2) as usize), fx(2 * i));
    }
}

#[test]
fn normalise_cols_scales_each_column_by_its_maximum() {
    let mut m = Mat::from_col_vec(3, 1, vec![fx(1_000_000), fx(2_000_000), fx(4_000_000)]);
    normalise_cols(&mut m);
    assert_eq!(m.at(0, 0), fx(250_000));
    assert_eq!(m.at(1, 0), fx(500_000));
    assert_eq!(m.at(2, 0), fx(1_000_000));
}

#[test]
fn normalise_cols_treats_columns_independently() {
    let mut m = Mat::from_col_vec(2, 2, vec![fx(0), fx(0), fx(3_000_000), fx(1_000_000)]);
    normalise_cols(&mut m);
    // The zero column is left exactly as it was.
    assert_eq!(m.at(0, 0), fx(0));
    assert_eq!(m.at(1, 0), fx(0));
    assert_eq!(m.at(0, 1), fx(1_000_000));
    assert_eq!(m.at(1, 1), fx(333_333));
}

#[test]
fn normalise_cols_skips_a_zero_maximum_column() {
    // All entries nonpositive: the fold-from-zero maximum is zero and the
    // column stays bit-identical.
    let mut m = Mat::from_col_vec(2, 1, vec![fx(-1_000_000), fx(-2_000_000)]);
    normalise_cols(&mut m);
    assert_eq!(m.at(0, 0), fx(-1_000_000));
    assert_eq!(m.at(1, 0), fx(-2_000_000));
}

#[test]
fn network_new_draws_weights_in_the_unit_interval() {
    let n = Network::new(4, 5, 2);
    assert_eq!(n.hidden_weights.rows, 4);
    assert_eq!(n.hidden_weights.cols, 5);
    assert_eq!(n.output_weights.rows, 5);
    assert_eq!(n.output_weights.cols, 2);
    for c in 0..5 {
        for r in 0..4 {
            let w = n.hidden_weights.at(r, c);
            assert!(0 <= w.units && w.units <= 1_000_000);
        }
    }
    for c in 0..2 {
        for r in 0..5 {
            let w = n.output_weights.at(r, c);
            assert!(0 <= w.units && w.units <= 1_000_000);
        }
    }
}

#[test]
fn forward_produces_open_unit_interval_guesses() {
    // A three-example, two-feature batch through a 2-3-1 network gives a
    // three-by-one matrix of guesses, each strictly between zero and one.
    let net = Network::new(2, 3, 1);
    let input = Mat::from_col_vec(
        3,
        2,
        vec![fx(100_000), fx(500_000), fx(900_000), fx(250_000), fx(750_000), fx(50_000)],
    );
    let out = net.forward(input);
    assert_eq!(out.nrows(), 3);
    assert_eq!(out.ncols(), 1);
    for r in 0..3 {
        let g = out.at(r, 0);
        assert!(0 < g.units && g.units < 1_000_000);
    }
}
