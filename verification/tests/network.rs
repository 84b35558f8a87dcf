use std::cell::{Cell, RefCell};

use nalgebra::DMatrix;
use nnet::matrix::Matrix;
use nnet::nnet::{activation, derivative, dsigmoid, random, sigmoid, Error, Layer, Network, State};
use nnet::reals::Reals;
use nnet::trainer::{Data, Trainer};

fn to_floats(m: &Matrix) -> DMatrix<f64> {
    DMatrix::from_iterator(m.nrows(), m.ncols(), m.as_slice().iter().map(|b| f64::from_bits(*b)))
}

fn to_bits(m: &DMatrix<f64>) -> Matrix {
    Matrix::new(m.nrows(), m.ncols(), m.iter().map(|x| x.to_bits()).collect()).unwrap()
}

fn row(values: &[f64]) -> Matrix {
    Matrix::new(1, values.len(), values.iter().map(|x| x.to_bits()).collect()).unwrap()
}

fn values(m: &Matrix) -> Vec<f64> {
    m.as_slice().iter().map(|b| f64::from_bits(*b)).collect()
}

fn close(a: f64, b: f64, tolerance: f64) -> bool {
    (a - b).abs() <= tolerance
}

/// Double arithmetic, with a small generator of its own in place of chance.
struct Floats {
    seed: Cell<u64>,
}

impl Floats {
    fn new() -> Floats {
        Floats { seed: Cell::new(0x2545_f491_4f6c_dd1d) }
    }

    fn next(&self) -> f64 {
        let mut x = self.seed.get();
        x ^= x << 13;
        x ^= x >> 7;
        x ^= x << 17;
        self.seed.set(x);
        (x >> 11) as f64 / (1u64 << 53) as f64
    }
}

impl Reals for Floats {
    fn product(&self, a: &Matrix, b: &Matrix) -> Matrix {
        to_bits(&(to_floats(a) * to_floats(b)))
    }

    fn sum(&self, a: &Matrix, b: &Matrix) -> Matrix {
        to_bits(&(to_floats(a) + to_floats(b)))
    }

    fn hadamard(&self, a: &Matrix, b: &Matrix) -> Matrix {
        to_bits(&to_floats(a).component_mul(&to_floats(b)))
    }

    fn descend(&self, from: &Matrix, rate: u64, slope: &Matrix) -> Matrix {
        to_bits(&(to_floats(from) - f64::from_bits(rate) * to_floats(slope)))
    }

    fn logistic(&self, x: u64) -> u64 {
        let x = f64::from_bits(x);
        (1.0 / (1.0 + (-x).exp())).to_bits()
    }

    fn logistic_slope(&self, x: u64) -> u64 {
        let x = f64::from_bits(x);
        ((-x).exp() / (1.0 + (-x).exp()).powi(2)).to_bits()
    }

    fn less_one(&self, x: u64) -> u64 {
        (f64::from_bits(x) - 1.0).to_bits()
    }

    fn square_sum(&self, m: &Matrix) -> u64 {
        to_floats(m).iter().map(|x| x.powi(2)).sum::<f64>().to_bits()
    }

    fn mean_step(&self, mean: u64, seen: usize, next: u64) -> u64 {
        ((f64::from_bits(mean) * seen as f64 + f64::from_bits(next)) / (seen as f64 + 1.0)).to_bits()
    }

    fn uniform(&self, rows: usize, cols: usize) -> Matrix {
        to_bits(&DMatrix::from_fn(rows, cols, |_, _| self.next()))
    }

    fn spread(&self, x: u64, scale: u64) -> u64 {
        let scale = f64::from_bits(scale);
        (f64::from_bits(x) * scale - 0.5 * scale).to_bits()
    }
}

/// Arithmetic whose products have a column too many.
struct Crooked;

impl Reals for Crooked {
    fn product(&self, a: &Matrix, b: &Matrix) -> Matrix {
        Matrix::from_element(a.nrows(), b.ncols() + 1, 0).unwrap()
    }

    fn sum(&self, a: &Matrix, b: &Matrix) -> Matrix {
        Floats::new().sum(a, b)
    }

    fn hadamard(&self, a: &Matrix, b: &Matrix) -> Matrix {
        Floats::new().hadamard(a, b)
    }

    fn descend(&self, from: &Matrix, rate: u64, slope: &Matrix) -> Matrix {
        Floats::new().descend(from, rate, slope)
    }

    fn logistic(&self, x: u64) -> u64 {
        Floats::new().logistic(x)
    }

    fn logistic_slope(&self, x: u64) -> u64 {
        Floats::new().logistic_slope(x)
    }

    fn less_one(&self, x: u64) -> u64 {
        Floats::new().less_one(x)
    }

    fn square_sum(&self, m: &Matrix) -> u64 {
        Floats::new().square_sum(m)
    }

    fn mean_step(&self, mean: u64, seen: usize, next: u64) -> u64 {
        Floats::new().mean_step(mean, seen, next)
    }

    fn uniform(&self, rows: usize, cols: usize) -> Matrix {
        Matrix::from_element(rows + 1, cols, 0).unwrap()
    }

    fn spread(&self, x: u64, scale: u64) -> u64 {
        Floats::new().spread(x, scale)
    }
}

fn state_of(output: &[f64]) -> State {
    State::new(vec![row(&[0.0]), row(output)]).unwrap()
}

fn network_of(layers: &[(DMatrix<f64>, DMatrix<f64>)]) -> Network {
    Network::from_layers(
        layers.iter().map(|(w, b)| Layer::new(to_bits(w), to_bits(b)).unwrap()).collect(),
    )
    .unwrap()
}

fn weights(net: &Network) -> Vec<(DMatrix<f64>, DMatrix<f64>)> {
    net.layers().iter().map(|l| (to_floats(l.wages()), to_floats(l.bias()))).collect()
}

fn loss(net: &Network, input: &[f64], class: usize) -> f64 {
    let k = Floats::new();
    let state = net.eval(row(input), &k).unwrap();
    values(&state.errors(class, &k)).iter().map(|e| e * e).sum::<f64>() / 2.0
}

fn points() -> Vec<(usize, [f64; 2])> {
    vec![(0, [0.0, 0.0]), (0, [0.0, 1.0]), (1, [1.0, 0.0]), (1, [1.0, 1.0])]
}

fn mean_squared_error(net: &Network) -> f64 {
    let k = Floats::new();
    let mut total = 0.0;
    for (class, point) in points() {
        let state = net.eval(row(&point), &k).unwrap();
        total += values(&state.errors(class, &k)).iter().map(|e| e * e).sum::<f64>();
    }
    total / points().len() as f64
}

fn accuracy(net: &Network) -> usize {
    let k = Floats::new();
    points()
        .iter()
        .filter(|(class, point)| net.eval(row(point), &k).unwrap().class() == *class)
        .count()
}

#[test]
fn activation_is_zero_far_below_zero() {
    let k = Floats::new();
    assert_eq!(sigmoid(&k, (-1000.0f64).to_bits()), 0.0f64.to_bits());
    assert_eq!(dsigmoid(&k, (-1000.0f64).to_bits()), 0.0f64.to_bits());
    assert_eq!(sigmoid(&k, f64::NEG_INFINITY.to_bits()), 0.0f64.to_bits());
    assert_eq!(dsigmoid(&k, f64::NEG_INFINITY.to_bits()), 0.0f64.to_bits());
}

#[test]
fn activation_is_zero_at_the_threshold_and_not_above_it() {
    let k = Floats::new();
    assert_eq!(sigmoid(&k, (-300.0f64).to_bits()), 0);
    assert_eq!(dsigmoid(&k, (-300.0f64).to_bits()), 0);
    assert_eq!(f64::from_bits(sigmoid(&k, (-299.0f64).to_bits())), 1.3994259113851394e-130);
    assert_eq!(f64::from_bits(dsigmoid(&k, (-299.0f64).to_bits())), 1.3994259113851394e-130);
}

#[test]
fn activation_of_what_is_not_a_number_is_zero() {
    let k = Floats::new();
    assert_eq!(sigmoid(&k, f64::NAN.to_bits()), 0);
    assert_eq!(dsigmoid(&k, f64::NAN.to_bits()), 0);
}

#[test]
fn activation_is_the_logistic_function() {
    let k = Floats::new();
    assert_eq!(f64::from_bits(sigmoid(&k, 0.0f64.to_bits())), 0.5);
    assert_eq!(f64::from_bits(dsigmoid(&k, 0.0f64.to_bits())), 0.25);
    assert_eq!(f64::from_bits(sigmoid(&k, 1.0f64.to_bits())), 0.7310585786300049);
    assert!(close(f64::from_bits(dsigmoid(&k, 1.0f64.to_bits())), 0.19661193324148188, 1e-15));
    assert_eq!(f64::from_bits(sigmoid(&k, f64::INFINITY.to_bits())), 1.0);
}

#[test]
fn activation_is_applied_to_each_entry() {
    let k = Floats::new();
    let m = to_bits(&DMatrix::from_row_slice(2, 2, &[0.0, -1000.0, 1.0, f64::NAN]));
    let y = activation(&k, &m);
    assert_eq!((y.nrows(), y.ncols()), (2, 2));
    let y = to_floats(&y);
    assert_eq!(y[(0, 0)], 0.5);
    assert_eq!(y[(0, 1)].to_bits(), 0);
    assert_eq!(y[(1, 0)], 0.7310585786300049);
    assert_eq!(y[(1, 1)].to_bits(), 0);
}

#[test]
fn derivative_is_applied_to_each_entry() {
    let k = Floats::new();
    let m = to_bits(&DMatrix::from_row_slice(1, 3, &[0.0, -300.0, -1.0]));
    let y = derivative(&k, &m);
    assert_eq!((y.nrows(), y.ncols()), (1, 3));
    let y = values(&y);
    assert_eq!(y[0], 0.25);
    assert_eq!(y[1].to_bits(), 0);
    assert!(close(y[2], 0.19661193324148188, 1e-15));
}

#[test]
fn random_spreads_a_draw_of_the_shape() {
    let k = Floats::new();
    let m = random(&k, 3, 2, 2.0f64.to_bits()).unwrap();
    assert_eq!((m.nrows(), m.ncols()), (3, 2));
    let again = Floats::new();
    let expected: Vec<f64> = (0..6).map(|_| again.next() * 2.0 - 1.0).collect();
    assert_eq!(values(&m), expected);
    assert!(random(&Crooked, 3, 2, 2.0f64.to_bits()).is_none());
}

#[test]
fn layer_wants_a_bias_row_as_wide_as_the_weights() {
    let wages = Matrix::from_element(2, 3, 0).unwrap();
    assert!(Layer::new(wages.clone(), Matrix::from_element(1, 3, 0).unwrap()).is_some());
    assert!(Layer::new(wages.clone(), Matrix::from_element(1, 2, 0).unwrap()).is_none());
    assert!(Layer::new(wages.clone(), Matrix::from_element(3, 1, 0).unwrap()).is_none());
    assert!(Layer::new(wages, Matrix::from_element(2, 3, 0).unwrap()).is_none());
}

#[test]
fn from_element_builds_one_layer_for_each_pair_of_sizes() {
    let half = 0.5f64.to_bits();
    let net = Network::from_element(&[2, 3, 4], half).unwrap();
    assert_eq!(net.info(), vec![(2, 3), (3, 4)]);
    let layers = net.layers();
    assert_eq!(layers.len(), 2);
    assert_eq!((layers[0].wages().nrows(), layers[0].wages().ncols()), (2, 3));
    assert_eq!((layers[0].bias().nrows(), layers[0].bias().ncols()), (1, 3));
    assert_eq!((layers[1].wages().nrows(), layers[1].wages().ncols()), (3, 4));
    assert_eq!((layers[1].bias().nrows(), layers[1].bias().ncols()), (1, 4));
    for layer in layers {
        assert!(layer.wages().as_slice().iter().all(|x| *x == half));
        assert!(layer.bias().as_slice().iter().all(|x| *x == half));
    }
}

#[test]
fn from_element_refuses_fewer_than_two_sizes() {
    assert_eq!(Network::from_element(&[], 0).err(), Some(Error::TooFewSizes));
    assert_eq!(Network::from_element(&[3], 0).err(), Some(Error::TooFewSizes));
    assert_eq!(Network::from_element(&[0], 0).err(), Some(Error::TooFewSizes));
    assert!(Network::from_element(&[3, 1], 0).is_ok());
}

#[test]
fn from_element_refuses_a_size_of_zero() {
    assert_eq!(Network::from_element(&[0, 2], 0).err(), Some(Error::ZeroSize));
    assert_eq!(Network::from_element(&[2, 0], 0).err(), Some(Error::ZeroSize));
    assert_eq!(Network::from_element(&[2, 3, 0, 4], 0).err(), Some(Error::ZeroSize));
    assert_eq!(Network::from_element(&[usize::MAX, 2, 0], 0).err(), Some(Error::ZeroSize));
}

#[test]
fn from_element_refuses_sizes_that_cannot_be_addressed() {
    assert_eq!(Network::from_element(&[usize::MAX, 2], 0).err(), Some(Error::TooLarge));
    assert_eq!(Network::from_element(&[1, 1, usize::MAX, 2], 0).err(), Some(Error::TooLarge));
}

#[test]
fn new_rand_draws_from_the_interval_around_zero() {
    let k = Floats::new();
    let net = Network::new_rand(&[4, 5, 3], 10.0f64.to_bits(), &k).unwrap();
    assert_eq!(net.info(), vec![(4, 5), (5, 3)]);
    let mut seen = Vec::new();
    for layer in net.layers() {
        assert_eq!((layer.bias().nrows(), layer.bias().ncols()), (1, layer.wages().ncols()));
        seen.extend(values(layer.wages()));
        seen.extend(values(layer.bias()));
    }
    assert_eq!(seen.len(), 4 * 5 + 5 + 5 * 3 + 3);
    assert!(seen.iter().all(|x| -5.0 <= *x && *x < 5.0));
    assert!(seen.iter().any(|x| *x < -1.0));
    assert!(seen.iter().any(|x| *x > 1.0));
}

#[test]
fn new_rand_spreads_each_draw() {
    let k = Floats::new();
    let net = Network::new_rand(&[1, 2], 4.0f64.to_bits(), &k).unwrap();
    let again = Floats::new();
    let expected: Vec<f64> = (0..4).map(|_| again.next() * 4.0 - 2.0).collect();
    let layer = &net.layers()[0];
    assert_eq!(values(layer.wages()), expected[..2].to_vec());
    assert_eq!(values(layer.bias()), expected[2..].to_vec());
}

#[test]
fn new_rand_refuses_what_from_element_refuses() {
    let k = Floats::new();
    assert_eq!(Network::new_rand(&[3], ONE_BITS, &k).err(), Some(Error::TooFewSizes));
    assert_eq!(Network::new_rand(&[3, 0], ONE_BITS, &k).err(), Some(Error::ZeroSize));
    assert_eq!(Network::new_rand(&[usize::MAX, 2], ONE_BITS, &k).err(), Some(Error::TooLarge));
    assert_eq!(Network::new_rand(&[2, 2, usize::MAX, 3, 0], ONE_BITS, &k).err(), Some(Error::ZeroSize));
}

const ONE_BITS: u64 = 0x3ff0_0000_0000_0000;

#[test]
fn new_rand_refuses_a_draw_of_another_shape() {
    assert_eq!(Network::new_rand(&[2, 3], ONE_BITS, &Crooked).err(), Some(Error::Arithmetic));
}

#[test]
fn from_layers_wants_a_chain() {
    let layer = |rows: usize, cols: usize| {
        Layer::new(
            Matrix::from_element(rows, cols, 0).unwrap(),
            Matrix::from_element(1, cols, 0).unwrap(),
        )
        .unwrap()
    };
    assert!(Network::from_layers(vec![]).is_none());
    assert!(Network::from_layers(vec![layer(2, 3)]).is_some());
    assert!(Network::from_layers(vec![layer(2, 3), layer(3, 4)]).is_some());
    assert!(Network::from_layers(vec![layer(2, 3), layer(2, 4)]).is_none());
    assert!(Network::from_layers(vec![layer(2, 3), layer(3, 4), layer(5, 1)]).is_none());
    assert!(Network::from_layers(vec![layer(0, 3)]).is_none());
    assert!(Network::from_layers(vec![layer(3, 0)]).is_none());
}

#[test]
fn into_layers_hands_the_layers_out() {
    let net = Network::from_element(&[2, 3, 4], 7).unwrap();
    let layers = net.into_layers();
    assert_eq!(layers.len(), 2);
    assert_eq!(layers[1].wages().as_slice(), &[7; 12]);
    assert!(Network::from_layers(layers).is_some());
}

#[test]
fn eval_keeps_every_activation() {
    let k = Floats::new();
    let net = Network::from_element(&[2, 3, 2], 0.5f64.to_bits()).unwrap();
    let state = net.eval(row(&[1.0, 2.0]), &k).unwrap();
    let layers = state.layers();
    assert_eq!(layers.len(), 3);
    assert_eq!(values(&layers[0]), vec![1.0, 2.0]);
    assert_eq!((layers[1].nrows(), layers[1].ncols()), (1, 3));
    assert_eq!((layers[2].nrows(), layers[2].ncols()), (1, 2));
    for hidden in values(&layers[1]) {
        assert!(close(hidden, 0.8807970779778823, 1e-15));
    }
    for output in values(&layers[2]) {
        assert!(close(output, 0.8607095297529271, 1e-15));
    }
    assert_eq!(state.output().as_slice(), layers[2].as_slice());
}

#[test]
fn eval_multiplies_the_row_by_the_weights() {
    let k = Floats::new();
    // weights: 1 3      bias: 0.5 -0.5
    //          2 4
    let net = network_of(&[(
        DMatrix::from_row_slice(2, 2, &[1.0, 3.0, 2.0, 4.0]),
        DMatrix::from_row_slice(1, 2, &[0.5, -0.5]),
    )]);
    let state = net.eval(row(&[1.0, -1.0]), &k).unwrap();
    let expected = [1.0 / (1.0 + (0.5f64).exp()), 1.0 / (1.0 + (1.5f64).exp())];
    let output = values(state.output());
    assert!(close(output[0], expected[0], 1e-15));
    assert!(close(output[1], expected[1], 1e-15));
}

#[test]
fn eval_is_the_same_each_time() {
    let k = Floats::new();
    let net = Network::new_rand(&[3, 5, 4, 2], 10.0f64.to_bits(), &k).unwrap();
    let first = net.eval(row(&[0.25, -1.5, 3.0]), &k).unwrap();
    let second = net.eval(row(&[0.25, -1.5, 3.0]), &k).unwrap();
    assert_eq!(first.layers().len(), second.layers().len());
    for (a, b) in first.layers().iter().zip(second.layers()) {
        assert_eq!((a.nrows(), a.ncols()), (b.nrows(), b.ncols()));
        assert_eq!(a.as_slice(), b.as_slice());
    }
}

#[test]
fn eval_output_is_as_wide_as_the_last_size() {
    let k = Floats::new();
    let dims = [3, 5, 4, 2];
    let net = Network::new_rand(&dims, 1.0f64.to_bits(), &k).unwrap();
    let state = net.eval(row(&[0.0, 0.0, 0.0]), &k).unwrap();
    let widths: Vec<usize> = state.layers().iter().map(|m| m.ncols()).collect();
    assert_eq!(widths, dims.to_vec());
    assert!(state.layers().iter().all(|m| m.nrows() == 1));
    assert_eq!(state.output().ncols(), 2);
}

#[test]
fn eval_refuses_an_input_of_another_width() {
    let k = Floats::new();
    let net = Network::from_element(&[3, 2], 0).unwrap();
    assert_eq!(net.eval(row(&[1.0, 2.0]), &k).err(), Some(Error::DimensionMismatch));
    assert_eq!(net.eval(row(&[1.0, 2.0, 3.0, 4.0]), &k).err(), Some(Error::DimensionMismatch));
    assert_eq!(net.eval(row(&[]), &k).err(), Some(Error::DimensionMismatch));
    assert!(net.eval(row(&[1.0, 2.0, 3.0]), &k).is_ok());
}

#[test]
fn eval_refuses_a_column() {
    let k = Floats::new();
    let net = Network::from_element(&[3, 2], 0).unwrap();
    let column = Matrix::new(3, 1, vec![0, 0, 0]).unwrap();
    assert_eq!(net.eval(column, &k).err(), Some(Error::DimensionMismatch));
    let block = Matrix::new(2, 3, vec![0; 6]).unwrap();
    assert_eq!(net.eval(block, &k).err(), Some(Error::DimensionMismatch));
}

#[test]
fn eval_refuses_an_input_before_any_arithmetic() {
    let net = Network::from_element(&[3, 2], 0).unwrap();
    assert_eq!(net.eval(row(&[1.0]), &Crooked).err(), Some(Error::DimensionMismatch));
}

#[test]
fn eval_refuses_a_product_of_another_shape() {
    let net = Network::from_element(&[3, 2], 0).unwrap();
    assert_eq!(net.eval(row(&[1.0, 2.0, 3.0]), &Crooked).err(), Some(Error::Arithmetic));
}

#[test]
fn state_wants_rows_with_an_entry() {
    assert!(State::new(vec![]).is_none());
    assert!(State::new(vec![row(&[1.0])]).is_some());
    assert!(State::new(vec![row(&[1.0]), row(&[])]).is_none());
    assert!(State::new(vec![row(&[1.0]), Matrix::new(2, 1, vec![0, 0]).unwrap()]).is_none());
    assert!(State::new(vec![row(&[1.0]), row(&[1.0, 2.0])]).is_some());
}

#[test]
fn class_is_the_index_of_the_greatest_entry() {
    assert_eq!(state_of(&[0.1, 0.7, 0.2]).class(), 1);
    assert_eq!(state_of(&[0.9, 0.7, 0.2]).class(), 0);
    assert_eq!(state_of(&[0.1, 0.7, 0.8]).class(), 2);
    assert_eq!(state_of(&[-3.0, -1.0, -2.0]).class(), 1);
    assert_eq!(state_of(&[0.3]).class(), 0);
}

#[test]
fn class_of_a_tie_is_the_lower_index() {
    assert_eq!(state_of(&[0.2, 0.9, 0.9]).class(), 1);
    assert_eq!(state_of(&[0.9, 0.2, 0.9]).class(), 0);
    assert_eq!(state_of(&[0.9, 0.9]).class(), 0);
    assert_eq!(state_of(&[0.5, 0.5, 0.5, 0.5]).class(), 0);
    assert_eq!(state_of(&[0.0, -0.0]).class(), 0);
    assert_eq!(state_of(&[-0.0, 0.0]).class(), 0);
    assert_eq!(state_of(&[-1.0, 0.0, -0.0, 0.0]).class(), 1);
}

#[test]
fn class_passes_over_what_is_not_a_number() {
    assert_eq!(state_of(&[1.0, f64::NAN, 2.0]).class(), 2);
    assert_eq!(state_of(&[1.0, f64::NAN, 0.5]).class(), 0);
    assert_eq!(state_of(&[f64::NAN, 1.0, 2.0]).class(), 0);
    assert_eq!(state_of(&[f64::NAN, f64::NAN]).class(), 0);
}

#[test]
fn class_reads_the_last_row() {
    let state = State::new(vec![row(&[9.0, 0.0]), row(&[0.0, 9.0, 0.0]), row(&[0.0, 0.0, 9.0])])
        .unwrap();
    assert_eq!(state.class(), 2);
}

#[test]
fn errors_take_one_from_the_entry_of_the_class() {
    let k = Floats::new();
    let state = state_of(&[0.25, 0.5, 0.75]);
    let errors = state.errors(1, &k);
    assert_eq!((errors.nrows(), errors.ncols()), (1, 3));
    assert_eq!(values(&errors), vec![0.25, -0.5, 0.75]);
    assert_eq!(values(&state.errors(0, &k)), vec![-0.75, 0.5, 0.75]);
    assert_eq!(values(&state.errors(2, &k)), vec![0.25, 0.5, -0.25]);
}

#[test]
fn errors_of_a_class_past_the_row_are_the_output() {
    let k = Floats::new();
    let state = state_of(&[0.25, 0.5, 0.75]);
    assert_eq!(values(&state.errors(3, &k)), vec![0.25, 0.5, 0.75]);
    assert_eq!(values(&state.errors(usize::MAX, &k)), vec![0.25, 0.5, 0.75]);
}

#[test]
fn learn_takes_one_step_down_the_gradient() {
    let k = Floats::new();
    let net = Network::from_element(&[1, 1], 0.5f64.to_bits()).unwrap();
    let rate = |_: usize| 1.0f64.to_bits();
    let data = |_: usize| Data { class: 0, data: row(&[1.0]) };
    let net = Trainer::new(net, &rate, &data, 1).learn(1, &k).unwrap().0;
    let (wages, bias) = weights(&net).remove(0);
    assert!(close(wages[(0, 0)], 0.5528770927842668, 1e-15));
    assert!(close(bias[(0, 0)], 0.5528770927842668, 1e-15));
}

#[test]
fn learn_scales_the_step_by_the_rate() {
    let k = Floats::new();
    let rate = |_: usize| 0.5f64.to_bits();
    let data = |_: usize| Data { class: 0, data: row(&[2.0]) };
    let net = Network::from_element(&[1, 1], 0.5f64.to_bits()).unwrap();
    let net = Trainer::new(net, &rate, &data, 1).learn(1, &k).unwrap().0;
    let out = 1.0 / (1.0 + (-1.5f64).exp());
    let delta = (out - 1.0) * ((-1.5f64).exp() / (1.0 + (-1.5f64).exp()).powi(2));
    let (wages, bias) = weights(&net).remove(0);
    assert!(close(wages[(0, 0)], 0.5 - 0.5 * 2.0 * delta, 1e-15));
    assert!(close(bias[(0, 0)], 0.5 - 0.5 * delta, 1e-15));
}

#[test]
fn learn_without_epochs_or_examples_changes_nothing() {
    let k = Floats::new();
    let rate = |_: usize| 1.0f64.to_bits();
    let data = |_: usize| Data { class: 0, data: row(&[1.0, 1.0]) };
    let before = Network::new_rand(&[2, 3, 2], 1.0f64.to_bits(), &k).unwrap();
    let expected = weights(&before);
    let (after, errors) = Trainer::new(before, &rate, &data, 4).learn(0, &k).unwrap();
    assert!(errors.is_empty());
    assert_eq!(weights(&after), expected);
    let (after, errors) = Trainer::new(after, &rate, &data, 0).learn(3, &k).unwrap();
    assert_eq!(errors, vec![0; 3]);
    assert_eq!(weights(&after), expected);
}

#[test]
fn learn_takes_the_examples_in_order_in_each_epoch() {
    let k = Floats::new();
    let asked = RefCell::new(Vec::new());
    let epochs = RefCell::new(Vec::new());
    let rate = |e: usize| {
        epochs.borrow_mut().push(e);
        1.0f64.to_bits()
    };
    let data = |i: usize| {
        asked.borrow_mut().push(i);
        Data { class: i % 2, data: row(&[i as f64, 1.0]) }
    };
    let net = Network::from_element(&[2, 2], 0).unwrap();
    Trainer::new(net, &rate, &data, 3).learn(2, &k).unwrap();
    assert_eq!(*epochs.borrow(), vec![0, 1]);
    assert_eq!(*asked.borrow(), vec![0, 1, 2, 0, 1, 2]);
}

#[test]
fn learn_uses_the_rate_of_the_epoch() {
    let k = Floats::new();
    let rate = |e: usize| if e == 0 { 0.0f64.to_bits() } else { 1.0f64.to_bits() };
    let data = |_: usize| Data { class: 0, data: row(&[1.0]) };
    let net = Network::from_element(&[1, 1], 0.5f64.to_bits()).unwrap();
    let still = Trainer::new(net, &rate, &data, 1).learn(1, &k).unwrap().0;
    assert_eq!(weights(&still)[0].0[(0, 0)], 0.5);
    let moved = Trainer::new(still, &rate, &data, 1).learn(2, &k).unwrap().0;
    assert!(close(weights(&moved)[0].0[(0, 0)], 0.5528770927842668, 1e-15));
}

#[test]
fn learn_reports_the_mean_squared_error_of_each_epoch() {
    let k = Floats::new();
    let rate = |_: usize| 0.0f64.to_bits();
    // The second class is past the single output: its error is the output.
    let data = |i: usize| Data { class: i, data: row(&[1.0]) };
    let net = Network::from_element(&[1, 1], 0.5f64.to_bits()).unwrap();
    let (_, errors) = Trainer::new(net, &rate, &data, 2).learn(3, &k).unwrap();
    let out: f64 = 0.7310585786300049;
    let first = (out - 1.0).powi(2);
    let second = out.powi(2);
    let mean = ((first * 0.0 + first) / 1.0 * 1.0 + second) / 2.0;
    assert_eq!(errors.len(), 3);
    for error in errors {
        assert!(close(f64::from_bits(error), mean, 1e-15));
    }
}

#[test]
fn learn_reports_the_error_before_each_step() {
    let k = Floats::new();
    let rate = |_: usize| 1.0f64.to_bits();
    let data = |_: usize| Data { class: 0, data: row(&[1.0]) };
    let net = Network::from_element(&[1, 1], 0.5f64.to_bits()).unwrap();
    let (_, errors) = Trainer::new(net, &rate, &data, 1).learn(2, &k).unwrap();
    let first = (0.7310585786300049f64 - 1.0).powi(2);
    let moved = 1.0 / (1.0 + (-2.0 * 0.5528770927842668f64).exp());
    let second = (moved - 1.0).powi(2);
    assert!(close(f64::from_bits(errors[0]), first, 1e-15));
    assert!(close(f64::from_bits(errors[1]), second, 1e-15));
}

#[test]
fn learn_keeps_the_shapes() {
    let k = Floats::new();
    let rate = |_: usize| 1.0f64.to_bits();
    let data = |i: usize| Data { class: i % 3, data: row(&[1.0, 0.5, -0.5, 2.0]) };
    let net = Network::new_rand(&[4, 6, 5, 3], 1.0f64.to_bits(), &k).unwrap();
    let before = net.info();
    let net = Trainer::new(net, &rate, &data, 5).learn(2, &k).unwrap().0;
    assert_eq!(net.info(), before);
    assert_eq!(before, vec![(4, 6), (6, 5), (5, 3)]);
}

#[test]
fn learn_refuses_an_example_of_another_width() {
    let k = Floats::new();
    let rate = |_: usize| 1.0f64.to_bits();
    let data = |i: usize| {
        if i == 2 {
            Data { class: 0, data: row(&[1.0, 2.0, 3.0]) }
        } else {
            Data { class: 0, data: row(&[1.0, 2.0]) }
        }
    };
    let net = Network::from_element(&[2, 2], 0).unwrap();
    assert_eq!(Trainer::new(net, &rate, &data, 3).learn(1, &k).err(), Some(Error::DimensionMismatch));
    let net = Network::from_element(&[2, 2], 0).unwrap();
    assert!(Trainer::new(net, &rate, &data, 2).learn(1, &k).is_ok());
}

#[test]
fn learn_refuses_arithmetic_of_another_shape() {
    let rate = |_: usize| 1.0f64.to_bits();
    let data = |_: usize| Data { class: 0, data: row(&[1.0, 2.0]) };
    let net = Network::from_element(&[2, 2], 0).unwrap();
    assert_eq!(Trainer::new(net, &rate, &data, 1).learn(1, &Crooked).err(), Some(Error::Arithmetic));
}

#[test]
fn learn_lowers_the_error_in_one_epoch() {
    let k = Floats::new();
    let net = Network::new_rand(&[2, 3, 2], 1.0f64.to_bits(), &k).unwrap();
    let before = mean_squared_error(&net);
    let rate = |_: usize| 1.0f64.to_bits();
    let data = |i: usize| Data { class: points()[i].0, data: row(&points()[i].1) };
    let net = Trainer::new(net, &rate, &data, 4).learn(1, &k).unwrap().0;
    let after = mean_squared_error(&net);
    assert!(after < before, "{} < {}", after, before);
}

#[test]
fn learn_separates_four_points() {
    let k = Floats::new();
    let net = Network::new_rand(&[2, 3, 2], 1.0f64.to_bits(), &k).unwrap();
    let rate = |_: usize| 1.0f64.to_bits();
    let data = |i: usize| Data { class: points()[i].0, data: row(&points()[i].1) };
    let (net, errors) = Trainer::new(net, &rate, &data, 4).learn(200, &k).unwrap();
    assert_eq!(errors.len(), 200);
    assert!(f64::from_bits(errors[199]) < f64::from_bits(errors[0]));
    assert_eq!(accuracy(&net), 4);
    assert!(mean_squared_error(&net) < 0.05);
}

#[test]
fn learn_steps_by_the_gradient_of_the_squared_error() {
    let k = Floats::new();
    let net = Network::new_rand(&[2, 3, 2], 2.0f64.to_bits(), &k).unwrap();
    let start = weights(&net);
    let input = [0.75, -0.25];
    let class = 1;
    let rate = |_: usize| 1.0f64.to_bits();
    let data = |_: usize| Data { class, data: row(&input) };
    let after = weights(&Trainer::new(net, &rate, &data, 1).learn(1, &k).unwrap().0);
    let step = 1e-5;
    for layer in 0..start.len() {
        for r in 0..start[layer].0.nrows() {
            for c in 0..start[layer].0.ncols() {
                let analytic = start[layer].0[(r, c)] - after[layer].0[(r, c)];
                let mut up = start.clone();
                up[layer].0[(r, c)] += step;
                let mut down = start.clone();
                down[layer].0[(r, c)] -= step;
                let numeric = (loss(&network_of(&up), &input, class)
                    - loss(&network_of(&down), &input, class))
                    / (2.0 * step);
                assert!(close(analytic, numeric, 1e-4), "{} {}", analytic, numeric);
                assert!(close(analytic, numeric, 1e-8), "{} {}", analytic, numeric);
            }
        }
        for c in 0..start[layer].1.ncols() {
            let analytic = start[layer].1[(0, c)] - after[layer].1[(0, c)];
            let mut up = start.clone();
            up[layer].1[(0, c)] += step;
            let mut down = start.clone();
            down[layer].1[(0, c)] -= step;
            let numeric = (loss(&network_of(&up), &input, class)
                - loss(&network_of(&down), &input, class))
                / (2.0 * step);
            assert!(close(analytic, numeric, 1e-8), "{} {}", analytic, numeric);
        }
    }
}

#[test]
fn dump_writes_what_bincode_writes_for_the_matrices() {
    let k = Floats::new();
    let net = Network::new_rand(&[2, 3, 2], 2.0f64.to_bits(), &k).unwrap();
    let expected = bincode::serialize(&weights(&net)).unwrap();
    assert_eq!(net.dump(), Some(expected));
}

#[test]
fn dump_writes_lengths_entries_and_shapes() {
    let net = Network::from_element(&[1, 2], 1.5f64.to_bits()).unwrap();
    let mut expected = Vec::new();
    expected.extend_from_slice(&1u64.to_le_bytes());
    for (rows, cols) in [(1u64, 2u64), (1, 2)] {
        expected.extend_from_slice(&(rows * cols).to_le_bytes());
        for _ in 0..rows * cols {
            expected.extend_from_slice(&1.5f64.to_le_bytes());
        }
        expected.extend_from_slice(&rows.to_le_bytes());
        expected.extend_from_slice(&cols.to_le_bytes());
    }
    assert_eq!(net.dump(), Some(expected));
}

#[test]
fn from_file_reads_what_dump_wrote() {
    let k = Floats::new();
    let net = Network::new_rand(&[3, 5, 4, 2], 10.0f64.to_bits(), &k).unwrap();
    let bytes = net.dump().unwrap();
    let read = Network::from_file(&bytes).unwrap();
    assert_eq!(read.info(), net.info());
    assert_eq!(weights(&read), weights(&net));
    let input = [0.25, -1.5, 3.0];
    let expected = values(net.eval(row(&input), &k).unwrap().output());
    let output = values(read.eval(row(&input), &k).unwrap().output());
    assert_eq!(expected.len(), 2);
    for (a, b) in output.iter().zip(&expected) {
        assert!(close(*a, *b, 1e-9));
        assert_eq!(a.to_bits(), b.to_bits());
    }
}

#[test]
fn from_file_reads_what_bincode_wrote_for_the_matrices() {
    let layers = vec![
        (DMatrix::from_row_slice(2, 3, &[1.0, 2.0, 3.0, 4.0, 5.0, 6.0]), DMatrix::from_row_slice(1, 3, &[0.1, 0.2, 0.3])),
        (DMatrix::from_row_slice(3, 1, &[-1.0, -2.0, -3.0]), DMatrix::from_row_slice(1, 1, &[0.5])),
    ];
    let bytes = bincode::serialize(&layers).unwrap();
    let net = Network::from_file(&bytes).unwrap();
    assert_eq!(net.info(), vec![(2, 3), (3, 1)]);
    assert_eq!(weights(&net), layers);
}

#[test]
fn from_file_refuses_what_is_no_network() {
    assert!(Network::from_file(&[]).is_none());
    assert!(Network::from_file(&[1, 2, 3]).is_none());
    let bytes = Network::from_element(&[2, 3], 0).unwrap().dump().unwrap();
    assert!(Network::from_file(&bytes[..bytes.len() - 1]).is_none());
    assert!(Network::from_file(&0u64.to_le_bytes()).is_none());
}

#[test]
fn from_file_refuses_layers_that_do_not_fit() {
    let chain = |shapes: &[(usize, usize, usize)]| {
        let layers: Vec<(DMatrix<f64>, DMatrix<f64>)> = shapes
            .iter()
            .map(|(rows, cols, bias)| (DMatrix::zeros(*rows, *cols), DMatrix::zeros(1, *bias)))
            .collect();
        bincode::serialize(&layers).unwrap()
    };
    assert!(Network::from_file(&chain(&[(2, 3, 3), (3, 4, 4)])).is_some());
    assert!(Network::from_file(&chain(&[(2, 3, 3), (2, 4, 4)])).is_none());
    assert!(Network::from_file(&chain(&[(2, 3, 2)])).is_none());
    assert!(Network::from_file(&chain(&[(0, 3, 3)])).is_none());
    let mut wrong = chain(&[(2, 3, 3)]);
    // The entries of the first matrix are followed by its number of rows.
    let rows = 8 + 8 + 6 * 8;
    wrong[rows] = 3;
    assert!(Network::from_file(&wrong).is_none());
}

#[test]
fn parts_are_the_entries_and_the_shapes() {
    let net = Network::from_element(&[2, 1], 7).unwrap();
    let parts = net.to_parts();
    assert_eq!(parts, vec![((vec![7, 7], 2, 1), (vec![7], 1, 1))]);
    let again = Network::from_parts(&parts).unwrap();
    assert_eq!(again.to_parts(), parts);
    assert!(Network::from_parts(&vec![((vec![7, 7], 2, 1), (vec![7], 1, 2))]).is_none());
    assert!(Network::from_parts(&vec![((vec![7], 2, 1), (vec![7], 1, 1))]).is_none());
    assert!(Network::from_parts(&vec![]).is_none());
}
